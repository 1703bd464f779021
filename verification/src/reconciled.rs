//! Length reconciliation is correct: along the tree of a message, the
//! reconciled lengths are those that belong to the message, and the real
//! length of every substructure is the length that it has in the real object.

use vstd::prelude::*;
use crate::error::BuildError;
use crate::lengths::{entries_tally, entry_lengths, lengths_view, level_lengths, LengthEntry, Tally};
use crate::message::{
    delimited, elements_wire, field_wire, fields_wire, lemma_delimited_len, Field, FieldValue,
    ProtobufMessageWithBlockPointers,
};
use crate::real_object::{
    embedded, entries_in_elements, entries_in_field, entries_in_fields, entries_in_message,
    entries_in_nested, lemma_embedded_split, real_elements_wire, real_field_wire,
    real_fields_wire, real_wire, reference_id, RealContext,
};
use crate::store::{block_length, BlockRecord};
use crate::structure::{
    keys_inside, lemma_keys_of_elements, lemma_keys_of_fields, tree_of_elements, tree_of_field,
    tree_of_fields, tree_of_message, tree_of_nested,
};
use crate::tree::{
    entries_view, entries_well_formed, lemma_last_entry, node_view, NodeView, PointerEntry,
    PointerNode,
};
use crate::varint::{
    decode_varint, lemma_varint_len_bounds, lemma_varint_round_trip, varint_bytes, varint_len,
};

verus! {

/// Whether every block whose length the store tells has that many bytes.
pub open spec fn store_agrees(store: Seq<BlockRecord>, context: RealContext) -> bool {
    forall|id: Seq<char>|
        (#[trigger] block_length(store, id)) matches Ok(len) ==> context.content[id].len() == len
}

/// Whether a tally is that of the entries `entries`, for a stretch of the
/// buffer of `wire_len` bytes that takes `real_len` bytes in the real object.
pub open spec fn reconciled(tally: Tally, entries: Seq<LengthEntry>, wire_len: nat, real_len: nat)
    -> bool {
    &&& tally.lengths == lengths_view(entries)
    &&& 0 <= tally.compressed_sum <= wire_len
    &&& 0 <= tally.real_sum
    &&& tally.real_sum - tally.compressed_sum == real_len - wire_len
}

/// The lengths of two lists of entries one after the other are those of
/// the second laid over those of the first.
pub proof fn lemma_lengths_view_joined(first: Seq<LengthEntry>, second: Seq<LengthEntry>)
    ensures
        lengths_view(first + second) == lengths_view(first).union_prefer_right(
            lengths_view(second),
        ),
    decreases second.len(),
{
    if second.len() == 0 {
        assert(first + second =~= first);
        assert(lengths_view(first).union_prefer_right(lengths_view(second)) =~= lengths_view(
            first,
        ));
    } else {
        assert((first + second).drop_last() =~= first + second.drop_last());
        lemma_lengths_view_joined(first, second.drop_last());
        assert(lengths_view(first + second) =~= lengths_view(first).union_prefer_right(
            lengths_view(second),
        ));
    }
}

/// The varint at the offset after a tag byte is the length of the payload.
pub proof fn lemma_length_prefix(buffer: Seq<u8>, position: int, tag: u8, payload: Seq<u8>)
    requires
        embedded(buffer, position, delimited(tag, payload)),
        buffer.len() <= usize::MAX,
    ensures
        decode_varint(buffer, position + 1) == Ok::<usize, BuildError>(payload.len() as usize),
        position + 1 <= usize::MAX,
        payload.len() <= usize::MAX,
{
    let n = payload.len();
    let wire = delimited(tag, payload);
    lemma_delimited_len(tag, payload);
    lemma_varint_len_bounds(n);
    let before = buffer.subrange(0, position + 1);
    let after = buffer.subrange(position + 1 + varint_len(n), buffer.len() as int);
    assert(buffer =~= before + varint_bytes(n) + after) by {
        assert forall|i: int| 0 <= i < buffer.len() implies buffer[i] == (before + varint_bytes(n)
            + after)[i] by {
            if position + 1 <= i < position + 1 + varint_len(n) {
                assert(buffer.subrange(position, position + wire.len())[i - position] == wire[i
                    - position]);
            }
        }
    }
    lemma_varint_round_trip(n, before, after);
}

/// One more reference at the end of a level: its entry joins the tally.
proof fn lemma_tally_leaf(
    entries: Seq<PointerEntry>,
    buffer: Seq<u8>,
    store: Seq<BlockRecord>,
    context: RealContext,
    field: Field,
    position: int,
    before: Seq<LengthEntry>,
    wire_len: nat,
    real_len: nat,
)
    requires
        entries.len() > 0,
        field.value is Bytes,
        reference_id(field.value->Bytes_0@, context) is Some,
        entries.last().offset == position + 1,
        node_view(entries.last().node) == NodeView::Leaf(
            reference_id(field.value->Bytes_0@, context).unwrap(),
        ),
        embedded(buffer, position, field_wire(field)),
        buffer.len() <= usize::MAX,
        store_agrees(store, context),
        entries_tally(entries.drop_last(), buffer, store) matches Ok(tally) ==> reconciled(
            tally,
            before,
            wire_len,
            real_len,
        ),
    ensures
        entries_tally(entries, buffer, store) matches Ok(tally) ==> reconciled(
            tally,
            before + entries_in_field(field, position, context),
            wire_len + field_wire(field).len(),
            real_len + real_field_wire(field, context).len(),
        ),
{
    let bytes = field.value->Bytes_0@;
    let id = reference_id(bytes, context).unwrap();
    let added = entries_in_field(field, position, context);
    lemma_length_prefix(buffer, position, field.tag, bytes);
    lemma_delimited_len(field.tag, bytes);
    lemma_delimited_len(field.tag, context.content[id]);
    if entries_tally(entries, buffer, store) is Ok {
        let earlier = entries_tally(entries.drop_last(), buffer, store).unwrap();
        let tally = entries_tally(entries, buffer, store).unwrap();
        assert(entry_lengths(entries.last(), buffer, store) is Ok);
        assert(block_length(store, id) is Ok);
        assert((before + added).drop_last() =~= before);
        assert(tally.lengths =~= lengths_view(before + added));
    }
}

/// One more nested message at the end of a level: its entry and the
/// entries below it join the tally.
proof fn lemma_tally_nested(
    entries: Seq<PointerEntry>,
    buffer: Seq<u8>,
    store: Seq<BlockRecord>,
    context: RealContext,
    tag: u8,
    inner: ProtobufMessageWithBlockPointers,
    position: int,
    before: Seq<LengthEntry>,
    wire_len: nat,
    real_len: nat,
)
    requires
        entries.len() > 0,
        entries.last().offset == position + 1,
        entries.last().node is Internal,
        entries_in_message(
            inner,
            position + 1 + varint_len(inner.wire().len()),
            context,
        ).len() > 0,
        embedded(buffer, position, delimited(tag, inner.wire())),
        buffer.len() <= usize::MAX,
        entries_tally(entries.drop_last(), buffer, store) matches Ok(tally) ==> reconciled(
            tally,
            before,
            wire_len,
            real_len,
        ),
        entries_tally(entries.last().node->Internal_0.entries@, buffer, store) matches Ok(tally)
            ==> reconciled(
            tally,
            entries_in_message(inner, position + 1 + varint_len(inner.wire().len()), context),
            inner.wire().len(),
            real_wire(inner, context).len(),
        ),
    ensures
        entries_tally(entries, buffer, store) matches Ok(tally) ==> reconciled(
            tally,
            before + entries_in_nested(inner, position, context),
            wire_len + delimited(tag, inner.wire()).len(),
            real_len + delimited(tag, real_wire(inner, context)).len(),
        ),
{
    let inside = position + 1 + varint_len(inner.wire().len());
    let below = entries_in_message(inner, inside, context);
    let added = entries_in_nested(inner, position, context);
    let subtree = entries.last().node->Internal_0.entries@;
    lemma_length_prefix(buffer, position, tag, inner.wire());
    lemma_delimited_len(tag, inner.wire());
    lemma_delimited_len(tag, real_wire(inner, context));
    if entries_tally(entries, buffer, store) is Ok {
        let earlier = entries_tally(entries.drop_last(), buffer, store).unwrap();
        let tally = entries_tally(entries, buffer, store).unwrap();
        assert(entry_lengths(entries.last(), buffer, store) is Ok);
        assert(level_lengths(subtree, inner.wire().len() as usize, buffer, store) is Ok);
        let inner_tally = entries_tally(subtree, buffer, store).unwrap();
        let parent = added[0];
        assert(added =~= seq![parent] + below);
        assert(before + added =~= (before + seq![parent]) + below);
        lemma_lengths_view_joined(before + seq![parent], below);
        assert((before + seq![parent]).drop_last() =~= before);
        assert(tally.lengths =~= lengths_view(before + added));
    }
}

/// Along the level of the tree that belongs to `fields`, the tally is that
/// of the entries that belong to `fields`.
pub proof fn lemma_tally_fields(
    entries: Seq<PointerEntry>,
    fields: Seq<Field>,
    start: int,
    buffer: Seq<u8>,
    store: Seq<BlockRecord>,
    context: RealContext,
)
    requires
        entries_well_formed(entries),
        entries_view(entries) == tree_of_fields(fields, start, context),
        embedded(buffer, start, fields_wire(fields)),
        buffer.len() <= usize::MAX,
        store_agrees(store, context),
    ensures
        entries_tally(entries, buffer, store) matches Ok(tally) ==> reconciled(
            tally,
            entries_in_fields(fields, start, context),
            fields_wire(fields).len(),
            real_fields_wire(fields, context).len(),
        ),
    decreases fields, 1int, 0int,
{
    if fields.len() == 0 {
        if entries.len() > 0 {
            assert(entries_view(entries).contains_key(entries.last().offset));
        }
    } else {
        let front = fields.drop_last();
        let last = fields.last();
        let middle = start + fields_wire(front).len();
        let base = tree_of_fields(front, start, context);
        lemma_embedded_split(buffer, start, fields_wire(front), field_wire(last));
        lemma_keys_of_fields(front, start, context);
        match last.value {
            FieldValue::Bytes(bytes) => match reference_id(bytes@, context) {
                Some(id) => {
                    let offset = (middle + 1) as usize;
                    lemma_delimited_len(last.tag, bytes@);
                    assert(tree_of_field(last, middle, context) == Map::<
                        usize,
                        NodeView,
                    >::empty().insert(offset, NodeView::Leaf(id)));
                    assert(base.union_prefer_right(tree_of_field(last, middle, context))
                        =~= base.insert(offset, NodeView::Leaf(id)));
                    lemma_last_entry(entries, base, offset, NodeView::Leaf(id));
                    lemma_tally_fields(entries.drop_last(), front, start, buffer, store, context);
                    lemma_tally_leaf(
                        entries,
                        buffer,
                        store,
                        context,
                        last,
                        middle,
                        entries_in_fields(front, start, context),
                        fields_wire(front).len(),
                        real_fields_wire(front, context).len(),
                    );
                },
                None => {
                    assert(tree_of_field(last, middle, context) == Map::<usize, NodeView>::empty());
                    assert(entries_in_field(last, middle, context) == Seq::<LengthEntry>::empty());
                    assert(real_field_wire(last, context) == field_wire(last));
                    assert(base.union_prefer_right(tree_of_field(last, middle, context))
                        =~= base);
                    lemma_tally_fields(entries, front, start, buffer, store, context);
                    assert(entries_in_fields(fields, start, context) =~= entries_in_fields(
                        front,
                        start,
                        context,
                    ));
                },
            },
            FieldValue::Message(inner) => {
                assert(tree_of_field(last, middle, context) == tree_of_nested(
                    inner,
                    middle,
                    context,
                ));
                assert(entries_in_field(last, middle, context) == entries_in_nested(
                    inner,
                    middle,
                    context,
                ));
                assert(field_wire(last) == delimited(last.tag, inner.wire()));
                assert(real_field_wire(last, context) == delimited(
                    last.tag,
                    real_wire(inner, context),
                ));
                lemma_tally_with_nested(
                    entries,
                    base,
                    last.tag,
                    inner,
                    middle,
                    buffer,
                    store,
                    context,
                );
                let inside = middle + 1 + varint_len(inner.wire().len());
                if entries_in_message(inner, inside, context).len() == 0 {
                    lemma_tally_fields(entries, front, start, buffer, store, context);
                    assert(entries_in_fields(fields, start, context) =~= entries_in_fields(
                        front,
                        start,
                        context,
                    ));
                    crate::real_object::lemma_plain_message(inner, inside, context);
                } else {
                    lemma_tally_fields(entries.drop_last(), front, start, buffer, store, context);
                    lemma_tally_fields(
                        entries.last().node->Internal_0.entries@,
                        inner.fields@,
                        inside,
                        buffer,
                        store,
                        context,
                    );
                    lemma_tally_nested(
                        entries,
                        buffer,
                        store,
                        context,
                        last.tag,
                        inner,
                        middle,
                        entries_in_fields(front, start, context),
                        fields_wire(front).len(),
                        real_fields_wire(front, context).len(),
                    );
                }
            },
            FieldValue::Repeated(elements) => {
                assert(elements@.take(elements@.len() as int) =~= elements@);
                assert(tree_of_field(last, middle, context) == tree_of_elements(
                    last.tag,
                    elements@,
                    middle,
                    context,
                ));
                assert(entries_in_field(last, middle, context) == entries_in_elements(
                    last.tag,
                    elements@,
                    middle,
                    context,
                ));
                assert(field_wire(last) == elements_wire(last.tag, elements@));
                assert(real_field_wire(last, context) == real_elements_wire(
                    last.tag,
                    elements@,
                    context,
                ));
                lemma_tally_elements(
                    entries,
                    fields,
                    elements@.len() as int,
                    start,
                    buffer,
                    store,
                    context,
                );
            },
            _ => {
                assert(tree_of_field(last, middle, context) == Map::<usize, NodeView>::empty());
                assert(entries_in_field(last, middle, context) == Seq::<LengthEntry>::empty());
                assert(real_field_wire(last, context) == field_wire(last));
                assert(base.union_prefer_right(tree_of_field(last, middle, context)) =~= base);
                lemma_tally_fields(entries, front, start, buffer, store, context);
                assert(entries_in_fields(fields, start, context) =~= entries_in_fields(
                    front,
                    start,
                    context,
                ));
            },
        }
    }
}

/// What a nested message at the end of a level means for the entries of
/// the level: nothing where it holds no reference; otherwise the last entry
/// is its internal node, and the level below belongs to it.
pub proof fn lemma_tally_with_nested(
    entries: Seq<PointerEntry>,
    base: Map<usize, NodeView>,
    tag: u8,
    inner: ProtobufMessageWithBlockPointers,
    position: int,
    buffer: Seq<u8>,
    store: Seq<BlockRecord>,
    context: RealContext,
)
    requires
        entries_well_formed(entries),
        entries_view(entries) == base.union_prefer_right(tree_of_nested(inner, position, context)),
        keys_inside(base, -1, position),
        embedded(buffer, position, delimited(tag, inner.wire())),
        buffer.len() <= usize::MAX,
    ensures
        entries_in_message(
            inner,
            position + 1 + varint_len(inner.wire().len()),
            context,
        ).len() == 0 ==> entries_view(entries) == base,
        entries_in_message(
            inner,
            position + 1 + varint_len(inner.wire().len()),
            context,
        ).len() > 0 ==> {
            &&& entries.len() > 0
            &&& entries.last().offset == position + 1
            &&& entries.last().node is Internal
            &&& entries_well_formed(entries.drop_last())
            &&& entries_well_formed(entries.last().node->Internal_0.entries@)
            &&& entries_view(entries.drop_last()) == base
            &&& entries_view(entries.last().node->Internal_0.entries@) == tree_of_message(
                inner,
                position + 1 + varint_len(inner.wire().len()),
                context,
            )
            &&& embedded(
                buffer,
                position + 1 + varint_len(inner.wire().len()),
                inner.wire(),
            )
        },
{
    let inside = position + 1 + varint_len(inner.wire().len());
    let offset = (position + 1) as usize;
    lemma_delimited_len(tag, inner.wire());
    lemma_varint_len_bounds(inner.wire().len());
    if entries_in_message(inner, inside, context).len() == 0 {
        assert(base.union_prefer_right(tree_of_nested(inner, position, context)) =~= base);
    } else {
        let node = NodeView::Internal(tree_of_message(inner, inside, context));
        assert(base.union_prefer_right(tree_of_nested(inner, position, context)) =~= base.insert(
            offset,
            node,
        ));
        lemma_last_entry(entries, base, offset, node);
        lemma_embedded_split(
            buffer,
            position,
            seq![tag] + varint_bytes(inner.wire().len()),
            inner.wire(),
        );
        assert(entries[entries.len() - 1] == entries.last());
        assert(entries_well_formed(entries.drop_last())) by {
            let front = entries.drop_last();
            assert forall|i: int| 0 <= i < front.len() implies match (#[trigger] front[i]).node {
                PointerNode::Leaf(_) => true,
                PointerNode::Internal(tree) => entries_well_formed(tree.entries@),
            } by {
                assert(front[i] == entries[i]);
            }
        }
    }
}

/// Along a level that ends with the first `n` elements of a repeated field.
pub proof fn lemma_tally_elements(
    entries: Seq<PointerEntry>,
    fields: Seq<Field>,
    n: int,
    start: int,
    buffer: Seq<u8>,
    store: Seq<BlockRecord>,
    context: RealContext,
)
    requires
        fields.len() > 0,
        fields.last().value is Repeated,
        0 <= n <= fields.last().value->Repeated_0@.len(),
        entries_well_formed(entries),
        entries_view(entries) == tree_of_fields(
            fields.drop_last(),
            start,
            context,
        ).union_prefer_right(
            tree_of_elements(
                fields.last().tag,
                fields.last().value->Repeated_0@.take(n),
                start + fields_wire(fields.drop_last()).len(),
                context,
            ),
        ),
        embedded(buffer, start, fields_wire(fields.drop_last())),
        embedded(
            buffer,
            start + fields_wire(fields.drop_last()).len(),
            elements_wire(fields.last().tag, fields.last().value->Repeated_0@.take(n)),
        ),
        buffer.len() <= usize::MAX,
        store_agrees(store, context),
    ensures
        entries_tally(entries, buffer, store) matches Ok(tally) ==> reconciled(
            tally,
            entries_in_fields(fields.drop_last(), start, context) + entries_in_elements(
                fields.last().tag,
                fields.last().value->Repeated_0@.take(n),
                start + fields_wire(fields.drop_last()).len(),
                context,
            ),
            fields_wire(fields.drop_last()).len() + elements_wire(
                fields.last().tag,
                fields.last().value->Repeated_0@.take(n),
            ).len(),
            real_fields_wire(fields.drop_last(), context).len() + real_elements_wire(
                fields.last().tag,
                fields.last().value->Repeated_0@.take(n),
                context,
            ).len(),
        ),
    decreases fields, 0int, n,
{
    let front = fields.drop_last();
    let tag = fields.last().tag;
    let all = fields.last().value->Repeated_0@;
    let elements = all.take(n);
    let middle = start + fields_wire(front).len();
    let front_entries = entries_in_fields(front, start, context);
    if n == 0 {
        assert(tree_of_fields(front, start, context).union_prefer_right(
            tree_of_elements(tag, elements, middle, context),
        ) =~= tree_of_fields(front, start, context));
        lemma_tally_fields(entries, front, start, buffer, store, context);
        assert(front_entries + entries_in_elements(tag, elements, middle, context)
            =~= front_entries);
    } else {
        let earlier = all.take(n - 1);
        let last = all[n - 1];
        assert(elements.drop_last() =~= earlier);
        assert(elements.last() == last);
        let position = middle + elements_wire(tag, earlier).len();
        let inside = position + 1 + varint_len(last.wire().len());
        let base = tree_of_fields(front, start, context).union_prefer_right(
            tree_of_elements(tag, earlier, middle, context),
        );
        lemma_embedded_split(buffer, middle, elements_wire(tag, earlier), delimited(tag, last.wire()));
        lemma_keys_of_fields(front, start, context);
        lemma_keys_of_elements(tag, earlier, middle, context);
        assert(entries_view(entries) =~= base.union_prefer_right(
            tree_of_nested(last, position, context),
        ));
        lemma_tally_with_nested(entries, base, tag, last, position, buffer, store, context);
        let earlier_entries = front_entries + entries_in_elements(tag, earlier, middle, context);
        assert(decreases_to!(fields => fields.last()));
        assert(decreases_to!(fields.last().value => fields.last().value->Repeated_0));
        assert(decreases_to!(fields.last().value->Repeated_0 => fields.last().value->Repeated_0[n - 1]));
        if entries_in_message(last, inside, context).len() == 0 {
            lemma_tally_elements(entries, fields, n - 1, start, buffer, store, context);
            crate::real_object::lemma_plain_message(last, inside, context);
            assert(front_entries + entries_in_elements(tag, elements, middle, context)
                =~= earlier_entries);
        } else {
            lemma_tally_elements(entries.drop_last(), fields, n - 1, start, buffer, store, context);
            lemma_tally_fields(
                entries.last().node->Internal_0.entries@,
                last.fields@,
                inside,
                buffer,
                store,
                context,
            );
            lemma_tally_nested(
                entries,
                buffer,
                store,
                context,
                tag,
                last,
                position,
                earlier_entries,
                fields_wire(front).len() + elements_wire(tag, earlier).len(),
                real_fields_wire(front, context).len() + real_elements_wire(
                    tag,
                    earlier,
                    context,
                ).len(),
            );
            assert(front_entries + entries_in_elements(tag, elements, middle, context)
                =~= earlier_entries + entries_in_nested(last, position, context));
        }
    }
}

} // verus!
