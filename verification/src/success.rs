//! When a build succeeds: with every known block in the store as a flat
//! file, and the real object short enough for its length to fit a machine
//! word, no step of the build fails.

use vstd::prelude::*;
use crate::assemble::{index_from, plan_parts, plan_spec};
use crate::correctness::{lemma_ascending_entries_are_unique, lemma_ordered_message};
use crate::error::BuildError;
use crate::lengths::{
    entries_tally, entry_lengths, lengths_view, level_lengths, real_lengths_spec, LengthEntry,
    RealLengths,
};
use crate::message::{
    delimited, elements_wire, field_wire, fields_wire, lemma_delimited_len, Field, FieldValue,
    ProtobufMessageWithBlockPointers,
};
use crate::real_locator::{
    real_in_elements, real_in_field, real_in_fields, real_in_message, real_in_nested, RealWalk,
    WalkContext,
};
use crate::real_object::{
    embedded, entries_in_elements, entries_in_field, entries_in_fields, entries_in_message,
    entries_in_nested, lemma_embedded_split, lemma_plain_message, real_elements_wire,
    real_field_wire, real_fields_wire, real_wire, reference_id, RealContext,
};
use crate::real_paths::{
    contexts_agree, lemma_table_matches_parts, lemma_walk_message, real_found_in_elements,
    real_found_in_field, real_found_in_fields, real_found_in_message, real_found_in_nested,
    table_matches, walked,
};
use crate::reconciled::{
    lemma_length_prefix, lemma_tally_elements, lemma_tally_fields, lemma_tally_with_nested,
    reconciled, store_agrees,
};
use crate::segment::{regions_fit, resume_at, segments};
use crate::store::{block_length, BlockRecord};
use crate::structure::{
    lemma_keys_of_elements, lemma_keys_of_fields, lemma_tree_of_found, tree_of_elements,
    tree_of_field, tree_of_fields, tree_of_nested,
};
use crate::tree::{
    entries_view, entries_well_formed, lemma_last_entry, NodeView, PointerEntry, PointerTree,
};
use crate::varint::{lemma_varint_len_bounds, varint_len};

verus! {

/// Whether the store holds every block that can be referred to as a flat
/// file of the length of the block.
pub open spec fn store_holds(store: Seq<BlockRecord>, context: RealContext) -> bool {
    forall|bytes: Seq<u8>|
        (#[trigger] reference_id(bytes, context)) matches Some(id) ==> context.content[id].len()
            <= usize::MAX && block_length(store, id) == Ok::<usize, BuildError>(
            context.content[id].len() as usize,
        )
}

/// Regions fit no worse from an earlier cursor.
proof fn lemma_regions_fit_earlier(
    buffer_len: int,
    entries: Seq<LengthEntry>,
    earlier: int,
    cursor: int,
)
    requires
        regions_fit(buffer_len, entries, cursor),
        earlier <= cursor,
    ensures
        regions_fit(buffer_len, entries, earlier),
{
}

/// The regions of a message's entries lie one after another inside the
/// bytes that the message is written as, and the regions after them go on
/// from its end.
proof fn lemma_regions_of_message(
    buffer_len: int,
    message: ProtobufMessageWithBlockPointers,
    start: int,
    context: RealContext,
    rest: Seq<LengthEntry>,
)
    requires
        0 <= start,
        start + message.wire().len() <= buffer_len <= usize::MAX,
        real_wire(message, context).len() <= usize::MAX,
        regions_fit(buffer_len, rest, start + message.wire().len()),
    ensures
        regions_fit(buffer_len, entries_in_message(message, start, context) + rest, start),
    decreases message, 0int,
{
    lemma_regions_of_fields(buffer_len, message.fields@, start, context, rest);
}

proof fn lemma_regions_of_fields(
    buffer_len: int,
    fields: Seq<Field>,
    start: int,
    context: RealContext,
    rest: Seq<LengthEntry>,
)
    requires
        0 <= start,
        start + fields_wire(fields).len() <= buffer_len <= usize::MAX,
        real_fields_wire(fields, context).len() <= usize::MAX,
        regions_fit(buffer_len, rest, start + fields_wire(fields).len()),
    ensures
        regions_fit(buffer_len, entries_in_fields(fields, start, context) + rest, start),
    decreases fields, 0int,
{
    if fields.len() == 0 {
        assert(entries_in_fields(fields, start, context) + rest =~= rest);
    } else {
        let front = fields.drop_last();
        let middle = start + fields_wire(front).len();
        let last_entries = entries_in_field(fields.last(), middle, context);
        lemma_regions_of_field(buffer_len, fields.last(), middle, context, rest);
        lemma_regions_of_fields(buffer_len, front, start, context, last_entries + rest);
        assert(entries_in_fields(front, start, context) + (last_entries + rest)
            =~= entries_in_fields(fields, start, context) + rest);
    }
}

proof fn lemma_regions_of_field(
    buffer_len: int,
    field: Field,
    position: int,
    context: RealContext,
    rest: Seq<LengthEntry>,
)
    requires
        0 <= position,
        position + field_wire(field).len() <= buffer_len <= usize::MAX,
        real_field_wire(field, context).len() <= usize::MAX,
        regions_fit(buffer_len, rest, position + field_wire(field).len()),
    ensures
        regions_fit(buffer_len, entries_in_field(field, position, context) + rest, position),
    decreases field, 0int,
{
    let entries = entries_in_field(field, position, context);
    match field.value {
        FieldValue::Bytes(bytes) => match reference_id(bytes@, context) {
            Some(id) => {
                lemma_delimited_len(field.tag, bytes@);
                assert((entries + rest)[0] == entries[0]);
                assert((entries + rest).drop_first() =~= rest);
                assert(resume_at(entries[0]) == position + field_wire(field).len());
            },
            None => {
                assert(entries + rest =~= rest);
                lemma_regions_fit_earlier(
                    buffer_len,
                    rest,
                    position,
                    position + field_wire(field).len(),
                );
            },
        },
        FieldValue::Message(inner) => {
            lemma_regions_of_nested(buffer_len, field.tag, inner, position, context, rest);
        },
        FieldValue::Repeated(elements) => {
            lemma_regions_of_elements(buffer_len, field.tag, elements@, position, context, rest);
        },
        _ => {
            assert(entries + rest =~= rest);
            lemma_regions_fit_earlier(
                buffer_len,
                rest,
                position,
                position + field_wire(field).len(),
            );
        },
    }
}

proof fn lemma_regions_of_nested(
    buffer_len: int,
    tag: u8,
    inner: ProtobufMessageWithBlockPointers,
    position: int,
    context: RealContext,
    rest: Seq<LengthEntry>,
)
    requires
        0 <= position,
        position + delimited(tag, inner.wire()).len() <= buffer_len <= usize::MAX,
        delimited(tag, real_wire(inner, context)).len() <= usize::MAX,
        regions_fit(buffer_len, rest, position + delimited(tag, inner.wire()).len()),
    ensures
        regions_fit(buffer_len, entries_in_nested(inner, position, context) + rest, position),
    decreases inner, 1int,
{
    let inside = position + 1 + varint_len(inner.wire().len());
    let below = entries_in_message(inner, inside, context);
    let entries = entries_in_nested(inner, position, context);
    lemma_delimited_len(tag, inner.wire());
    lemma_delimited_len(tag, real_wire(inner, context));
    lemma_varint_len_bounds(inner.wire().len());
    if below.len() == 0 {
        assert(entries + rest =~= rest);
        lemma_regions_fit_earlier(
            buffer_len,
            rest,
            position,
            position + delimited(tag, inner.wire()).len(),
        );
    } else {
        lemma_regions_of_message(buffer_len, inner, inside, context, rest);
        assert((entries + rest)[0] == entries[0]);
        assert((entries + rest).drop_first() =~= below + rest);
        assert(resume_at(entries[0]) == inside);
    }
}

proof fn lemma_regions_of_elements(
    buffer_len: int,
    tag: u8,
    elements: Seq<ProtobufMessageWithBlockPointers>,
    position: int,
    context: RealContext,
    rest: Seq<LengthEntry>,
)
    requires
        0 <= position,
        position + elements_wire(tag, elements).len() <= buffer_len <= usize::MAX,
        real_elements_wire(tag, elements, context).len() <= usize::MAX,
        regions_fit(buffer_len, rest, position + elements_wire(tag, elements).len()),
    ensures
        regions_fit(
            buffer_len,
            entries_in_elements(tag, elements, position, context) + rest,
            position,
        ),
    decreases elements, 0int,
{
    if elements.len() == 0 {
        assert(entries_in_elements(tag, elements, position, context) + rest =~= rest);
    } else {
        let front = elements.drop_last();
        let middle = position + elements_wire(tag, front).len();
        let last_entries = entries_in_nested(elements.last(), middle, context);
        lemma_regions_of_nested(buffer_len, tag, elements.last(), middle, context, rest);
        lemma_regions_of_elements(buffer_len, tag, front, position, context, last_entries + rest);
        assert(entries_in_elements(tag, front, position, context) + (last_entries + rest)
            =~= entries_in_elements(tag, elements, position, context) + rest);
    }
}

/// The regions of the lengths that belong to a message fit its buffer.
pub proof fn lemma_regions_fit_the_message(
    message: ProtobufMessageWithBlockPointers,
    context: RealContext,
)
    requires
        message.wire().len() <= usize::MAX,
        real_wire(message, context).len() <= usize::MAX,
    ensures
        regions_fit(
            message.wire().len() as int,
            entries_in_message(message, 0, context),
            0,
        ),
{
    let entries = entries_in_message(message, 0, context);
    lemma_regions_of_message(message.wire().len() as int, message, 0, context, Seq::empty());
    assert(entries + Seq::<LengthEntry>::empty() =~= entries);
}

/// One more reference at the end of a level does not make the tally fail.
proof fn lemma_tally_ok_leaf(
    entries: Seq<PointerEntry>,
    buffer: Seq<u8>,
    store: Seq<BlockRecord>,
    context: RealContext,
    field: Field,
    position: int,
    before: Seq<LengthEntry>,
    wire_len: nat,
    real_len: nat,
)
    requires
        entries.len() > 0,
        field.value is Bytes,
        reference_id(field.value->Bytes_0@, context) is Some,
        entries.last().offset == position + 1,
        crate::tree::node_view(entries.last().node) == NodeView::Leaf(
            reference_id(field.value->Bytes_0@, context).unwrap(),
        ),
        embedded(buffer, position, field_wire(field)),
        buffer.len() <= usize::MAX,
        store_holds(store, context),
        entries_tally(entries.drop_last(), buffer, store) is Ok,
        reconciled(
            entries_tally(entries.drop_last(), buffer, store).unwrap(),
            before,
            wire_len,
            real_len,
        ),
        wire_len + field_wire(field).len() <= usize::MAX,
        real_len + real_field_wire(field, context).len() <= usize::MAX,
    ensures
        entries_tally(entries, buffer, store) is Ok,
{
    let bytes = field.value->Bytes_0@;
    let id = reference_id(bytes, context).unwrap();
    lemma_length_prefix(buffer, position, field.tag, bytes);
    lemma_delimited_len(field.tag, bytes);
    lemma_delimited_len(field.tag, context.content[id]);
    assert(block_length(store, id) is Ok);
    assert(entry_lengths(entries.last(), buffer, store) is Ok);
}

/// One more nested message at the end of a level does not make the tally fail.
proof fn lemma_tally_ok_nested(
    entries: Seq<PointerEntry>,
    buffer: Seq<u8>,
    store: Seq<BlockRecord>,
    context: RealContext,
    tag: u8,
    inner: ProtobufMessageWithBlockPointers,
    position: int,
    before: Seq<LengthEntry>,
    wire_len: nat,
    real_len: nat,
)
    requires
        entries.len() > 0,
        entries.last().offset == position + 1,
        entries.last().node is Internal,
        embedded(buffer, position, delimited(tag, inner.wire())),
        buffer.len() <= usize::MAX,
        entries_tally(entries.drop_last(), buffer, store) is Ok,
        reconciled(
            entries_tally(entries.drop_last(), buffer, store).unwrap(),
            before,
            wire_len,
            real_len,
        ),
        entries_tally(entries.last().node->Internal_0.entries@, buffer, store) is Ok,
        reconciled(
            entries_tally(entries.last().node->Internal_0.entries@, buffer, store).unwrap(),
            entries_in_message(inner, position + 1 + varint_len(inner.wire().len()), context),
            inner.wire().len(),
            real_wire(inner, context).len(),
        ),
        wire_len + delimited(tag, inner.wire()).len() <= usize::MAX,
        real_len + delimited(tag, real_wire(inner, context)).len() <= usize::MAX,
    ensures
        entries_tally(entries, buffer, store) is Ok,
{
    let subtree = entries.last().node->Internal_0.entries@;
    lemma_length_prefix(buffer, position, tag, inner.wire());
    lemma_delimited_len(tag, inner.wire());
    lemma_delimited_len(tag, real_wire(inner, context));
    assert(level_lengths(subtree, inner.wire().len() as usize, buffer, store) is Ok);
    assert(entry_lengths(entries.last(), buffer, store) is Ok);
}

/// Along the level of the tree that belongs to `fields`, the tally does
/// not fail.
proof fn lemma_tally_ok_fields(
    entries: Seq<PointerEntry>,
    fields: Seq<Field>,
    start: int,
    buffer: Seq<u8>,
    store: Seq<BlockRecord>,
    context: RealContext,
)
    requires
        entries_well_formed(entries),
        entries_view(entries) == tree_of_fields(fields, start, context),
        embedded(buffer, start, fields_wire(fields)),
        buffer.len() <= usize::MAX,
        store_agrees(store, context),
        store_holds(store, context),
        real_fields_wire(fields, context).len() <= usize::MAX,
    ensures
        entries_tally(entries, buffer, store) is Ok,
    decreases fields, 1int, 0int,
{
    if fields.len() == 0 {
        if entries.len() > 0 {
            assert(entries_view(entries).contains_key(entries.last().offset));
        }
    } else {
        let front = fields.drop_last();
        let last = fields.last();
        let middle = start + fields_wire(front).len();
        let base = tree_of_fields(front, start, context);
        lemma_embedded_split(buffer, start, fields_wire(front), field_wire(last));
        lemma_keys_of_fields(front, start, context);
        match last.value {
            FieldValue::Bytes(bytes) => match reference_id(bytes@, context) {
                Some(id) => {
                    let offset = (middle + 1) as usize;
                    lemma_delimited_len(last.tag, bytes@);
                    assert(tree_of_field(last, middle, context) == Map::<
                        usize,
                        NodeView,
                    >::empty().insert(offset, NodeView::Leaf(id)));
                    assert(base.union_prefer_right(tree_of_field(last, middle, context))
                        =~= base.insert(offset, NodeView::Leaf(id)));
                    lemma_last_entry(entries, base, offset, NodeView::Leaf(id));
                    lemma_tally_ok_fields(
                        entries.drop_last(),
                        front,
                        start,
                        buffer,
                        store,
                        context,
                    );
                    lemma_tally_fields(entries.drop_last(), front, start, buffer, store, context);
                    lemma_tally_ok_leaf(
                        entries,
                        buffer,
                        store,
                        context,
                        last,
                        middle,
                        entries_in_fields(front, start, context),
                        fields_wire(front).len(),
                        real_fields_wire(front, context).len(),
                    );
                },
                None => {
                    assert(tree_of_field(last, middle, context) == Map::<usize, NodeView>::empty());
                    assert(base.union_prefer_right(tree_of_field(last, middle, context))
                        =~= base);
                    lemma_tally_ok_fields(entries, front, start, buffer, store, context);
                },
            },
            FieldValue::Message(inner) => {
                assert(tree_of_field(last, middle, context) == tree_of_nested(
                    inner,
                    middle,
                    context,
                ));
                assert(field_wire(last) == delimited(last.tag, inner.wire()));
                assert(real_field_wire(last, context) == delimited(
                    last.tag,
                    real_wire(inner, context),
                ));
                lemma_delimited_len(last.tag, real_wire(inner, context));
                lemma_tally_with_nested(
                    entries,
                    base,
                    last.tag,
                    inner,
                    middle,
                    buffer,
                    store,
                    context,
                );
                let inside = middle + 1 + varint_len(inner.wire().len());
                if entries_in_message(inner, inside, context).len() == 0 {
                    lemma_tally_ok_fields(entries, front, start, buffer, store, context);
                } else {
                    let below = entries.last().node->Internal_0.entries@;
                    lemma_tally_ok_fields(
                        entries.drop_last(),
                        front,
                        start,
                        buffer,
                        store,
                        context,
                    );
                    lemma_tally_fields(entries.drop_last(), front, start, buffer, store, context);
                    lemma_tally_ok_fields(below, inner.fields@, inside, buffer, store, context);
                    lemma_tally_fields(below, inner.fields@, inside, buffer, store, context);
                    lemma_tally_ok_nested(
                        entries,
                        buffer,
                        store,
                        context,
                        last.tag,
                        inner,
                        middle,
                        entries_in_fields(front, start, context),
                        fields_wire(front).len(),
                        real_fields_wire(front, context).len(),
                    );
                }
            },
            FieldValue::Repeated(elements) => {
                assert(elements@.take(elements@.len() as int) =~= elements@);
                assert(tree_of_field(last, middle, context) == tree_of_elements(
                    last.tag,
                    elements@,
                    middle,
                    context,
                ));
                assert(field_wire(last) == elements_wire(last.tag, elements@));
                assert(real_field_wire(last, context) == real_elements_wire(
                    last.tag,
                    elements@,
                    context,
                ));
                lemma_tally_ok_elements(
                    entries,
                    fields,
                    elements@.len() as int,
                    start,
                    buffer,
                    store,
                    context,
                );
            },
            _ => {
                assert(tree_of_field(last, middle, context) == Map::<usize, NodeView>::empty());
                assert(base.union_prefer_right(tree_of_field(last, middle, context)) =~= base);
                lemma_tally_ok_fields(entries, front, start, buffer, store, context);
            },
        }
    }
}

/// Along a level that ends with the first `n` elements of a repeated field,
/// the tally does not fail.
proof fn lemma_tally_ok_elements(
    entries: Seq<PointerEntry>,
    fields: Seq<Field>,
    n: int,
    start: int,
    buffer: Seq<u8>,
    store: Seq<BlockRecord>,
    context: RealContext,
)
    requires
        fields.len() > 0,
        fields.last().value is Repeated,
        0 <= n <= fields.last().value->Repeated_0@.len(),
        entries_well_formed(entries),
        entries_view(entries) == tree_of_fields(
            fields.drop_last(),
            start,
            context,
        ).union_prefer_right(
            tree_of_elements(
                fields.last().tag,
                fields.last().value->Repeated_0@.take(n),
                start + fields_wire(fields.drop_last()).len(),
                context,
            ),
        ),
        embedded(buffer, start, fields_wire(fields.drop_last())),
        embedded(
            buffer,
            start + fields_wire(fields.drop_last()).len(),
            elements_wire(fields.last().tag, fields.last().value->Repeated_0@.take(n)),
        ),
        buffer.len() <= usize::MAX,
        store_agrees(store, context),
        store_holds(store, context),
        real_fields_wire(fields.drop_last(), context).len() + real_elements_wire(
            fields.last().tag,
            fields.last().value->Repeated_0@.take(n),
            context,
        ).len() <= usize::MAX,
    ensures
        entries_tally(entries, buffer, store) is Ok,
    decreases fields, 0int, n,
{
    let front = fields.drop_last();
    let tag = fields.last().tag;
    let all = fields.last().value->Repeated_0@;
    let elements = all.take(n);
    let middle = start + fields_wire(front).len();
    if n == 0 {
        assert(tree_of_fields(front, start, context).union_prefer_right(
            tree_of_elements(tag, elements, middle, context),
        ) =~= tree_of_fields(front, start, context));
        lemma_tally_ok_fields(entries, front, start, buffer, store, context);
    } else {
        let earlier = all.take(n - 1);
        let last = all[n - 1];
        assert(elements.drop_last() =~= earlier);
        assert(elements.last() == last);
        let position = middle + elements_wire(tag, earlier).len();
        let inside = position + 1 + varint_len(last.wire().len());
        let base = tree_of_fields(front, start, context).union_prefer_right(
            tree_of_elements(tag, earlier, middle, context),
        );
        lemma_embedded_split(buffer, middle, elements_wire(tag, earlier), delimited(tag, last.wire()));
        lemma_keys_of_fields(front, start, context);
        lemma_keys_of_elements(tag, earlier, middle, context);
        lemma_delimited_len(tag, real_wire(last, context));
        assert(entries_view(entries) =~= base.union_prefer_right(
            tree_of_nested(last, position, context),
        ));
        lemma_tally_with_nested(entries, base, tag, last, position, buffer, store, context);
        assert(decreases_to!(fields => fields.last()));
        assert(decreases_to!(fields.last().value => fields.last().value->Repeated_0));
        assert(decreases_to!(fields.last().value->Repeated_0 => fields.last().value->Repeated_0[n - 1]));
        if entries_in_message(last, inside, context).len() == 0 {
            lemma_tally_ok_elements(entries, fields, n - 1, start, buffer, store, context);
        } else {
            let below = entries.last().node->Internal_0.entries@;
            lemma_tally_ok_elements(
                entries.drop_last(),
                fields,
                n - 1,
                start,
                buffer,
                store,
                context,
            );
            lemma_tally_elements(entries.drop_last(), fields, n - 1, start, buffer, store, context);
            lemma_tally_ok_fields(below, last.fields@, inside, buffer, store, context);
            lemma_tally_fields(below, last.fields@, inside, buffer, store, context);
            lemma_tally_ok_nested(
                entries,
                buffer,
                store,
                context,
                tag,
                last,
                position,
                entries_in_fields(front, start, context) + entries_in_elements(
                    tag,
                    earlier,
                    middle,
                    context,
                ),
                fields_wire(front).len() + elements_wire(tag, earlier).len(),
                real_fields_wire(front, context).len() + real_elements_wire(
                    tag,
                    earlier,
                    context,
                ).len(),
            );
        }
    }
}

/// The walk over a message does not fail.
proof fn lemma_walk_ok_message(
    message: ProtobufMessageWithBlockPointers,
    prefix: Seq<usize>,
    start: int,
    before: RealWalk,
    walk: WalkContext,
    context: RealContext,
)
    requires
        contexts_agree(walk, context),
        store_holds(walk.store, context),
        0 <= start,
        start + message.wire().len() <= usize::MAX,
        before.real_position + real_wire(message, context).len() <= usize::MAX,
        table_matches(
            walk.lengths,
            entries_in_message(message, start, context),
            start,
            start + message.wire().len(),
        ),
    ensures
        real_in_message(message, prefix, start, before, walk) is Ok,
    decreases message, 0int,
{
    reveal(real_in_fields);
    lemma_walk_ok_fields(message.fields@, prefix, start, before, walk, context);
}

proof fn lemma_walk_ok_fields(
    fields: Seq<Field>,
    prefix: Seq<usize>,
    start: int,
    before: RealWalk,
    walk: WalkContext,
    context: RealContext,
)
    requires
        contexts_agree(walk, context),
        store_holds(walk.store, context),
        0 <= start,
        start + fields_wire(fields).len() <= usize::MAX,
        before.real_position + real_fields_wire(fields, context).len() <= usize::MAX,
        table_matches(
            walk.lengths,
            entries_in_fields(fields, start, context),
            start,
            start + fields_wire(fields).len(),
        ),
    ensures
        real_in_fields(fields, prefix, start, before, walk) is Ok,
        walked(
            real_in_fields(fields, prefix, start, before, walk),
            before,
            real_found_in_fields(fields, prefix, before.real_position as int, context),
            real_fields_wire(fields, context).len(),
        ),
    decreases fields, 0int,
{
    reveal(real_in_fields);
    reveal(real_in_field);
    if fields.len() == 0 {
        assert(before.found + Seq::<(Seq<char>, Seq<usize>)>::empty() =~= before.found);
    } else {
        let front = fields.drop_last();
        let last = fields.last();
        let middle = start + fields_wire(front).len();
        crate::correctness::lemma_ordered_fields(front, start, context);
        crate::correctness::lemma_ordered_field(last, middle, context);
        lemma_table_matches_parts(
            walk.lengths,
            entries_in_fields(front, start, context),
            entries_in_field(last, middle, context),
            start,
            middle,
            start + fields_wire(fields).len(),
        );
        lemma_walk_ok_fields(front, prefix, start, before, walk, context);
        let earlier = real_in_fields(front, prefix, start, before, walk).unwrap();
        lemma_walk_ok_field(last, prefix, middle, earlier, walk, context);
        let found_front = real_found_in_fields(front, prefix, before.real_position as int, context);
        let found_last = real_found_in_field(last, prefix, earlier.real_position as int, context);
        assert((before.found + found_front) + found_last =~= before.found + (found_front
            + found_last));
    }
}

proof fn lemma_walk_ok_field(
    field: Field,
    prefix: Seq<usize>,
    position: int,
    before: RealWalk,
    walk: WalkContext,
    context: RealContext,
)
    requires
        contexts_agree(walk, context),
        store_holds(walk.store, context),
        0 <= position,
        position + field_wire(field).len() <= usize::MAX,
        before.real_position + real_field_wire(field, context).len() <= usize::MAX,
        table_matches(
            walk.lengths,
            entries_in_field(field, position, context),
            position,
            position + field_wire(field).len(),
        ),
    ensures
        real_in_field(field, prefix, position, before, walk) is Ok,
        walked(
            real_in_field(field, prefix, position, before, walk),
            before,
            real_found_in_field(field, prefix, before.real_position as int, context),
            real_field_wire(field, context).len(),
        ),
    decreases field, 0int,
{
    reveal(real_in_field);
    reveal(real_in_nested);
    assert(before.found + Seq::<(Seq<char>, Seq<usize>)>::empty() =~= before.found);
    match field.value {
        FieldValue::Bytes(bytes) => match reference_id(bytes@, context) {
            Some(id) => {
                lemma_delimited_len(field.tag, context.content[id]);
            },
            None => {},
        },
        FieldValue::Message(inner) => {
            lemma_walk_ok_nested(field.tag, inner, prefix, position, before, walk, context);
        },
        FieldValue::Repeated(elements) => {
            lemma_walk_ok_elements(field.tag, elements@, prefix, position, before, walk, context);
        },
        _ => {},
    }
}

proof fn lemma_walk_ok_nested(
    tag: u8,
    inner: ProtobufMessageWithBlockPointers,
    prefix: Seq<usize>,
    position: int,
    before: RealWalk,
    walk: WalkContext,
    context: RealContext,
)
    requires
        contexts_agree(walk, context),
        store_holds(walk.store, context),
        0 <= position,
        position + delimited(tag, inner.wire()).len() <= usize::MAX,
        before.real_position + delimited(tag, real_wire(inner, context)).len() <= usize::MAX,
        table_matches(
            walk.lengths,
            entries_in_nested(inner, position, context),
            position,
            position + delimited(tag, inner.wire()).len(),
        ),
    ensures
        real_in_nested(inner, prefix, position, before, walk) is Ok,
        walked(
            real_in_nested(inner, prefix, position, before, walk),
            before,
            real_found_in_nested(inner, prefix, before.real_position as int, context),
            delimited(tag, real_wire(inner, context)).len(),
        ),
    decreases inner, 1int,
{
    reveal(real_in_nested);
    reveal(real_in_fields);
    let key = (position + 1) as usize;
    let inside = position + 1 + varint_len(inner.wire().len());
    let end = position + delimited(tag, inner.wire()).len();
    let below = entries_in_message(inner, inside, context);
    let entries = entries_in_nested(inner, position, context);
    let grown = real_wire(inner, context);
    lemma_delimited_len(tag, inner.wire());
    lemma_delimited_len(0, inner.wire());
    lemma_delimited_len(tag, grown);
    lemma_varint_len_bounds(inner.wire().len());
    crate::real_paths::lemma_walk_nested(tag, inner, prefix, position, before, walk, context);
    if below.len() == 0 {
        assert(!lengths_view(entries).contains_key(key));
        lemma_plain_message(inner, inside, context);
    } else {
        let parent = entries[0];
        crate::correctness::lemma_ordered_nested(tag, inner, position, context);
        lemma_ordered_message(inner, inside, context);
        assert(entries =~= seq![parent] + below);
        assert(crate::correctness::ordered_inside(seq![parent], position, inside));
        lemma_table_matches_parts(walk.lengths, seq![parent], below, position, inside, end);
        crate::lengths::lemma_lengths_at(entries, 0);
        assert(walk.lengths.contains_key(key));
        assert(walk.lengths[key] == parent.info);
        let size = walk.lengths[key].real_length;
        assert(size == grown.len());
        lemma_walk_ok_message(
            inner,
            prefix.push((before.real_position + 1) as usize),
            inside,
            RealWalk {
                found: before.found,
                real_position: before.real_position + 1 + varint_len(size as nat),
            },
            walk,
            context,
        );
    }
}

proof fn lemma_walk_ok_elements(
    tag: u8,
    elements: Seq<ProtobufMessageWithBlockPointers>,
    prefix: Seq<usize>,
    position: int,
    before: RealWalk,
    walk: WalkContext,
    context: RealContext,
)
    requires
        contexts_agree(walk, context),
        store_holds(walk.store, context),
        0 <= position,
        position + elements_wire(tag, elements).len() <= usize::MAX,
        before.real_position + real_elements_wire(tag, elements, context).len() <= usize::MAX,
        table_matches(
            walk.lengths,
            entries_in_elements(tag, elements, position, context),
            position,
            position + elements_wire(tag, elements).len(),
        ),
    ensures
        real_in_elements(tag, elements, prefix, position, before, walk) is Ok,
        walked(
            real_in_elements(tag, elements, prefix, position, before, walk),
            before,
            real_found_in_elements(tag, elements, prefix, before.real_position as int, context),
            real_elements_wire(tag, elements, context).len(),
        ),
    decreases elements, 0int,
{
    reveal(real_in_nested);
    if elements.len() == 0 {
        assert(before.found + Seq::<(Seq<char>, Seq<usize>)>::empty() =~= before.found);
    } else {
        let front = elements.drop_last();
        let last = elements.last();
        let middle = position + elements_wire(tag, front).len();
        crate::correctness::lemma_ordered_elements(tag, front, position, context);
        crate::correctness::lemma_ordered_nested(tag, last, middle, context);
        lemma_table_matches_parts(
            walk.lengths,
            entries_in_elements(tag, front, position, context),
            entries_in_nested(last, middle, context),
            position,
            middle,
            position + elements_wire(tag, elements).len(),
        );
        lemma_walk_ok_elements(tag, front, prefix, position, before, walk, context);
        let earlier = real_in_elements(tag, front, prefix, position, before, walk).unwrap();
        lemma_walk_ok_nested(tag, last, prefix, middle, earlier, walk, context);
        let found_front = real_found_in_elements(
            tag,
            front,
            prefix,
            before.real_position as int,
            context,
        );
        let found_last = real_found_in_nested(last, prefix, earlier.real_position as int, context);
        assert((before.found + found_front) + found_last =~= before.found + (found_front
            + found_last));
    }
}

/// Whether the store tells the length of every block of `found`.
pub open spec fn lengths_told(store: Seq<BlockRecord>, found: Seq<(Seq<char>, Seq<usize>)>) -> bool {
    forall|i: int| 0 <= i < found.len() ==> block_length(store, (#[trigger] found[i]).0) is Ok
}

/// The store tells the length of every block that a message refers to.
proof fn lemma_told_message(
    message: ProtobufMessageWithBlockPointers,
    prefix: Seq<usize>,
    real_start: int,
    store: Seq<BlockRecord>,
    context: RealContext,
)
    requires
        store_holds(store, context),
    ensures
        lengths_told(store, real_found_in_message(message, prefix, real_start, context)),
    decreases message, 0int,
{
    lemma_told_fields(message.fields@, prefix, real_start, store, context);
}

proof fn lemma_told_fields(
    fields: Seq<Field>,
    prefix: Seq<usize>,
    real_start: int,
    store: Seq<BlockRecord>,
    context: RealContext,
)
    requires
        store_holds(store, context),
    ensures
        lengths_told(store, real_found_in_fields(fields, prefix, real_start, context)),
    decreases fields, 0int,
{
    if fields.len() > 0 {
        let front = real_found_in_fields(fields.drop_last(), prefix, real_start, context);
        let back = real_found_in_field(
            fields.last(),
            prefix,
            real_start + real_fields_wire(fields.drop_last(), context).len(),
            context,
        );
        lemma_told_fields(fields.drop_last(), prefix, real_start, store, context);
        lemma_told_field(
            fields.last(),
            prefix,
            real_start + real_fields_wire(fields.drop_last(), context).len(),
            store,
            context,
        );
        lemma_told_joined(store, front, back);
    }
}

proof fn lemma_told_joined(
    store: Seq<BlockRecord>,
    first: Seq<(Seq<char>, Seq<usize>)>,
    second: Seq<(Seq<char>, Seq<usize>)>,
)
    requires
        lengths_told(store, first),
        lengths_told(store, second),
    ensures
        lengths_told(store, first + second),
{
    let joined = first + second;
    assert forall|i: int| 0 <= i < joined.len() implies block_length(
        store,
        (#[trigger] joined[i]).0,
    ) is Ok by {
        if i < first.len() {
            assert(joined[i] == first[i]);
        } else {
            assert(joined[i] == second[i - first.len()]);
        }
    }
}

proof fn lemma_told_field(
    field: Field,
    prefix: Seq<usize>,
    real_position: int,
    store: Seq<BlockRecord>,
    context: RealContext,
)
    requires
        store_holds(store, context),
    ensures
        lengths_told(store, real_found_in_field(field, prefix, real_position, context)),
    decreases field, 0int,
{
    match field.value {
        FieldValue::Bytes(bytes) => {
            assert(reference_id(bytes@, context) is Some ==> block_length(
                store,
                reference_id(bytes@, context).unwrap(),
            ) is Ok);
        },
        FieldValue::Message(inner) => {
            lemma_told_nested(inner, prefix, real_position, store, context);
        },
        FieldValue::Repeated(elements) => {
            lemma_told_elements(field.tag, elements@, prefix, real_position, store, context);
        },
        _ => {},
    }
}

proof fn lemma_told_nested(
    inner: ProtobufMessageWithBlockPointers,
    prefix: Seq<usize>,
    real_position: int,
    store: Seq<BlockRecord>,
    context: RealContext,
)
    requires
        store_holds(store, context),
    ensures
        lengths_told(store, real_found_in_nested(inner, prefix, real_position, context)),
    decreases inner, 1int,
{
    lemma_told_message(
        inner,
        prefix.push((real_position + 1) as usize),
        real_position + 1 + varint_len(real_wire(inner, context).len()),
        store,
        context,
    );
}

proof fn lemma_told_elements(
    tag: u8,
    elements: Seq<ProtobufMessageWithBlockPointers>,
    prefix: Seq<usize>,
    real_position: int,
    store: Seq<BlockRecord>,
    context: RealContext,
)
    requires
        store_holds(store, context),
    ensures
        lengths_told(store, real_found_in_elements(tag, elements, prefix, real_position, context)),
    decreases elements, 0int,
{
    if elements.len() > 0 {
        let here = real_position + real_elements_wire(tag, elements.drop_last(), context).len();
        lemma_told_elements(tag, elements.drop_last(), prefix, real_position, store, context);
        lemma_told_nested(elements.last(), prefix, here, store, context);
        lemma_told_joined(
            store,
            real_found_in_elements(tag, elements.drop_last(), prefix, real_position, context),
            real_found_in_nested(elements.last(), prefix, here, context),
        );
    }
}

/// An index of blocks whose lengths the store tells does not fail.
proof fn lemma_index_ok(
    segment_count: int,
    found: Seq<(Seq<char>, Seq<usize>)>,
    store: Seq<BlockRecord>,
    i: int,
)
    requires
        lengths_told(store, found),
    ensures
        index_from(segment_count, found, store, i) is Ok,
    decreases
        (if segment_count > found.len() {
            segment_count
        } else {
            found.len() as int
        }) - i,
{
    if i < 0 || (i >= segment_count && i >= found.len()) {
    } else {
        lemma_index_ok(segment_count, found, store, i + 1);
    }
}

/// The build succeeds whenever it can: with the tree of the references of
/// `message` and the lengths reconciled along it, a store that holds every
/// known block as a flat file of the block's length, and a real object
/// whose length fits a machine word, no step fails.
pub proof fn lemma_build_succeeds(
    message: ProtobufMessageWithBlockPointers,
    context: RealContext,
    store: Seq<BlockRecord>,
    tree: PointerTree,
    lengths: RealLengths,
)
    requires
        plan_parts(message, context.blocks, context.hash_type, store, tree, lengths),
        store_agrees(store, context),
        store_holds(store, context),
        message.wire().len() <= usize::MAX,
        real_wire(message, context).len() <= usize::MAX,
    ensures
        plan_spec(message, context.blocks, context.hash_type, store, tree, lengths) is Ok,
{
    let buffer = message.wire();
    let expected = entries_in_message(message, 0, context);
    let walk = WalkContext {
        blocks: context.blocks,
        hash_type: context.hash_type,
        store,
        lengths: lengths@,
    };
    let origin = RealWalk { found: Seq::empty(), real_position: 0 };
    lemma_tree_of_found(message, context);
    assert(buffer.subrange(0, buffer.len() as int) =~= buffer);
    lemma_tally_ok_fields(tree.entries@, message.fields@, 0, buffer, store, context);
    lemma_tally_fields(tree.entries@, message.fields@, 0, buffer, store, context);
    assert(level_lengths(tree.entries@, buffer.len() as usize, buffer, store) is Ok);
    assert(real_lengths_spec(tree, buffer, store) is Ok);
    assert(lengths@ == lengths_view(expected));
    lemma_ordered_message(message, 0, context);
    lemma_ascending_entries_are_unique(lengths.entries@, expected);
    lemma_regions_fit_the_message(message, context);
    lemma_walk_ok_message(message, Seq::empty(), 0, origin, walk, context);
    lemma_walk_message(message, Seq::empty(), 0, origin, walk, context);
    let found = real_found_in_message(message, Seq::empty(), 0, context);
    assert(Seq::<(Seq<char>, Seq<usize>)>::empty() + found =~= found);
    lemma_told_message(message, Seq::empty(), 0, store, context);
    lemma_index_ok(segments(buffer, lengths.entries@).len() as int, found, store, 0);
}

/// A build fails only where it must: where it fails, the store does not
/// hold every known block as a flat file of the block's length, or the
/// real object is too long for its length to fit a machine word.
pub proof fn lemma_failure_has_a_cause(
    message: ProtobufMessageWithBlockPointers,
    blocks: Seq<Vec<u8>>,
    hash_type: u64,
    store: Seq<BlockRecord>,
    tree: PointerTree,
    lengths: RealLengths,
)
    requires
        plan_parts(message, blocks, hash_type, store, tree, lengths),
        plan_spec(message, blocks, hash_type, store, tree, lengths) is Err,
        message.wire().len() <= usize::MAX,
    ensures
        forall|content: Map<Seq<char>, Seq<u8>>|
            !(#[trigger] store_holds(store, RealContext { blocks, hash_type, content })
                && store_agrees(store, RealContext { blocks, hash_type, content }) && real_wire(
                message,
                RealContext { blocks, hash_type, content },
            ).len() <= usize::MAX),
{
    assert forall|content: Map<Seq<char>, Seq<u8>>|
        !(#[trigger] store_holds(store, RealContext { blocks, hash_type, content })
            && store_agrees(store, RealContext { blocks, hash_type, content }) && real_wire(
            message,
            RealContext { blocks, hash_type, content },
        ).len() <= usize::MAX) by {
        let context = RealContext { blocks, hash_type, content };
        if store_holds(store, context) && store_agrees(store, context) && real_wire(
            message,
            context,
        ).len() <= usize::MAX {
            lemma_build_succeeds(message, context, store, tree, lengths);
        }
    }
}

} // verus!
