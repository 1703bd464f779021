//! The build is correct: the segments of a plan, with the blocks between
//! them, are the message written with every block in place of its reference.

use vstd::prelude::*;
use crate::assemble::{index_from, plan_parts, plan_spec, IndexEntryView};
use crate::locator::found_in_message;
use crate::store::block_length;
use crate::real_locator::WalkContext;
use crate::real_paths::{lemma_real_walk_finds_real_paths, real_found_in_message};
use crate::ident::interleave;
use crate::lengths::{
    entries_tally, lemma_lengths_absent, lemma_lengths_at, lengths_ascend, lengths_view,
    level_lengths, real_lengths_spec, LengthEntry, RealLengths,
};
use crate::message::{
    delimited, elements_wire, field_wire, fields_wire, lemma_delimited_len, Field, FieldValue,
    ProtobufMessageWithBlockPointers,
};
use crate::real_object::{
    contents_in_message, entries_in_elements, entries_in_field, entries_in_fields,
    entries_in_message, entries_in_nested, lemma_segments_give_the_real_object, real_wire,
    RealContext,
};
use crate::reconciled::{lemma_tally_fields, reconciled, store_agrees};
use crate::store::BlockRecord;
use crate::structure::lemma_tree_of_found;
use crate::tree::PointerTree;
use crate::varint::{lemma_varint_len_bounds, varint_len};

verus! {

/// Whether the entries ascend strictly, each past `start` and not past `end`.
pub open spec fn ordered_inside(entries: Seq<LengthEntry>, start: int, end: int) -> bool {
    &&& lengths_ascend(entries)
    &&& forall|i: int| 0 <= i < entries.len() ==> start < (#[trigger] entries[i]).offset <= end
}

/// Entries that ascend inside one stretch, followed by entries that
/// ascend inside the next, ascend.
pub proof fn lemma_ordered_joined(
    first: Seq<LengthEntry>,
    second: Seq<LengthEntry>,
    start: int,
    middle: int,
    end: int,
)
    requires
        ordered_inside(first, start, middle),
        ordered_inside(second, middle, end),
        start <= middle <= end,
    ensures
        ordered_inside(first + second, start, end),
{
    let joined = first + second;
    assert forall|i: int| 0 <= i < joined.len() implies start < (#[trigger] joined[i]).offset
        <= end by {
        if i < first.len() {
            assert(joined[i] == first[i]);
        } else {
            assert(joined[i] == second[i - first.len()]);
        }
    }
    assert forall|i: int, j: int| 0 <= i < j < joined.len() implies joined[i].offset
        < joined[j].offset by {
        if j < first.len() {
            assert(joined[i] == first[i] && joined[j] == first[j]);
        } else if i < first.len() {
            assert(joined[i] == first[i] && joined[j] == second[j - first.len()]);
        } else {
            assert(joined[i] == second[i - first.len()] && joined[j] == second[j - first.len()]);
        }
    }
}

/// The entries that belong to a message ascend inside the bytes that the
/// message is written as.
pub proof fn lemma_ordered_message(
    message: ProtobufMessageWithBlockPointers,
    start: int,
    context: RealContext,
)
    requires
        0 <= start,
        start + message.wire().len() <= usize::MAX,
    ensures
        ordered_inside(
            entries_in_message(message, start, context),
            start,
            start + message.wire().len(),
        ),
    decreases message, 0int,
{
    lemma_ordered_fields(message.fields@, start, context);
}

/// The entries that belong to fields ascend inside the bytes that the
/// fields are written as.
pub proof fn lemma_ordered_fields(fields: Seq<Field>, start: int, context: RealContext)
    requires
        0 <= start,
        start + fields_wire(fields).len() <= usize::MAX,
    ensures
        ordered_inside(
            entries_in_fields(fields, start, context),
            start,
            start + fields_wire(fields).len(),
        ),
    decreases fields, 0int,
{
    if fields.len() > 0 {
        let middle = start + fields_wire(fields.drop_last()).len();
        lemma_ordered_fields(fields.drop_last(), start, context);
        lemma_ordered_field(fields.last(), middle, context);
        lemma_ordered_joined(
            entries_in_fields(fields.drop_last(), start, context),
            entries_in_field(fields.last(), middle, context),
            start,
            middle,
            start + fields_wire(fields).len(),
        );
    }
}

/// The entries that belong to one field ascend inside the bytes that the
/// field is written as.
pub proof fn lemma_ordered_field(field: Field, position: int, context: RealContext)
    requires
        0 <= position,
        position + field_wire(field).len() <= usize::MAX,
    ensures
        ordered_inside(
            entries_in_field(field, position, context),
            position,
            position + field_wire(field).len(),
        ),
    decreases field, 0int,
{
    match field.value {
        FieldValue::Bytes(bytes) => {
            lemma_delimited_len(field.tag, bytes@);
        },
        FieldValue::Message(inner) => {
            lemma_ordered_nested(field.tag, inner, position, context);
        },
        FieldValue::Repeated(elements) => {
            lemma_ordered_elements(field.tag, elements@, position, context);
        },
        _ => {},
    }
}

/// The entries that belong to a nested message ascend inside the bytes that
/// its field is written as.
pub proof fn lemma_ordered_nested(
    tag: u8,
    inner: ProtobufMessageWithBlockPointers,
    position: int,
    context: RealContext,
)
    requires
        0 <= position,
        position + delimited(tag, inner.wire()).len() <= usize::MAX,
    ensures
        ordered_inside(
            entries_in_nested(inner, position, context),
            position,
            position + delimited(tag, inner.wire()).len(),
        ),
    decreases inner, 1int,
{
    let inside = position + 1 + varint_len(inner.wire().len());
    let below = entries_in_message(inner, inside, context);
    lemma_delimited_len(tag, inner.wire());
    lemma_varint_len_bounds(inner.wire().len());
    lemma_ordered_message(inner, inside, context);
    if below.len() > 0 {
        let parent = entries_in_nested(inner, position, context)[0];
        assert(ordered_inside(seq![parent], position, inside));
        assert(ordered_inside(below, inside, position + delimited(tag, inner.wire()).len()));
        lemma_ordered_joined(
            seq![parent],
            below,
            position,
            inside,
            position + delimited(tag, inner.wire()).len(),
        );
    }
}

/// The entries that belong to the elements of a repeated field ascend
/// inside the bytes that the elements are written as.
pub proof fn lemma_ordered_elements(
    tag: u8,
    elements: Seq<ProtobufMessageWithBlockPointers>,
    position: int,
    context: RealContext,
)
    requires
        0 <= position,
        position + elements_wire(tag, elements).len() <= usize::MAX,
    ensures
        ordered_inside(
            entries_in_elements(tag, elements, position, context),
            position,
            position + elements_wire(tag, elements).len(),
        ),
    decreases elements, 0int,
{
    if elements.len() > 0 {
        let middle = position + elements_wire(tag, elements.drop_last()).len();
        lemma_ordered_elements(tag, elements.drop_last(), position, context);
        lemma_ordered_nested(tag, elements.last(), middle, context);
        lemma_ordered_joined(
            entries_in_elements(tag, elements.drop_last(), position, context),
            entries_in_nested(elements.last(), middle, context),
            position,
            middle,
            position + elements_wire(tag, elements).len(),
        );
    }
}

/// Two ascending lists of entries that stand for the same lengths are the
/// same list.
pub proof fn lemma_ascending_entries_are_unique(first: Seq<LengthEntry>, second: Seq<LengthEntry>)
    requires
        lengths_ascend(first),
        lengths_ascend(second),
        lengths_view(first) == lengths_view(second),
    ensures
        first == second,
    decreases first.len(),
{
    if first.len() == 0 {
        if second.len() > 0 {
            lemma_lengths_at(second, second.len() - 1);
            assert(lengths_view(second).contains_key(second.last().offset));
        }
        assert(first =~= second);
    } else {
        let a = first.last();
        lemma_lengths_at(first, first.len() - 1);
        assert(lengths_view(second).contains_key(a.offset));
        if second.len() == 0 {
            assert(false);
        }
        let b = second.last();
        lemma_lengths_at(second, second.len() - 1);
        if !(exists|i: int| 0 <= i < second.len() && second[i].offset == a.offset) {
            lemma_lengths_absent(second, a.offset);
        }
        let i = choose|i: int| 0 <= i < second.len() && second[i].offset == a.offset;
        assert(second[i].offset <= second[second.len() - 1].offset);
        if !(exists|j: int| 0 <= j < first.len() && first[j].offset == b.offset) {
            lemma_lengths_absent(first, b.offset);
        }
        let j = choose|j: int| 0 <= j < first.len() && first[j].offset == b.offset;
        assert(first[j].offset <= first[first.len() - 1].offset);
        assert(a.offset == b.offset);
        assert(a == b);
        let front_a = first.drop_last();
        let front_b = second.drop_last();
        assert forall|k: int| 0 <= k < front_a.len() implies front_a[k].offset != a.offset by {
            assert(front_a[k] == first[k]);
        }
        assert forall|k: int| 0 <= k < front_b.len() implies front_b[k].offset != a.offset by {
            assert(front_b[k] == second[k]);
        }
        lemma_lengths_absent(front_a, a.offset);
        lemma_lengths_absent(front_b, a.offset);
        assert(lengths_view(first) == lengths_view(front_a).insert(a.offset, a.info));
        assert(lengths_view(second) == lengths_view(front_b).insert(b.offset, b.info));
        assert(lengths_view(front_a) =~= lengths_view(front_b)) by {
            assert forall|k: usize|
                lengths_view(front_a).contains_key(k) == lengths_view(front_b).contains_key(
                    k,
                ) by {
                if k != a.offset {
                    assert(lengths_view(first).contains_key(k) == lengths_view(
                        front_a,
                    ).contains_key(k));
                    assert(lengths_view(second).contains_key(k) == lengths_view(
                        front_b,
                    ).contains_key(k));
                }
            }
            assert forall|k: usize| lengths_view(front_a).contains_key(k) implies lengths_view(
                front_a,
            )[k] == lengths_view(front_b)[k] by {
                assert(lengths_view(first)[k] == lengths_view(front_a)[k]);
                assert(lengths_view(second)[k] == lengths_view(front_b)[k]);
            }
        }
        assert(lengths_ascend(front_a)) by {
            assert forall|x: int, y: int| 0 <= x < y < front_a.len() implies front_a[x].offset
                < front_a[y].offset by {
                assert(front_a[x] == first[x] && front_a[y] == first[y]);
            }
        }
        assert(lengths_ascend(front_b)) by {
            assert forall|x: int, y: int| 0 <= x < y < front_b.len() implies front_b[x].offset
                < front_b[y].offset by {
                assert(front_b[x] == second[x] && front_b[y] == second[y]);
            }
        }
        lemma_ascending_entries_are_unique(front_a, front_b);
        assert(first =~= front_a.push(a));
        assert(second =~= front_b.push(b));
    }
}

/// A build that succeeds is correct. Let the tree be that of the
/// references found in `message` and `lengths` the lengths reconciled along
/// it, and let every block be as long as the store says. Then the plan has
/// one segment more than the message has references; its segments, with
/// the blocks between them in the order of the references, are byte for
/// byte the message written with every block in place of its reference;
/// and its index lists the segments and, between them, each block with the
/// path at which it stands in that message.
pub proof fn lemma_plan_gives_the_real_object(
    message: ProtobufMessageWithBlockPointers,
    context: RealContext,
    store: Seq<BlockRecord>,
    tree: PointerTree,
    lengths: RealLengths,
)
    requires
        plan_parts(message, context.blocks, context.hash_type, store, tree, lengths),
        plan_spec(message, context.blocks, context.hash_type, store, tree, lengths) is Ok,
        store_agrees(store, context),
        message.wire().len() <= usize::MAX,
    ensures
        plan_spec(
            message,
            context.blocks,
            context.hash_type,
            store,
            tree,
            lengths,
        ).unwrap().segments.len() == contents_in_message(message, context).len() + 1,
        interleave(
            plan_spec(
                message,
                context.blocks,
                context.hash_type,
                store,
                tree,
                lengths,
            ).unwrap().segments,
            contents_in_message(message, context),
        ) == real_wire(message, context),
        index_from(
            (contents_in_message(message, context).len() + 1) as int,
            real_found_in_message(message, Seq::empty(), 0, context),
            store,
            0,
        ) == Ok::<Seq<IndexEntryView>, crate::error::BuildError>(
            plan_spec(
                message,
                context.blocks,
                context.hash_type,
                store,
                tree,
                lengths,
            ).unwrap().index,
        ),
{
    let buffer = message.wire();
    let expected = entries_in_message(message, 0, context);
    lemma_tree_of_found(message, context);
    assert(buffer.subrange(0, buffer.len() as int) =~= buffer);
    lemma_tally_fields(tree.entries@, message.fields@, 0, buffer, store, context);
    assert(real_lengths_spec(tree, buffer, store) is Ok);
    assert(level_lengths(tree.entries@, buffer.len() as usize, buffer, store) is Ok);
    let tally = entries_tally(tree.entries@, buffer, store).unwrap();
    assert(reconciled(tally, expected, buffer.len(), real_wire(message, context).len()));
    assert(lengths@ == lengths_view(expected));
    lemma_ordered_message(message, 0, context);
    lemma_ascending_entries_are_unique(lengths.entries@, expected);
    lemma_segments_give_the_real_object(message, context);
    lemma_real_walk_finds_real_paths(
        message,
        WalkContext {
            blocks: context.blocks,
            hash_type: context.hash_type,
            store,
            lengths: lengths@,
        },
        context,
    );
}

/// A block of zeros for every name, as long as the store says where the
/// store tells a length.
pub open spec fn blocks_of_zeros(store: Seq<BlockRecord>) -> Map<Seq<char>, Seq<u8>> {
    Map::total(
        |id: Seq<char>|
            Seq::new(
                match block_length(store, id) {
                    Ok(len) => len as nat,
                    Err(_) => 0,
                },
                |i: int| 0u8,
            ),
    )
}

/// An object without references is its own content: where the locator
/// finds no reference in `message`, the tree and the table of lengths are
/// empty, and a build that succeeds gives one segment, the message as it is
/// written, and an index of that segment alone; the identifier is then the
/// digest of the written message.
pub proof fn lemma_object_without_references(
    message: ProtobufMessageWithBlockPointers,
    blocks: Seq<Vec<u8>>,
    hash_type: u64,
    store: Seq<BlockRecord>,
    tree: PointerTree,
    lengths: RealLengths,
)
    requires
        plan_parts(message, blocks, hash_type, store, tree, lengths),
        found_in_message(message, Seq::empty(), 0, blocks, hash_type).len() == 0,
        plan_spec(message, blocks, hash_type, store, tree, lengths) is Ok,
        message.wire().len() <= usize::MAX,
    ensures
        tree@ == Map::<usize, crate::tree::NodeView>::empty(),
        tree.entries@.len() == 0,
        lengths.entries@.len() == 0,
        plan_spec(message, blocks, hash_type, store, tree, lengths).unwrap().segments
            == seq![message.wire()],
        plan_spec(message, blocks, hash_type, store, tree, lengths).unwrap().index
            == seq![IndexEntryView::Segment(1)],
        interleave(
            plan_spec(message, blocks, hash_type, store, tree, lengths).unwrap().segments,
            Seq::empty(),
        ) == message.wire(),
{
    let context = RealContext { blocks, hash_type, content: blocks_of_zeros(store) };
    let buffer = message.wire();
    let plan = plan_spec(message, blocks, hash_type, store, tree, lengths).unwrap();
    assert(store_agrees(store, context));
    crate::structure::lemma_found_nothing(message, context);
    lemma_plan_gives_the_real_object(message, context, store, tree, lengths);
    crate::real_object::lemma_plain_message(message, 0, context);
    let found = found_in_message(message, Seq::empty(), 0, blocks, hash_type);
    assert(found =~= Seq::empty());
    if tree.entries@.len() > 0 {
        assert(tree@.contains_key(tree.entries@.last().offset));
    }
    assert(lengths@ == lengths_view(Seq::<LengthEntry>::empty()));
    lemma_ascending_entries_are_unique(lengths.entries@, Seq::empty());
    assert(buffer.subrange(0, buffer.len() as int) =~= buffer);
    assert(plan.segments =~= seq![buffer]);
    let paths = real_found_in_message(message, Seq::empty(), 0, context);
    crate::real_paths::lemma_nothing_found(message, context);
    assert(index_from(1, paths, store, 1) == Ok::<Seq<IndexEntryView>, crate::error::BuildError>(
        Seq::empty(),
    ));
    assert(plan.index =~= seq![IndexEntryView::Segment(1)]);
    assert(crate::real_object::contents_in_message(message, context) =~= Seq::empty());
}

} // verus!
