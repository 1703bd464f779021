//! The second walk is correct: along the reconciled lengths of a message it
//! finds every reference at the place that the reference's block takes in
//! the real object.

use vstd::prelude::*;
use crate::correctness::{
    lemma_ordered_elements, lemma_ordered_field, lemma_ordered_fields, lemma_ordered_message,
    lemma_ordered_nested, ordered_inside,
};
use crate::error::BuildError;
use crate::lengths::{lemma_lengths_absent, lemma_lengths_at, lengths_view, LengthEntry, LengthInfo};
use crate::message::{
    delimited, elements_wire, field_wire, fields_wire, lemma_delimited_len, Field, FieldValue,
    ProtobufMessageWithBlockPointers,
};
use crate::real_locator::{
    real_in_elements, real_in_field, real_in_fields, real_in_message, real_in_nested, RealWalk,
    WalkContext,
};
use crate::real_object::{
    entries_in_elements, entries_in_field, entries_in_fields, entries_in_message,
    entries_in_nested, lemma_plain_message, real_elements_wire, real_field_wire,
    real_fields_wire, real_wire, reference_id, RealContext,
};
use crate::reconciled::{lemma_lengths_view_joined, store_agrees};

use crate::varint::{lemma_varint_len_bounds, varint_len};

verus! {

/// The references of `message` with their paths in the real object, when
/// the real message is written from `real_start` on and `prefix` leads to it.
pub open spec fn real_found_in_message(
    message: ProtobufMessageWithBlockPointers,
    prefix: Seq<usize>,
    real_start: int,
    context: RealContext,
) -> Seq<(Seq<char>, Seq<usize>)>
    decreases message, 0int,
{
    real_found_in_fields(message.fields@, prefix, real_start, context)
}

/// The references of `fields` with their paths in the real object.
pub open spec fn real_found_in_fields(
    fields: Seq<Field>,
    prefix: Seq<usize>,
    real_start: int,
    context: RealContext,
) -> Seq<(Seq<char>, Seq<usize>)>
    decreases fields, 0int,
{
    if fields.len() == 0 {
        Seq::empty()
    } else {
        real_found_in_fields(fields.drop_last(), prefix, real_start, context)
            + real_found_in_field(
            fields.last(),
            prefix,
            real_start + real_fields_wire(fields.drop_last(), context).len(),
            context,
        )
    }
}

/// The references of one field, written in the real object at
/// `real_position`: the offset of a block's length prefix, one past the tag
/// byte, ends the path of its reference.
pub open spec fn real_found_in_field(
    field: Field,
    prefix: Seq<usize>,
    real_position: int,
    context: RealContext,
) -> Seq<(Seq<char>, Seq<usize>)>
    decreases field, 0int,
{
    match field.value {
        FieldValue::Scalar(_) => Seq::empty(),
        FieldValue::Text(_) => Seq::empty(),
        FieldValue::Bytes(bytes) => match reference_id(bytes@, context) {
            Some(id) => seq![(id, prefix.push((real_position + 1) as usize))],
            None => Seq::empty(),
        },
        FieldValue::Message(inner) => real_found_in_nested(inner, prefix, real_position, context),
        FieldValue::Repeated(elements) => real_found_in_elements(
            field.tag,
            elements@,
            prefix,
            real_position,
            context,
        ),
    }
}

/// The references of a nested message whose tag byte is written in the
/// real object at `real_position`.
pub open spec fn real_found_in_nested(
    inner: ProtobufMessageWithBlockPointers,
    prefix: Seq<usize>,
    real_position: int,
    context: RealContext,
) -> Seq<(Seq<char>, Seq<usize>)>
    decreases inner, 1int,
{
    real_found_in_message(
        inner,
        prefix.push((real_position + 1) as usize),
        real_position + 1 + varint_len(real_wire(inner, context).len()),
        context,
    )
}

/// The references of the elements of a repeated field, the first of which
/// is written in the real object at `real_position`.
pub open spec fn real_found_in_elements(
    tag: u8,
    elements: Seq<ProtobufMessageWithBlockPointers>,
    prefix: Seq<usize>,
    real_position: int,
    context: RealContext,
) -> Seq<(Seq<char>, Seq<usize>)>
    decreases elements, 0int,
{
    if elements.len() == 0 {
        Seq::empty()
    } else {
        real_found_in_elements(tag, elements.drop_last(), prefix, real_position, context)
            + real_found_in_nested(
            elements.last(),
            prefix,
            real_position + real_elements_wire(tag, elements.drop_last(), context).len(),
            context,
        )
    }
}

/// Whether, for the offsets past `start` and not past `end`, `table` holds
/// what `entries` stand for.
pub open spec fn table_matches(
    table: Map<usize, LengthInfo>,
    entries: Seq<LengthEntry>,
    start: int,
    end: int,
) -> bool {
    forall|k: usize|
        start < k <= end ==> (#[trigger] table.contains_key(k)) == lengths_view(
            entries,
        ).contains_key(k) && (table.contains_key(k) ==> table[k] == lengths_view(entries)[k])
}

/// The offsets that entries stand for are those of the entries.
pub proof fn lemma_keys_of_entries(entries: Seq<LengthEntry>, start: int, end: int)
    requires
        ordered_inside(entries, start, end),
    ensures
        forall|k: usize| lengths_view(entries).contains_key(k) ==> start < k <= end,
{
    assert forall|k: usize| lengths_view(entries).contains_key(k) implies start < k <= end by {
        if !(exists|i: int| 0 <= i < entries.len() && entries[i].offset == k) {
            lemma_lengths_absent(entries, k);
        }
        let i = choose|i: int| 0 <= i < entries.len() && entries[i].offset == k;
        assert(start < entries[i].offset <= end);
    }
}

/// A table that holds what two stretches of entries stand for holds what
/// each of them stands for.
pub proof fn lemma_table_matches_parts(
    table: Map<usize, LengthInfo>,
    first: Seq<LengthEntry>,
    second: Seq<LengthEntry>,
    start: int,
    middle: int,
    end: int,
)
    requires
        table_matches(table, first + second, start, end),
        ordered_inside(first, start, middle),
        ordered_inside(second, middle, end),
        start <= middle <= end,
    ensures
        table_matches(table, first, start, middle),
        table_matches(table, second, middle, end),
{
    lemma_lengths_view_joined(first, second);
    lemma_keys_of_entries(first, start, middle);
    lemma_keys_of_entries(second, middle, end);
    assert forall|k: usize| start < k <= middle implies (#[trigger] table.contains_key(k))
        == lengths_view(first).contains_key(k) && (table.contains_key(k) ==> table[k]
        == lengths_view(first)[k]) by {
        assert(!lengths_view(second).contains_key(k));
    }
    assert forall|k: usize| middle < k <= end implies (#[trigger] table.contains_key(k))
        == lengths_view(second).contains_key(k) && (table.contains_key(k) ==> table[k]
        == lengths_view(second)[k]) by {
        assert(!lengths_view(first).contains_key(k));
    }
}

/// A message without entries has no reference to find.
proof fn lemma_nothing_found_message(
    message: ProtobufMessageWithBlockPointers,
    prefix: Seq<usize>,
    start: int,
    real_start: int,
    context: RealContext,
)
    requires
        entries_in_message(message, start, context).len() == 0,
    ensures
        real_found_in_message(message, prefix, real_start, context) == Seq::<
            (Seq<char>, Seq<usize>),
        >::empty(),
    decreases message, 0int,
{
    lemma_nothing_found_fields(message.fields@, prefix, start, real_start, context);
}

proof fn lemma_nothing_found_fields(
    fields: Seq<Field>,
    prefix: Seq<usize>,
    start: int,
    real_start: int,
    context: RealContext,
)
    requires
        entries_in_fields(fields, start, context).len() == 0,
    ensures
        real_found_in_fields(fields, prefix, real_start, context) == Seq::<
            (Seq<char>, Seq<usize>),
        >::empty(),
    decreases fields, 0int,
{
    if fields.len() > 0 {
        lemma_nothing_found_fields(fields.drop_last(), prefix, start, real_start, context);
        lemma_nothing_found_field(
            fields.last(),
            prefix,
            start + fields_wire(fields.drop_last()).len(),
            real_start + real_fields_wire(fields.drop_last(), context).len(),
            context,
        );
        assert(real_found_in_fields(fields, prefix, real_start, context) =~= Seq::empty());
    }
}

proof fn lemma_nothing_found_field(
    field: Field,
    prefix: Seq<usize>,
    position: int,
    real_position: int,
    context: RealContext,
)
    requires
        entries_in_field(field, position, context).len() == 0,
    ensures
        real_found_in_field(field, prefix, real_position, context) == Seq::<
            (Seq<char>, Seq<usize>),
        >::empty(),
    decreases field, 0int,
{
    match field.value {
        FieldValue::Message(inner) => {
            lemma_nothing_found_nested(inner, prefix, position, real_position, context);
        },
        FieldValue::Repeated(elements) => {
            lemma_nothing_found_elements(
                field.tag,
                elements@,
                prefix,
                position,
                real_position,
                context,
            );
        },
        _ => {},
    }
}

proof fn lemma_nothing_found_nested(
    inner: ProtobufMessageWithBlockPointers,
    prefix: Seq<usize>,
    position: int,
    real_position: int,
    context: RealContext,
)
    requires
        entries_in_nested(inner, position, context).len() == 0,
    ensures
        real_found_in_nested(inner, prefix, real_position, context) == Seq::<
            (Seq<char>, Seq<usize>),
        >::empty(),
    decreases inner, 1int,
{
    lemma_nothing_found_message(
        inner,
        prefix.push((real_position + 1) as usize),
        position + 1 + varint_len(inner.wire().len()),
        real_position + 1 + varint_len(real_wire(inner, context).len()),
        context,
    );
}

proof fn lemma_nothing_found_elements(
    tag: u8,
    elements: Seq<ProtobufMessageWithBlockPointers>,
    prefix: Seq<usize>,
    position: int,
    real_position: int,
    context: RealContext,
)
    requires
        entries_in_elements(tag, elements, position, context).len() == 0,
    ensures
        real_found_in_elements(tag, elements, prefix, real_position, context) == Seq::<
            (Seq<char>, Seq<usize>),
        >::empty(),
    decreases elements, 0int,
{
    if elements.len() > 0 {
        lemma_nothing_found_elements(
            tag,
            elements.drop_last(),
            prefix,
            position,
            real_position,
            context,
        );
        lemma_nothing_found_nested(
            elements.last(),
            prefix,
            position + elements_wire(tag, elements.drop_last()).len(),
            real_position + real_elements_wire(tag, elements.drop_last(), context).len(),
            context,
        );
        assert(real_found_in_elements(tag, elements, prefix, real_position, context)
            =~= Seq::empty());
    }
}

/// Whether a walk has found, from `before` on, the references `found` and
/// has passed `real_len` bytes of the real object.
pub open spec fn walked(
    outcome: Result<RealWalk, BuildError>,
    before: RealWalk,
    found: Seq<(Seq<char>, Seq<usize>)>,
    real_len: nat,
) -> bool {
    outcome matches Ok(after) ==> after.found == before.found + found && after.real_position
        == before.real_position + real_len
}

/// Whether two contexts speak of the same blocks, and the store of the
/// first tells the lengths of the blocks of the second.
pub open spec fn contexts_agree(walk: WalkContext, context: RealContext) -> bool {
    &&& walk.blocks == context.blocks
    &&& walk.hash_type == context.hash_type
    &&& store_agrees(walk.store, context)
}

/// The walk over a message finds its references at their real places.
pub proof fn lemma_walk_message(
    message: ProtobufMessageWithBlockPointers,
    prefix: Seq<usize>,
    start: int,
    before: RealWalk,
    walk: WalkContext,
    context: RealContext,
)
    requires
        contexts_agree(walk, context),
        0 <= start,
        start + message.wire().len() <= usize::MAX,
        real_wire(message, context).len() <= usize::MAX,
        table_matches(
            walk.lengths,
            entries_in_message(message, start, context),
            start,
            start + message.wire().len(),
        ),
    ensures
        walked(
            real_in_message(message, prefix, start, before, walk),
            before,
            real_found_in_message(message, prefix, before.real_position as int, context),
            real_wire(message, context).len(),
        ),
    decreases message, 0int,
{
    reveal(real_in_fields);
    lemma_walk_fields(message.fields@, prefix, start, before, walk, context);
}

proof fn lemma_walk_fields(
    fields: Seq<Field>,
    prefix: Seq<usize>,
    start: int,
    before: RealWalk,
    walk: WalkContext,
    context: RealContext,
)
    requires
        contexts_agree(walk, context),
        0 <= start,
        start + fields_wire(fields).len() <= usize::MAX,
        real_fields_wire(fields, context).len() <= usize::MAX,
        table_matches(
            walk.lengths,
            entries_in_fields(fields, start, context),
            start,
            start + fields_wire(fields).len(),
        ),
    ensures
        walked(
            real_in_fields(fields, prefix, start, before, walk),
            before,
            real_found_in_fields(fields, prefix, before.real_position as int, context),
            real_fields_wire(fields, context).len(),
        ),
    decreases fields, 0int,
{
    reveal(real_in_fields);
    reveal(real_in_field);
    if fields.len() == 0 {
        assert(before.found + Seq::<(Seq<char>, Seq<usize>)>::empty() =~= before.found);
    } else {
        let front = fields.drop_last();
        let last = fields.last();
        let middle = start + fields_wire(front).len();
        lemma_ordered_fields(front, start, context);
        lemma_ordered_field(last, middle, context);
        lemma_table_matches_parts(
            walk.lengths,
            entries_in_fields(front, start, context),
            entries_in_field(last, middle, context),
            start,
            middle,
            start + fields_wire(fields).len(),
        );
        lemma_walk_fields(front, prefix, start, before, walk, context);
        match real_in_fields(front, prefix, start, before, walk) {
            Ok(earlier) => {
                lemma_walk_field(last, prefix, middle, earlier, walk, context);
                let found_front = real_found_in_fields(
                    front,
                    prefix,
                    before.real_position as int,
                    context,
                );
                let found_last = real_found_in_field(
                    last,
                    prefix,
                    earlier.real_position as int,
                    context,
                );
                assert((before.found + found_front) + found_last =~= before.found + (found_front
                    + found_last));
            },
            Err(_) => {},
        }
    }
}

proof fn lemma_walk_field(
    field: Field,
    prefix: Seq<usize>,
    position: int,
    before: RealWalk,
    walk: WalkContext,
    context: RealContext,
)
    requires
        contexts_agree(walk, context),
        0 <= position,
        position + field_wire(field).len() <= usize::MAX,
        real_field_wire(field, context).len() <= usize::MAX,
        table_matches(
            walk.lengths,
            entries_in_field(field, position, context),
            position,
            position + field_wire(field).len(),
        ),
    ensures
        walked(
            real_in_field(field, prefix, position, before, walk),
            before,
            real_found_in_field(field, prefix, before.real_position as int, context),
            real_field_wire(field, context).len(),
        ),
    decreases field, 0int,
{
    reveal(real_in_field);
    reveal(real_in_nested);
    assert(before.found + Seq::<(Seq<char>, Seq<usize>)>::empty() =~= before.found);
    match field.value {
        FieldValue::Bytes(bytes) => match reference_id(bytes@, context) {
            Some(id) => {
                lemma_delimited_len(field.tag, context.content[id]);
            },
            None => {},
        },
        FieldValue::Message(inner) => {
            lemma_walk_nested(field.tag, inner, prefix, position, before, walk, context);
        },
        FieldValue::Repeated(elements) => {
            lemma_walk_elements(field.tag, elements@, prefix, position, before, walk, context);
        },
        _ => {},
    }
}

/// The walk over a nested message finds its references at their real places.
pub proof fn lemma_walk_nested(
    tag: u8,
    inner: ProtobufMessageWithBlockPointers,
    prefix: Seq<usize>,
    position: int,
    before: RealWalk,
    walk: WalkContext,
    context: RealContext,
)
    requires
        contexts_agree(walk, context),
        0 <= position,
        position + delimited(tag, inner.wire()).len() <= usize::MAX,
        delimited(tag, real_wire(inner, context)).len() <= usize::MAX,
        table_matches(
            walk.lengths,
            entries_in_nested(inner, position, context),
            position,
            position + delimited(tag, inner.wire()).len(),
        ),
    ensures
        walked(
            real_in_nested(inner, prefix, position, before, walk),
            before,
            real_found_in_nested(inner, prefix, before.real_position as int, context),
            delimited(tag, real_wire(inner, context)).len(),
        ),
    decreases inner, 1int,
{
    reveal(real_in_nested);
    reveal(real_in_fields);
    let key = (position + 1) as usize;
    let inside = position + 1 + varint_len(inner.wire().len());
    let end = position + delimited(tag, inner.wire()).len();
    let below = entries_in_message(inner, inside, context);
    let entries = entries_in_nested(inner, position, context);
    let grown = real_wire(inner, context);
    lemma_delimited_len(tag, inner.wire());
    lemma_delimited_len(0, inner.wire());
    lemma_delimited_len(tag, grown);
    lemma_varint_len_bounds(inner.wire().len());
    if below.len() == 0 {
        assert(!lengths_view(entries).contains_key(key));
        lemma_plain_message(inner, inside, context);
        lemma_nothing_found_nested(inner, prefix, position, before.real_position as int, context);
        assert(before.found + Seq::<(Seq<char>, Seq<usize>)>::empty() =~= before.found);
    } else {
        let parent = entries[0];
        lemma_ordered_nested(tag, inner, position, context);
        lemma_ordered_message(inner, inside, context);
        assert(entries =~= seq![parent] + below);
        assert(ordered_inside(seq![parent], position, inside));
        lemma_table_matches_parts(walk.lengths, seq![parent], below, position, inside, end);
        lemma_lengths_at(entries, 0);
        assert(walk.lengths.contains_key(key));
        assert(walk.lengths[key] == parent.info);
        let size = walk.lengths[key].real_length;
        assert(size == grown.len());
        lemma_walk_message(
            inner,
            prefix.push((before.real_position + 1) as usize),
            inside,
            RealWalk {
                found: before.found,
                real_position: before.real_position + 1 + varint_len(size as nat),
            },
            walk,
            context,
        );
    }
}

proof fn lemma_walk_elements(
    tag: u8,
    elements: Seq<ProtobufMessageWithBlockPointers>,
    prefix: Seq<usize>,
    position: int,
    before: RealWalk,
    walk: WalkContext,
    context: RealContext,
)
    requires
        contexts_agree(walk, context),
        0 <= position,
        position + elements_wire(tag, elements).len() <= usize::MAX,
        real_elements_wire(tag, elements, context).len() <= usize::MAX,
        table_matches(
            walk.lengths,
            entries_in_elements(tag, elements, position, context),
            position,
            position + elements_wire(tag, elements).len(),
        ),
    ensures
        walked(
            real_in_elements(tag, elements, prefix, position, before, walk),
            before,
            real_found_in_elements(tag, elements, prefix, before.real_position as int, context),
            real_elements_wire(tag, elements, context).len(),
        ),
    decreases elements, 0int,
{
    reveal(real_in_nested);
    if elements.len() == 0 {
        assert(before.found + Seq::<(Seq<char>, Seq<usize>)>::empty() =~= before.found);
    } else {
        let front = elements.drop_last();
        let last = elements.last();
        let middle = position + elements_wire(tag, front).len();
        lemma_ordered_elements(tag, front, position, context);
        lemma_ordered_nested(tag, last, middle, context);
        lemma_table_matches_parts(
            walk.lengths,
            entries_in_elements(tag, front, position, context),
            entries_in_nested(last, middle, context),
            position,
            middle,
            position + elements_wire(tag, elements).len(),
        );
        lemma_walk_elements(tag, front, prefix, position, before, walk, context);
        match real_in_elements(tag, front, prefix, position, before, walk) {
            Ok(earlier) => {
                lemma_walk_nested(tag, last, prefix, middle, earlier, walk, context);
                let found_front = real_found_in_elements(
                    tag,
                    front,
                    prefix,
                    before.real_position as int,
                    context,
                );
                let found_last = real_found_in_nested(
                    last,
                    prefix,
                    earlier.real_position as int,
                    context,
                );
                assert((before.found + found_front) + found_last =~= before.found + (found_front
                    + found_last));
            },
            Err(_) => {},
        }
    }
}

/// The second walk is correct: along the lengths that belong to a message,
/// a walk that succeeds finds every reference with its path in the real
/// object, and ends where the real object ends.
pub proof fn lemma_real_walk_finds_real_paths(
    message: ProtobufMessageWithBlockPointers,
    walk: WalkContext,
    context: RealContext,
)
    requires
        contexts_agree(walk, context),
        walk.lengths == lengths_view(entries_in_message(message, 0, context)),
        message.wire().len() <= usize::MAX,
        real_wire(message, context).len() <= usize::MAX,
    ensures
        real_in_message(
            message,
            Seq::empty(),
            0,
            RealWalk { found: Seq::empty(), real_position: 0 },
            walk,
        ) matches Ok(after) ==> after.found == real_found_in_message(
            message,
            Seq::empty(),
            0,
            context,
        ) && after.real_position == real_wire(message, context).len(),
{
    let before = RealWalk { found: Seq::empty(), real_position: 0 };
    lemma_walk_message(message, Seq::empty(), 0, before, walk, context);
    let found = real_found_in_message(message, Seq::empty(), 0, context);
    assert(Seq::<(Seq<char>, Seq<usize>)>::empty() + found =~= found);
}

/// A message to which no entry belongs holds no reference at any real place.
pub proof fn lemma_nothing_found(message: ProtobufMessageWithBlockPointers, context: RealContext)
    requires
        entries_in_message(message, 0, context).len() == 0,
    ensures
        real_found_in_message(message, Seq::empty(), 0, context) == Seq::<
            (Seq<char>, Seq<usize>),
        >::empty(),
{
    lemma_nothing_found_message(message, Seq::empty(), 0, 0, context);
}

} // verus!
