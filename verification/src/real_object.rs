//! The real object: the message as it is written once every reference to a
//! known block has given way to the block itself, and the proof that the
//! segments, with the blocks between them, are that object byte for byte.

use vstd::prelude::*;
use crate::block::{hex_string, referenced_hash};
use crate::ident::{interleave, interleave_from, piece};
use crate::lengths::{LengthEntry, LengthInfo};
use crate::message::{
    delimited, elements_wire, field_wire, fields_wire, lemma_delimited_len, Field, FieldValue,
    ProtobufMessageWithBlockPointers,
};
use crate::segment::{leaf_count, resume_at, segments, segments_from};
use crate::varint::{lemma_varint_len_bounds, varint_bytes, varint_len};

verus! {

/// The blocks that a message may refer to.
pub ghost struct RealContext {
    /// The hashes of the known blocks.
    pub blocks: Seq<Vec<u8>>,
    /// The tag of the hash algorithm that names blocks.
    pub hash_type: u64,
    /// The bytes of each block, by the block's name.
    pub content: Map<Seq<char>, Seq<u8>>,
}

/// The name of the known block that `bytes` refers to, if it refers to one.
pub open spec fn reference_id(bytes: Seq<u8>, context: RealContext) -> Option<Seq<char>> {
    match referenced_hash(bytes, context.blocks, context.hash_type) {
        Some(hash) => Some(hex_string(hash)),
        None => None,
    }
}

/// The message as it is written with every block in place of its reference.
pub open spec fn real_wire(message: ProtobufMessageWithBlockPointers, context: RealContext) -> Seq<
    u8,
>
    decreases message, 0int,
{
    real_fields_wire(message.fields@, context)
}

/// The real wire form of `fields`, one after another.
pub open spec fn real_fields_wire(fields: Seq<Field>, context: RealContext) -> Seq<u8>
    decreases fields, 0int,
{
    if fields.len() == 0 {
        Seq::empty()
    } else {
        real_fields_wire(fields.drop_last(), context) + real_field_wire(fields.last(), context)
    }
}

/// The real wire form of one field: a reference to a known block is
/// written as a bytes field that holds the block.
pub open spec fn real_field_wire(field: Field, context: RealContext) -> Seq<u8>
    decreases field, 0int,
{
    match field.value {
        FieldValue::Scalar(_) => field_wire(field),
        FieldValue::Text(_) => field_wire(field),
        FieldValue::Bytes(bytes) => match reference_id(bytes@, context) {
            Some(id) => delimited(field.tag, context.content[id]),
            None => field_wire(field),
        },
        FieldValue::Message(inner) => delimited(field.tag, real_wire(inner, context)),
        FieldValue::Repeated(elements) => real_elements_wire(field.tag, elements@, context),
    }
}

/// The real wire form of the elements of a repeated field.
pub open spec fn real_elements_wire(
    tag: u8,
    elements: Seq<ProtobufMessageWithBlockPointers>,
    context: RealContext,
) -> Seq<u8>
    decreases elements, 0int,
{
    if elements.len() == 0 {
        Seq::empty()
    } else {
        real_elements_wire(tag, elements.drop_last(), context) + delimited(
            tag,
            real_wire(elements.last(), context),
        )
    }
}

/// The blocks that `message` refers to, in the order of its fields.
pub open spec fn contents_in_message(
    message: ProtobufMessageWithBlockPointers,
    context: RealContext,
) -> Seq<Seq<u8>>
    decreases message, 0int,
{
    contents_in_fields(message.fields@, context)
}

/// The blocks that `fields` refer to, in order.
pub open spec fn contents_in_fields(fields: Seq<Field>, context: RealContext) -> Seq<Seq<u8>>
    decreases fields, 0int,
{
    if fields.len() == 0 {
        Seq::empty()
    } else {
        contents_in_fields(fields.drop_last(), context) + contents_in_field(fields.last(), context)
    }
}

/// The blocks that one field refers to, in order.
pub open spec fn contents_in_field(field: Field, context: RealContext) -> Seq<Seq<u8>>
    decreases field, 0int,
{
    match field.value {
        FieldValue::Scalar(_) => Seq::empty(),
        FieldValue::Text(_) => Seq::empty(),
        FieldValue::Bytes(bytes) => match reference_id(bytes@, context) {
            Some(id) => seq![context.content[id]],
            None => Seq::empty(),
        },
        FieldValue::Message(inner) => contents_in_message(inner, context),
        FieldValue::Repeated(elements) => contents_in_elements(elements@, context),
    }
}

/// The blocks that the elements of a repeated field refer to, in order.
pub open spec fn contents_in_elements(
    elements: Seq<ProtobufMessageWithBlockPointers>,
    context: RealContext,
) -> Seq<Seq<u8>>
    decreases elements, 0int,
{
    if elements.len() == 0 {
        Seq::empty()
    } else {
        contents_in_elements(elements.drop_last(), context) + contents_in_message(
            elements.last(),
            context,
        )
    }
}

/// The lengths that belong to `message` when it is written from `start` on:
/// an entry for every reference to a known block, and one for every nested
/// message that holds such a reference, by ascending offset.
pub open spec fn entries_in_message(
    message: ProtobufMessageWithBlockPointers,
    start: int,
    context: RealContext,
) -> Seq<LengthEntry>
    decreases message, 0int,
{
    entries_in_fields(message.fields@, start, context)
}

/// The lengths that belong to `fields`, the first of which is written at `start`.
pub open spec fn entries_in_fields(fields: Seq<Field>, start: int, context: RealContext) -> Seq<
    LengthEntry,
>
    decreases fields, 0int,
{
    if fields.len() == 0 {
        Seq::empty()
    } else {
        entries_in_fields(fields.drop_last(), start, context) + entries_in_field(
            fields.last(),
            start + fields_wire(fields.drop_last()).len(),
            context,
        )
    }
}

/// The lengths that belong to one field, written at `position`.
pub open spec fn entries_in_field(field: Field, position: int, context: RealContext) -> Seq<
    LengthEntry,
>
    decreases field, 0int,
{
    match field.value {
        FieldValue::Scalar(_) => Seq::empty(),
        FieldValue::Text(_) => Seq::empty(),
        FieldValue::Bytes(bytes) => match reference_id(bytes@, context) {
            Some(id) => seq![
                LengthEntry {
                    offset: (position + 1) as usize,
                    info: LengthInfo {
                        real_length: context.content[id].len() as usize,
                        compressed_length: bytes@.len() as usize,
                        is_leaf: true,
                    },
                },
            ],
            None => Seq::empty(),
        },
        FieldValue::Message(inner) => entries_in_nested(inner, position, context),
        FieldValue::Repeated(elements) => entries_in_elements(
            field.tag,
            elements@,
            position,
            context,
        ),
    }
}

/// The lengths that belong to a nested message whose tag byte is written at
/// `position`: none where it holds no reference; otherwise its own entry at
/// the offset of its length prefix, and the entries of what it holds.
pub open spec fn entries_in_nested(
    inner: ProtobufMessageWithBlockPointers,
    position: int,
    context: RealContext,
) -> Seq<LengthEntry>
    decreases inner, 1int,
{
    let below = entries_in_message(
        inner,
        position + 1 + varint_len(inner.wire().len()),
        context,
    );
    if below.len() == 0 {
        Seq::empty()
    } else {
        seq![
            LengthEntry {
                offset: (position + 1) as usize,
                info: LengthInfo {
                    real_length: real_wire(inner, context).len() as usize,
                    compressed_length: inner.wire().len() as usize,
                    is_leaf: false,
                },
            },
        ] + below
    }
}

/// The lengths that belong to the elements of a repeated field, the first
/// of which is written at `position`.
pub open spec fn entries_in_elements(
    tag: u8,
    elements: Seq<ProtobufMessageWithBlockPointers>,
    position: int,
    context: RealContext,
) -> Seq<LengthEntry>
    decreases elements, 0int,
{
    if elements.len() == 0 {
        Seq::empty()
    } else {
        entries_in_elements(tag, elements.drop_last(), position, context) + entries_in_nested(
            elements.last(),
            position + elements_wire(tag, elements.drop_last()).len(),
            context,
        )
    }
}

/// The buffer from `cursor` on with the length prefixes of `entries`
/// rewritten to the real lengths and each block of `contents` in place of
/// its reference.
#[verifier::opaque]
pub open spec fn spliced(
    buffer: Seq<u8>,
    entries: Seq<LengthEntry>,
    cursor: int,
    contents: Seq<Seq<u8>>,
) -> Seq<u8>
    decreases entries.len(),
{
    if entries.len() == 0 {
        buffer.subrange(cursor, buffer.len() as int)
    } else {
        let entry = entries[0];
        let head = buffer.subrange(cursor, entry.offset as int) + varint_bytes(
            entry.info.real_length as nat,
        );
        if entry.info.is_leaf {
            head + piece(contents, 0) + spliced(
                buffer,
                entries.drop_first(),
                resume_at(entry),
                contents.drop_first(),
            )
        } else {
            head + spliced(buffer, entries.drop_first(), resume_at(entry), contents)
        }
    }
}

/// Whether `bytes` stand in `buffer` at index `at`.
pub open spec fn embedded(buffer: Seq<u8>, at: int, bytes: Seq<u8>) -> bool {
    &&& 0 <= at
    &&& at + bytes.len() <= buffer.len()
    &&& buffer.subrange(at, at + bytes.len()) == bytes
}

/// Whether the first of `entries`, if there is one, lies at `position` or
/// after it, inside a buffer of `buffer_len` bytes.
pub open spec fn starts_within(entries: Seq<LengthEntry>, position: int, buffer_len: int) -> bool {
    entries.len() > 0 ==> position <= entries[0].offset <= buffer_len
}

/// What stands in a buffer as a whole stands there in its parts.
pub proof fn lemma_embedded_split(buffer: Seq<u8>, at: int, first: Seq<u8>, second: Seq<u8>)
    requires
        embedded(buffer, at, first + second),
    ensures
        embedded(buffer, at, first),
        embedded(buffer, at + first.len(), second),
{
    let whole = first + second;
    assert(buffer.subrange(at, at + first.len()) =~= first) by {
        assert forall|i: int| 0 <= i < first.len() implies buffer.subrange(
            at,
            at + first.len(),
        )[i] == first[i] by {
            assert(buffer.subrange(at, at + whole.len())[i] == whole[i]);
        }
    }
    assert(buffer.subrange(at + first.len(), at + first.len() + second.len()) =~= second) by {
        assert forall|i: int| 0 <= i < second.len() implies buffer.subrange(
            at + first.len(),
            at + first.len() + second.len(),
        )[i] == second[i] by {
            assert(buffer.subrange(at, at + whole.len())[first.len() + i] == whole[first.len() + i]);
        }
    }
}

/// Reading on from an earlier cursor takes the bytes in between over as they are.
pub proof fn lemma_copy_ahead(
    buffer: Seq<u8>,
    entries: Seq<LengthEntry>,
    from: int,
    to: int,
    contents: Seq<Seq<u8>>,
)
    requires
        0 <= from <= to <= buffer.len(),
        starts_within(entries, to, buffer.len() as int),
    ensures
        spliced(buffer, entries, from, contents) == buffer.subrange(from, to) + spliced(
            buffer,
            entries,
            to,
            contents,
        ),
{
    reveal(spliced);
    if entries.len() == 0 {
        assert(buffer.subrange(from, buffer.len() as int) =~= buffer.subrange(from, to)
            + buffer.subrange(to, buffer.len() as int));
    } else {
        let offset = entries[0].offset as int;
        assert(buffer.subrange(from, offset) =~= buffer.subrange(from, to) + buffer.subrange(
            to,
            offset,
        ));
        assert(spliced(buffer, entries, from, contents) =~= buffer.subrange(from, to) + spliced(
            buffer,
            entries,
            to,
            contents,
        ));
    }
}

/// A message without entries refers to no block: it is written in the real
/// object as it is written in the buffer.
pub proof fn lemma_plain_message(
    message: ProtobufMessageWithBlockPointers,
    start: int,
    context: RealContext,
)
    requires
        entries_in_message(message, start, context).len() == 0,
    ensures
        real_wire(message, context) == message.wire(),
        contents_in_message(message, context) == Seq::<Seq<u8>>::empty(),
    decreases message, 0int,
{
    lemma_plain_fields(message.fields@, start, context);
}

proof fn lemma_plain_fields(fields: Seq<Field>, start: int, context: RealContext)
    requires
        entries_in_fields(fields, start, context).len() == 0,
    ensures
        real_fields_wire(fields, context) == fields_wire(fields),
        contents_in_fields(fields, context) == Seq::<Seq<u8>>::empty(),
    decreases fields, 0int,
{
    if fields.len() > 0 {
        lemma_plain_fields(fields.drop_last(), start, context);
        lemma_plain_field(
            fields.last(),
            start + fields_wire(fields.drop_last()).len(),
            context,
        );
        assert(contents_in_fields(fields, context) =~= Seq::<Seq<u8>>::empty());
    }
}

proof fn lemma_plain_field(field: Field, position: int, context: RealContext)
    requires
        entries_in_field(field, position, context).len() == 0,
    ensures
        real_field_wire(field, context) == field_wire(field),
        contents_in_field(field, context) == Seq::<Seq<u8>>::empty(),
    decreases field, 0int,
{
    match field.value {
        FieldValue::Message(inner) => {
            lemma_plain_nested(inner, position, context);
        },
        FieldValue::Repeated(elements) => {
            lemma_plain_elements(field.tag, elements@, position, context);
        },
        _ => {},
    }
}

proof fn lemma_plain_nested(
    inner: ProtobufMessageWithBlockPointers,
    position: int,
    context: RealContext,
)
    requires
        entries_in_nested(inner, position, context).len() == 0,
    ensures
        real_wire(inner, context) == inner.wire(),
        contents_in_message(inner, context) == Seq::<Seq<u8>>::empty(),
    decreases inner, 1int,
{
    lemma_plain_message(inner, position + 1 + varint_len(inner.wire().len()), context);
}

proof fn lemma_plain_elements(
    tag: u8,
    elements: Seq<ProtobufMessageWithBlockPointers>,
    position: int,
    context: RealContext,
)
    requires
        entries_in_elements(tag, elements, position, context).len() == 0,
    ensures
        real_elements_wire(tag, elements, context) == elements_wire(tag, elements),
        contents_in_elements(elements, context) == Seq::<Seq<u8>>::empty(),
    decreases elements, 0int,
{
    if elements.len() > 0 {
        lemma_plain_elements(tag, elements.drop_last(), position, context);
        lemma_plain_nested(
            elements.last(),
            position + elements_wire(tag, elements.drop_last()).len(),
            context,
        );
        assert(contents_in_elements(elements, context) =~= Seq::<Seq<u8>>::empty());
    }
}

/// Whether the first of `entries`, if there is one, lies past `start` and
/// not past `end`.
pub open spec fn first_inside(entries: Seq<LengthEntry>, start: int, end: int) -> bool {
    entries.len() > 0 ==> start < entries[0].offset <= end
}

proof fn lemma_first_inside_fields(fields: Seq<Field>, start: int, context: RealContext)
    requires
        0 <= start,
        start + fields_wire(fields).len() <= usize::MAX,
    ensures
        first_inside(
            entries_in_fields(fields, start, context),
            start,
            start + fields_wire(fields).len(),
        ),
    decreases fields, 0int,
{
    if fields.len() > 0 {
        let front = entries_in_fields(fields.drop_last(), start, context);
        let back = entries_in_field(
            fields.last(),
            start + fields_wire(fields.drop_last()).len(),
            context,
        );
        lemma_first_inside_fields(fields.drop_last(), start, context);
        lemma_first_inside_field(
            fields.last(),
            start + fields_wire(fields.drop_last()).len(),
            context,
        );
        if front.len() > 0 {
            assert((front + back)[0] == front[0]);
        } else if back.len() > 0 {
            assert((front + back)[0] == back[0]);
        }
    }
}

proof fn lemma_first_inside_field(field: Field, position: int, context: RealContext)
    requires
        0 <= position,
        position + field_wire(field).len() <= usize::MAX,
    ensures
        first_inside(
            entries_in_field(field, position, context),
            position,
            position + field_wire(field).len(),
        ),
    decreases field, 0int,
{
    match field.value {
        FieldValue::Message(inner) => {
            lemma_first_inside_nested(field.tag, inner, position, context);
        },
        FieldValue::Repeated(elements) => {
            lemma_first_inside_elements(field.tag, elements@, position, context);
        },
        FieldValue::Bytes(bytes) => {
            lemma_delimited_len(field.tag, bytes@);
        },
        _ => {},
    }
}

proof fn lemma_first_inside_nested(
    tag: u8,
    inner: ProtobufMessageWithBlockPointers,
    position: int,
    context: RealContext,
)
    requires
        0 <= position,
        position + delimited(tag, inner.wire()).len() <= usize::MAX,
    ensures
        first_inside(
            entries_in_nested(inner, position, context),
            position,
            position + delimited(tag, inner.wire()).len(),
        ),
{
    lemma_delimited_len(tag, inner.wire());
}

proof fn lemma_first_inside_elements(
    tag: u8,
    elements: Seq<ProtobufMessageWithBlockPointers>,
    position: int,
    context: RealContext,
)
    requires
        0 <= position,
        position + elements_wire(tag, elements).len() <= usize::MAX,
    ensures
        first_inside(
            entries_in_elements(tag, elements, position, context),
            position,
            position + elements_wire(tag, elements).len(),
        ),
    decreases elements, 0int,
{
    if elements.len() > 0 {
        let front = entries_in_elements(tag, elements.drop_last(), position, context);
        let back = entries_in_nested(
            elements.last(),
            position + elements_wire(tag, elements.drop_last()).len(),
            context,
        );
        lemma_first_inside_elements(tag, elements.drop_last(), position, context);
        lemma_first_inside_nested(
            tag,
            elements.last(),
            position + elements_wire(tag, elements.drop_last()).len(),
            context,
        );
        if front.len() > 0 {
            assert((front + back)[0] == front[0]);
        } else if back.len() > 0 {
            assert((front + back)[0] == back[0]);
        }
    }
}

/// A part of the message that holds no reference is taken over from the
/// buffer as it is.
proof fn lemma_spliced_plain(
    buffer: Seq<u8>,
    bytes: Seq<u8>,
    position: int,
    rest: Seq<LengthEntry>,
    rest_contents: Seq<Seq<u8>>,
)
    requires
        embedded(buffer, position, bytes),
        starts_within(rest, position + bytes.len(), buffer.len() as int),
    ensures
        spliced(
            buffer,
            Seq::<LengthEntry>::empty() + rest,
            position,
            Seq::<Seq<u8>>::empty() + rest_contents,
        ) == bytes + spliced(buffer, rest, position + bytes.len(), rest_contents),
{
    assert(Seq::<LengthEntry>::empty() + rest =~= rest);
    assert(Seq::<Seq<u8>>::empty() + rest_contents =~= rest_contents);
    lemma_copy_ahead(buffer, rest, position, position + bytes.len(), rest_contents);
}

/// Cutting along the entries of a message and putting its blocks in place
/// gives the real message, followed by what the entries after it give.
pub proof fn lemma_spliced_message(
    buffer: Seq<u8>,
    message: ProtobufMessageWithBlockPointers,
    start: int,
    context: RealContext,
    rest: Seq<LengthEntry>,
    rest_contents: Seq<Seq<u8>>,
)
    requires
        embedded(buffer, start, message.wire()),
        buffer.len() <= usize::MAX,
        real_wire(message, context).len() <= usize::MAX,
        starts_within(rest, start + message.wire().len(), buffer.len() as int),
    ensures
        spliced(
            buffer,
            entries_in_message(message, start, context) + rest,
            start,
            contents_in_message(message, context) + rest_contents,
        ) == real_wire(message, context) + spliced(
            buffer,
            rest,
            start + message.wire().len(),
            rest_contents,
        ),
    decreases message, 0int,
{
    lemma_spliced_fields(buffer, message.fields@, start, context, rest, rest_contents);
}

proof fn lemma_spliced_fields(
    buffer: Seq<u8>,
    fields: Seq<Field>,
    start: int,
    context: RealContext,
    rest: Seq<LengthEntry>,
    rest_contents: Seq<Seq<u8>>,
)
    requires
        embedded(buffer, start, fields_wire(fields)),
        buffer.len() <= usize::MAX,
        real_fields_wire(fields, context).len() <= usize::MAX,
        starts_within(rest, start + fields_wire(fields).len(), buffer.len() as int),
    ensures
        spliced(
            buffer,
            entries_in_fields(fields, start, context) + rest,
            start,
            contents_in_fields(fields, context) + rest_contents,
        ) == real_fields_wire(fields, context) + spliced(
            buffer,
            rest,
            start + fields_wire(fields).len(),
            rest_contents,
        ),
    decreases fields, 0int,
{
    if fields.len() == 0 {
        lemma_spliced_plain(buffer, Seq::empty(), start, rest, rest_contents);
        assert(Seq::<u8>::empty() + spliced(buffer, rest, start, rest_contents) =~= spliced(
            buffer,
            rest,
            start,
            rest_contents,
        ));
    } else {
        let front = fields.drop_last();
        let last = fields.last();
        let middle = start + fields_wire(front).len();
        let end = start + fields_wire(fields).len();
        let front_entries = entries_in_fields(front, start, context);
        let last_entries = entries_in_field(last, middle, context);
        let front_contents = contents_in_fields(front, context);
        let last_contents = contents_in_field(last, context);
        lemma_embedded_split(buffer, start, fields_wire(front), field_wire(last));
        lemma_spliced_field(buffer, last, middle, context, rest, rest_contents);
        lemma_first_inside_field(last, middle, context);
        if last_entries.len() > 0 {
            assert((last_entries + rest)[0] == last_entries[0]);
        } else {
            assert(last_entries + rest =~= rest);
        }
        lemma_spliced_fields(
            buffer,
            front,
            start,
            context,
            last_entries + rest,
            last_contents + rest_contents,
        );
        assert(front_entries + (last_entries + rest) =~= (front_entries + last_entries) + rest);
        assert(front_contents + (last_contents + rest_contents) =~= (front_contents
            + last_contents) + rest_contents);
        assert(real_fields_wire(front, context) + (real_field_wire(last, context) + spliced(
            buffer,
            rest,
            end,
            rest_contents,
        )) =~= real_fields_wire(fields, context) + spliced(buffer, rest, end, rest_contents));
    }
}

proof fn lemma_spliced_field(
    buffer: Seq<u8>,
    field: Field,
    position: int,
    context: RealContext,
    rest: Seq<LengthEntry>,
    rest_contents: Seq<Seq<u8>>,
)
    requires
        embedded(buffer, position, field_wire(field)),
        buffer.len() <= usize::MAX,
        real_field_wire(field, context).len() <= usize::MAX,
        starts_within(rest, position + field_wire(field).len(), buffer.len() as int),
    ensures
        spliced(
            buffer,
            entries_in_field(field, position, context) + rest,
            position,
            contents_in_field(field, context) + rest_contents,
        ) == real_field_wire(field, context) + spliced(
            buffer,
            rest,
            position + field_wire(field).len(),
            rest_contents,
        ),
    decreases field, 0int,
{
    match field.value {
        FieldValue::Scalar(_) => {
            lemma_spliced_plain(buffer, field_wire(field), position, rest, rest_contents);
        },
        FieldValue::Text(_) => {
            lemma_spliced_plain(buffer, field_wire(field), position, rest, rest_contents);
        },
        FieldValue::Bytes(bytes) => match reference_id(bytes@, context) {
            None => {
                lemma_spliced_plain(buffer, field_wire(field), position, rest, rest_contents);
            },
            Some(id) => {
                reveal(spliced);
                let content = context.content[id];
                let entry = entries_in_field(field, position, context)[0];
                let entries = seq![entry] + rest;
                let contents = seq![content] + rest_contents;
                lemma_delimited_len(field.tag, bytes@);
                lemma_delimited_len(field.tag, content);
                lemma_varint_len_bounds(bytes@.len());
                assert(entries_in_field(field, position, context) =~= seq![entry]);
                assert(contents_in_field(field, context) =~= seq![content]);
                assert(entries[0] == entry);
                assert(entries.drop_first() =~= rest);
                assert(contents.drop_first() =~= rest_contents);
                assert(piece(contents, 0) == content);
                assert(resume_at(entry) == position + field_wire(field).len());
                assert(buffer.subrange(position, position + 1) =~= seq![field.tag]) by {
                    assert(buffer.subrange(position, position + field_wire(field).len())[0]
                        == field_wire(field)[0]);
                }
                assert(spliced(buffer, entries, position, contents) =~= delimited(
                    field.tag,
                    content,
                ) + spliced(buffer, rest, position + field_wire(field).len(), rest_contents));
            },
        },
        FieldValue::Message(inner) => {
            lemma_spliced_nested(buffer, field.tag, inner, position, context, rest, rest_contents);
        },
        FieldValue::Repeated(elements) => {
            lemma_spliced_elements(
                buffer,
                field.tag,
                elements@,
                position,
                context,
                rest,
                rest_contents,
            );
        },
    }
}

proof fn lemma_spliced_nested(
    buffer: Seq<u8>,
    tag: u8,
    inner: ProtobufMessageWithBlockPointers,
    position: int,
    context: RealContext,
    rest: Seq<LengthEntry>,
    rest_contents: Seq<Seq<u8>>,
)
    requires
        embedded(buffer, position, delimited(tag, inner.wire())),
        buffer.len() <= usize::MAX,
        delimited(tag, real_wire(inner, context)).len() <= usize::MAX,
        starts_within(
            rest,
            position + delimited(tag, inner.wire()).len(),
            buffer.len() as int,
        ),
    ensures
        spliced(
            buffer,
            entries_in_nested(inner, position, context) + rest,
            position,
            contents_in_message(inner, context) + rest_contents,
        ) == delimited(tag, real_wire(inner, context)) + spliced(
            buffer,
            rest,
            position + delimited(tag, inner.wire()).len(),
            rest_contents,
        ),
    decreases inner, 1int,
{
    let wire = inner.wire();
    let grown = real_wire(inner, context);
    let inside = position + 1 + varint_len(wire.len());
    let end = position + delimited(tag, wire).len();
    let below = entries_in_message(inner, inside, context);
    lemma_delimited_len(tag, wire);
    lemma_delimited_len(tag, grown);
    lemma_varint_len_bounds(wire.len());
    lemma_embedded_split(buffer, position, seq![tag] + varint_bytes(wire.len()), wire);
    if below.len() == 0 {
        lemma_plain_message(inner, inside, context);
        lemma_spliced_plain(buffer, delimited(tag, wire), position, rest, rest_contents);
    } else {
        reveal(spliced);
        let entry = entries_in_nested(inner, position, context)[0];
        let entries = entries_in_nested(inner, position, context) + rest;
        let contents = contents_in_message(inner, context) + rest_contents;
        lemma_spliced_message(buffer, inner, inside, context, rest, rest_contents);
        assert(entries[0] == entry);
        assert(entries.drop_first() =~= below + rest);
        assert(resume_at(entry) == inside);
        assert(buffer.subrange(position, position + 1) =~= seq![tag]) by {
            assert(buffer.subrange(position, position + delimited(tag, wire).len())[0]
                == delimited(tag, wire)[0]);
        }
        assert(spliced(buffer, entries, position, contents) =~= delimited(tag, grown) + spliced(
            buffer,
            rest,
            end,
            rest_contents,
        ));
    }
}

proof fn lemma_spliced_elements(
    buffer: Seq<u8>,
    tag: u8,
    elements: Seq<ProtobufMessageWithBlockPointers>,
    position: int,
    context: RealContext,
    rest: Seq<LengthEntry>,
    rest_contents: Seq<Seq<u8>>,
)
    requires
        embedded(buffer, position, elements_wire(tag, elements)),
        buffer.len() <= usize::MAX,
        real_elements_wire(tag, elements, context).len() <= usize::MAX,
        starts_within(
            rest,
            position + elements_wire(tag, elements).len(),
            buffer.len() as int,
        ),
    ensures
        spliced(
            buffer,
            entries_in_elements(tag, elements, position, context) + rest,
            position,
            contents_in_elements(elements, context) + rest_contents,
        ) == real_elements_wire(tag, elements, context) + spliced(
            buffer,
            rest,
            position + elements_wire(tag, elements).len(),
            rest_contents,
        ),
    decreases elements, 0int,
{
    if elements.len() == 0 {
        lemma_spliced_plain(buffer, Seq::empty(), position, rest, rest_contents);
        assert(Seq::<u8>::empty() + spliced(buffer, rest, position, rest_contents) =~= spliced(
            buffer,
            rest,
            position,
            rest_contents,
        ));
    } else {
        let front = elements.drop_last();
        let last = elements.last();
        let middle = position + elements_wire(tag, front).len();
        let end = position + elements_wire(tag, elements).len();
        let front_entries = entries_in_elements(tag, front, position, context);
        let last_entries = entries_in_nested(last, middle, context);
        let front_contents = contents_in_elements(front, context);
        let last_contents = contents_in_message(last, context);
        lemma_embedded_split(
            buffer,
            position,
            elements_wire(tag, front),
            delimited(tag, last.wire()),
        );
        lemma_spliced_nested(buffer, tag, last, middle, context, rest, rest_contents);
        lemma_first_inside_nested(tag, last, middle, context);
        if last_entries.len() > 0 {
            assert((last_entries + rest)[0] == last_entries[0]);
        } else {
            assert(last_entries + rest =~= rest);
        }
        lemma_spliced_elements(
            buffer,
            tag,
            front,
            position,
            context,
            last_entries + rest,
            last_contents + rest_contents,
        );
        assert(front_entries + (last_entries + rest) =~= (front_entries + last_entries) + rest);
        assert(front_contents + (last_contents + rest_contents) =~= (front_contents
            + last_contents) + rest_contents);
        assert(real_elements_wire(tag, front, context) + (delimited(
            tag,
            real_wire(last, context),
        ) + spliced(buffer, rest, end, rest_contents)) =~= real_elements_wire(
            tag,
            elements,
            context,
        ) + spliced(buffer, rest, end, rest_contents));
    }
}

/// A list of segments that starts with one more segment, against a list of
/// blocks that starts with one more block, goes on as the shorter lists do.
proof fn lemma_interleave_shift(
    first: Seq<u8>,
    segments: Seq<Seq<u8>>,
    blocks: Seq<Seq<u8>>,
    i: int,
)
    requires
        0 <= i,
        blocks.len() > 0,
    ensures
        interleave_from(seq![first] + segments, blocks, i + 1) == interleave_from(
            segments,
            blocks.drop_first(),
            i,
        ),
    decreases
        (if segments.len() > blocks.len() {
            segments.len()
        } else {
            blocks.len()
        }) - i,
{
    let longer = seq![first] + segments;
    let shorter = blocks.drop_first();
    if i >= segments.len() && i >= shorter.len() {
    } else {
        lemma_interleave_shift(first, segments, blocks, i + 1);
        assert(piece(longer, i + 1) == piece(segments, i));
        assert(piece(blocks, i + 1) == piece(shorter, i));
    }
}

/// The number of references is the sum over the parts of a list of entries.
pub proof fn lemma_leaf_count_sum(first: Seq<LengthEntry>, second: Seq<LengthEntry>)
    ensures
        leaf_count(first + second) == leaf_count(first) + leaf_count(second),
    decreases first.len(),
{
    if first.len() == 0 {
        assert(first + second =~= second);
    } else {
        assert((first + second).drop_first() =~= first.drop_first() + second);
        lemma_leaf_count_sum(first.drop_first(), second);
    }
}

/// The segments, with the blocks between them, are the segment in progress
/// followed by the buffer spliced from the cursor on.
pub proof fn lemma_interleaved_segments(
    buffer: Seq<u8>,
    entries: Seq<LengthEntry>,
    cursor: int,
    pending: Seq<u8>,
    contents: Seq<Seq<u8>>,
)
    requires
        contents.len() == leaf_count(entries),
    ensures
        interleave(segments_from(buffer, entries, cursor, pending), contents) == pending + spliced(
            buffer,
            entries,
            cursor,
            contents,
        ),
    decreases entries.len(),
{
    reveal(spliced);
    if entries.len() == 0 {
        let only = pending + buffer.subrange(cursor, buffer.len() as int);
        assert(interleave_from(seq![only], contents, 1) == Seq::<u8>::empty());
        assert(interleave(seq![only], contents) =~= only);
    } else {
        let entry = entries[0];
        let grown = pending + buffer.subrange(cursor, entry.offset as int) + varint_bytes(
            entry.info.real_length as nat,
        );
        let later = entries.drop_first();
        if entry.info.is_leaf {
            let later_segments = segments_from(buffer, later, resume_at(entry), Seq::empty());
            lemma_interleaved_segments(
                buffer,
                later,
                resume_at(entry),
                Seq::empty(),
                contents.drop_first(),
            );
            lemma_interleave_shift(grown, later_segments, contents, 0);
            assert(piece(seq![grown] + later_segments, 0) == grown);
            assert(interleave(seq![grown] + later_segments, contents) =~= pending + spliced(
                buffer,
                entries,
                cursor,
                contents,
            ));
        } else {
            lemma_interleaved_segments(buffer, later, resume_at(entry), grown, contents);
            assert(grown + spliced(buffer, later, resume_at(entry), contents) =~= pending
                + spliced(buffer, entries, cursor, contents));
        }
    }
}

/// A message has as many entries that are references as it has blocks.
pub proof fn lemma_count_message(
    message: ProtobufMessageWithBlockPointers,
    start: int,
    context: RealContext,
)
    ensures
        leaf_count(entries_in_message(message, start, context)) == contents_in_message(
            message,
            context,
        ).len(),
    decreases message, 0int,
{
    lemma_count_fields(message.fields@, start, context);
}

proof fn lemma_count_fields(fields: Seq<Field>, start: int, context: RealContext)
    ensures
        leaf_count(entries_in_fields(fields, start, context)) == contents_in_fields(
            fields,
            context,
        ).len(),
    decreases fields, 0int,
{
    if fields.len() > 0 {
        let middle = start + fields_wire(fields.drop_last()).len();
        lemma_count_fields(fields.drop_last(), start, context);
        lemma_count_field(fields.last(), middle, context);
        lemma_leaf_count_sum(
            entries_in_fields(fields.drop_last(), start, context),
            entries_in_field(fields.last(), middle, context),
        );
    }
}

proof fn lemma_count_field(field: Field, position: int, context: RealContext)
    ensures
        leaf_count(entries_in_field(field, position, context)) == contents_in_field(
            field,
            context,
        ).len(),
    decreases field, 0int,
{
    match field.value {
        FieldValue::Bytes(bytes) => {
            let entries = entries_in_field(field, position, context);
            if entries.len() > 0 {
                assert(entries[0].info.is_leaf);
                assert(entries.drop_first() =~= Seq::<LengthEntry>::empty());
                assert(leaf_count(entries.drop_first()) == 0);
                assert(leaf_count(entries) == 1);
            } else {
                assert(leaf_count(entries) == 0);
            }
        },
        FieldValue::Message(inner) => {
            lemma_count_nested(inner, position, context);
        },
        FieldValue::Repeated(elements) => {
            lemma_count_elements(field.tag, elements@, position, context);
        },
        _ => {},
    }
}

proof fn lemma_count_nested(
    inner: ProtobufMessageWithBlockPointers,
    position: int,
    context: RealContext,
)
    ensures
        leaf_count(entries_in_nested(inner, position, context)) == contents_in_message(
            inner,
            context,
        ).len(),
    decreases inner, 1int,
{
    let inside = position + 1 + varint_len(inner.wire().len());
    let below = entries_in_message(inner, inside, context);
    lemma_count_message(inner, inside, context);
    if below.len() > 0 {
        assert(entries_in_nested(inner, position, context).drop_first() =~= below);
    }
}

proof fn lemma_count_elements(
    tag: u8,
    elements: Seq<ProtobufMessageWithBlockPointers>,
    position: int,
    context: RealContext,
)
    ensures
        leaf_count(entries_in_elements(tag, elements, position, context)) == contents_in_elements(
            elements,
            context,
        ).len(),
    decreases elements, 0int,
{
    if elements.len() > 0 {
        let middle = position + elements_wire(tag, elements.drop_last()).len();
        lemma_count_elements(tag, elements.drop_last(), position, context);
        lemma_count_nested(elements.last(), middle, context);
        lemma_leaf_count_sum(
            entries_in_elements(tag, elements.drop_last(), position, context),
            entries_in_nested(elements.last(), middle, context),
        );
    }
}

/// Segmentation is correct: the written message, cut along the lengths that
/// belong to it, gives one segment more than it has references, and the
/// segments with the blocks between them are, byte for byte, the message
/// written with every block in place of its reference.
pub proof fn lemma_segments_give_the_real_object(
    message: ProtobufMessageWithBlockPointers,
    context: RealContext,
)
    requires
        message.wire().len() <= usize::MAX,
        real_wire(message, context).len() <= usize::MAX,
    ensures
        segments(message.wire(), entries_in_message(message, 0, context)).len()
            == contents_in_message(message, context).len() + 1,
        interleave(
            segments(message.wire(), entries_in_message(message, 0, context)),
            contents_in_message(message, context),
        ) == real_wire(message, context),
{
    reveal(spliced);
    let buffer = message.wire();
    let entries = entries_in_message(message, 0, context);
    let contents = contents_in_message(message, context);
    lemma_count_message(message, 0, context);
    crate::segment::lemma_segment_count(buffer, entries, 0, Seq::empty());
    lemma_interleaved_segments(buffer, entries, 0, Seq::empty(), contents);
    assert(buffer.subrange(0, buffer.len() as int) =~= buffer);
    lemma_spliced_message(buffer, message, 0, context, Seq::empty(), Seq::empty());
    assert(entries + Seq::<LengthEntry>::empty() =~= entries);
    assert(contents + Seq::<Seq<u8>>::empty() =~= contents);
    assert(spliced(buffer, Seq::empty(), buffer.len() as int, Seq::empty()) =~= Seq::<u8>::empty());
    assert(Seq::<u8>::empty() + spliced(buffer, entries, 0, contents) =~= real_wire(
        message,
        context,
    ));
}

} // verus!
