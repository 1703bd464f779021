//! The pointer locator: a walk over a message that follows, byte for byte,
//! where the encoder puts each field, and records every place at which a
//! known block is referenced.
//!
//! A path holds one offset for each level of nesting. Each offset is that
//! of the first byte of a length prefix: one past the field's tag byte.

use vstd::prelude::*;
use crate::block::{
    get_hash, hex_string, is_block, referenced_hash, BufferBlock, Environment,
};
use crate::message::{
    delimited, elements_wire, fields_wire, lemma_delimited_len, lemma_element_is_smaller,
    lemma_elements_wire_prefix, lemma_elements_wire_take, lemma_fields_wire_prefix,
    lemma_fields_wire_take, Field, FieldValue, ProtobufMessageWithBlockPointers,
};
use crate::tree::{pointers_view, Pointer};
use crate::varint::{encode_bytes, varint_len};

verus! {

/// The references in `message`, in the order of its fields, when the
/// message is written from `start` on and `prefix` leads to it.
pub open spec fn found_in_message(
    message: ProtobufMessageWithBlockPointers,
    prefix: Seq<usize>,
    start: int,
    blocks: Seq<Vec<u8>>,
    hash_type: u64,
) -> Seq<(Seq<char>, Seq<usize>)>
    decreases message, 0int,
{
    found_in_fields(message.fields@, prefix, start, blocks, hash_type)
}

/// The references in `fields`, the first of which is written at `start`.
pub open spec fn found_in_fields(
    fields: Seq<Field>,
    prefix: Seq<usize>,
    start: int,
    blocks: Seq<Vec<u8>>,
    hash_type: u64,
) -> Seq<(Seq<char>, Seq<usize>)>
    decreases fields,
{
    if fields.len() == 0 {
        Seq::empty()
    } else {
        found_in_fields(fields.drop_last(), prefix, start, blocks, hash_type) + found_in_field(
            fields.last(),
            prefix,
            start + fields_wire(fields.drop_last()).len(),
            blocks,
            hash_type,
        )
    }
}

/// The references in one field, written at `position`: the field itself
/// where it holds a reference to a known block, or those of the messages
/// nested in it.
pub open spec fn found_in_field(
    field: Field,
    prefix: Seq<usize>,
    position: int,
    blocks: Seq<Vec<u8>>,
    hash_type: u64,
) -> Seq<(Seq<char>, Seq<usize>)>
    decreases field,
{
    match field.value {
        FieldValue::Scalar(_) => Seq::empty(),
        FieldValue::Text(_) => Seq::empty(),
        FieldValue::Bytes(bytes) => match referenced_hash(bytes@, blocks, hash_type) {
            Some(hash) => seq![(hex_string(hash), prefix.push((position + 1) as usize))],
            None => Seq::empty(),
        },
        FieldValue::Message(inner) => found_in_nested(inner, prefix, position, blocks, hash_type),
        FieldValue::Repeated(elements) => found_in_elements(
            field.tag,
            elements@,
            prefix,
            position,
            blocks,
            hash_type,
        ),
    }
}

/// The references in a nested message whose tag byte is written at
/// `position`: its length prefix, one byte on, extends the path, and its
/// fields start where the prefix ends.
pub open spec fn found_in_nested(
    inner: ProtobufMessageWithBlockPointers,
    prefix: Seq<usize>,
    position: int,
    blocks: Seq<Vec<u8>>,
    hash_type: u64,
) -> Seq<(Seq<char>, Seq<usize>)>
    decreases inner, 1int,
{
    found_in_message(
        inner,
        prefix.push((position + 1) as usize),
        position + 1 + varint_len(inner.wire().len()),
        blocks,
        hash_type,
    )
}

/// The references in the elements of a repeated field, the first of which
/// is written at `position`.
pub open spec fn found_in_elements(
    tag: u8,
    elements: Seq<ProtobufMessageWithBlockPointers>,
    prefix: Seq<usize>,
    position: int,
    blocks: Seq<Vec<u8>>,
    hash_type: u64,
) -> Seq<(Seq<char>, Seq<usize>)>
    decreases elements,
{
    if elements.len() == 0 {
        Seq::empty()
    } else {
        found_in_elements(tag, elements.drop_last(), prefix, position, blocks, hash_type)
            + found_in_nested(
            elements.last(),
            prefix,
            position + elements_wire(tag, elements.drop_last()).len(),
            blocks,
            hash_type,
        )
    }
}

/// `path` with `offset` after it.
pub fn extend_path(path: &Vec<usize>, offset: usize) -> (longer: Vec<usize>)
    ensures
        longer@ == path@.push(offset),
{
    let mut longer: Vec<usize> = Vec::new();
    longer.extend_from_slice(path.as_slice());
    longer.push(offset);
    assert(longer@ =~= path@.push(offset));
    longer
}

/// Walks a nested message whose tag byte is written at `position`, and
/// gives the position just past it.
fn search_nested(
    inner: &ProtobufMessageWithBlockPointers,
    pointers: &Vec<usize>,
    position: usize,
    blocks: &[Vec<u8>],
    env: &Environment,
    container: &mut Vec<Pointer>,
) -> (next: usize)
    requires
        position + delimited(0, inner.wire()).len() <= usize::MAX,
    ensures
        next == position + delimited(0, inner.wire()).len(),
        pointers_view(final(container)@) == pointers_view(old(container)@) + found_in_nested(
            *inner,
            pointers@,
            position as int,
            blocks@,
            env.hash_type,
        ),
    decreases inner, 1int,
{
    proof {
        lemma_delimited_len(0, inner.wire());
    }
    let inner_len = inner.encoded_len();
    let prefix_len = encode_bytes(inner_len as u64).len();
    search_on_message(
        inner,
        extend_path(pointers, position + 1),
        position + 1 + prefix_len,
        blocks,
        env,
        container,
    );
    position + 1 + prefix_len + inner_len
}

/// Walks `message`, written from `initial_position` on, and appends to
/// `container` every place at which it refers to one of `blocks`, each with
/// the block's name and with `pointers` before the offsets found here.
pub fn search_on_message(
    message: &ProtobufMessageWithBlockPointers,
    pointers: Vec<usize>,
    initial_position: usize,
    blocks: &[Vec<u8>],
    env: &Environment,
    container: &mut Vec<Pointer>,
)
    requires
        initial_position + message.wire().len() <= usize::MAX,
    ensures
        pointers_view(final(container)@) == pointers_view(old(container)@) + found_in_message(
            *message,
            pointers@,
            initial_position as int,
            blocks@,
            env.hash_type,
        ),
    decreases message, 0int,
{
    let mut position: usize = initial_position;
    let mut i: usize = 0;
    let ghost fields = message.fields@;
    proof {
        assert(pointers_view(container@) =~= pointers_view(old(container)@) + found_in_fields(
            fields.take(0),
            pointers@,
            initial_position as int,
            blocks@,
            env.hash_type,
        ));
    }
    while i < message.fields.len()
        invariant
            i <= message.fields.len(),
            fields == message.fields@,
            initial_position + fields_wire(fields).len() <= usize::MAX,
            position == initial_position + fields_wire(fields.take(i as int)).len(),
            pointers_view(container@) == pointers_view(old(container)@) + found_in_fields(
                fields.take(i as int),
                pointers@,
                initial_position as int,
                blocks@,
                env.hash_type,
            ),
        decreases message.fields.len() - i,
    {
        let field = &message.fields[i];
        let ghost before = pointers_view(container@);
        let ghost earlier = found_in_fields(
            fields.take(i as int),
            pointers@,
            initial_position as int,
            blocks@,
            env.hash_type,
        );
        proof {
            lemma_fields_wire_take(fields, i as int);
            lemma_fields_wire_prefix(fields, i as int + 1);
            assert(fields.take(i as int + 1).drop_last() =~= fields.take(i as int));
            assert(fields.take(i as int + 1).last() == *field);
        }
        match &field.value {
            FieldValue::Scalar(raw) => {
                position = position + 1 + raw.len();
            },
            FieldValue::Text(text) => {
                proof {
                    lemma_delimited_len(field.tag, text@);
                }
                position = position + 1 + encode_bytes(text.len() as u64).len() + text.len();
            },
            FieldValue::Bytes(bytes) => {
                proof {
                    lemma_delimited_len(field.tag, bytes@);
                }
                if is_block(bytes.as_slice(), blocks, env) {
                    if let Some(block) = BufferBlock::decode(bytes.as_slice()) {
                        if let Ok(block_hash) = get_hash(&block, env) {
                            let list_of_pointers = extend_path(&pointers, position + 1);
                            let pointer = Pointer { hash: block_hash, path: list_of_pointers };
                            proof {
                                assert(pointers_view(container@.push(pointer)) =~= before
                                    + seq![pointer@]);
                            }
                            container.push(pointer);
                        }
                    }
                }
                position = position + 1 + encode_bytes(bytes.len() as u64).len() + bytes.len();
            },
            FieldValue::Message(inner) => {
                proof {
                    lemma_delimited_len(field.tag, inner.wire());
                    lemma_delimited_len(0, inner.wire());
                }
                position = search_nested(inner, &pointers, position, blocks, env, container);
            },
            FieldValue::Repeated(elements) => {
                let ghost first = position as int;
                let mut j: usize = 0;
                proof {
                    assert(pointers_view(container@) =~= before + found_in_elements(
                        field.tag,
                        elements@.take(0),
                        pointers@,
                        first,
                        blocks@,
                        env.hash_type,
                    ));
                }
                while j < elements.len()
                    invariant
                        j <= elements.len(),
                        i < message.fields.len(),
                        *field == message.fields[i as int],
                        field.value == FieldValue::Repeated(*elements),
                        first + elements_wire(field.tag, elements@).len() <= usize::MAX,
                        position == first + elements_wire(
                            field.tag,
                            elements@.take(j as int),
                        ).len(),
                        pointers_view(container@) == before + found_in_elements(
                            field.tag,
                            elements@.take(j as int),
                            pointers@,
                            first,
                            blocks@,
                            env.hash_type,
                        ),
                    decreases elements.len() - j,
                {
                    let element = &elements[j];
                    proof {
                        lemma_element_is_smaller(*message, i as int, j as int);
                        lemma_elements_wire_take(field.tag, elements@, j as int);
                        lemma_elements_wire_prefix(field.tag, elements@, j as int + 1);
                        lemma_delimited_len(field.tag, element.wire());
                        lemma_delimited_len(0, element.wire());
                        assert(elements@.take(j as int + 1).drop_last() =~= elements@.take(
                            j as int,
                        ));
                        assert(elements@.take(j as int + 1).last() == *element);
                    }
                    position = search_nested(element, &pointers, position, blocks, env, container);
                    j += 1;
                }
                proof {
                    assert(elements@.take(j as int) == elements@);
                }
            },
        }
        i += 1;
        proof {
            assert(pointers_view(container@) =~= pointers_view(old(container)@) + (earlier
                + found_in_field(
                *field,
                pointers@,
                initial_position + fields_wire(fields.take(i as int - 1)).len(),
                blocks@,
                env.hash_type,
            )));
        }
    }
    proof {
        assert(fields.take(i as int) == fields);
    }
}

} // verus!
