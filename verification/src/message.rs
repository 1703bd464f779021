//! The structured record as a closed tree of fields, and its wire form.
//!
//! Every field starts with one tag byte. A length-delimited field (bytes,
//! text, a nested message) continues with the varint length of its payload
//! and the payload. A scalar field continues with its already encoded value.

use vstd::prelude::*;
use crate::varint::{encode_bytes, lemma_varint_len_bounds, varint_bytes, varint_len};

verus! {

/// What a field of a message holds.
pub enum FieldValue {
    /// A number or another fixed kind of value, kept as its encoded bytes.
    Scalar(Vec<u8>),
    /// A string, as its UTF-8 bytes.
    Text(Vec<u8>),
    /// Opaque bytes, which may be a block reference.
    Bytes(Vec<u8>),
    /// A nested message.
    Message(ProtobufMessageWithBlockPointers),
    /// A repeated nested message: each element is written as a field of its own.
    Repeated(Vec<ProtobufMessageWithBlockPointers>),
}

/// One field of a message: its tag byte and its value.
pub struct Field {
    pub tag: u8,
    pub value: FieldValue,
}

/// A message in compressed form: block references stand in for block content.
pub struct ProtobufMessageWithBlockPointers {
    pub fields: Vec<Field>,
}

/// A tag byte, the varint length of `payload`, and `payload`.
pub open spec fn delimited(tag: u8, payload: Seq<u8>) -> Seq<u8> {
    seq![tag] + varint_bytes(payload.len()) + payload
}

/// The wire form of `fields`, one after another.
pub open spec fn fields_wire(fields: Seq<Field>) -> Seq<u8>
    decreases fields,
{
    if fields.len() == 0 {
        Seq::empty()
    } else {
        fields_wire(fields.drop_last()) + field_wire(fields.last())
    }
}

/// The wire form of one field.
pub open spec fn field_wire(field: Field) -> Seq<u8>
    decreases field,
{
    match field.value {
        FieldValue::Scalar(raw) => seq![field.tag] + raw@,
        FieldValue::Text(text) => delimited(field.tag, text@),
        FieldValue::Bytes(bytes) => delimited(field.tag, bytes@),
        FieldValue::Message(inner) => delimited(field.tag, inner.wire()),
        FieldValue::Repeated(elements) => elements_wire(field.tag, elements@),
    }
}

/// The wire form of the elements of a repeated field.
pub open spec fn elements_wire(tag: u8, elements: Seq<ProtobufMessageWithBlockPointers>) -> Seq<
    u8,
>
    decreases elements,
{
    if elements.len() == 0 {
        Seq::empty()
    } else {
        elements_wire(tag, elements.drop_last()) + delimited(tag, elements.last().wire())
    }
}

/// A length-delimited field takes one byte for its tag, the bytes of its
/// length, and its payload.
pub proof fn lemma_delimited_len(tag: u8, payload: Seq<u8>)
    ensures
        delimited(tag, payload).len() == 1 + varint_len(payload.len()) + payload.len(),
{
    lemma_varint_len_bounds(payload.len());
}

/// The first `i + 1` fields are written as the first `i` and then the field
/// at index `i`.
pub proof fn lemma_fields_wire_take(fields: Seq<Field>, i: int)
    requires
        0 <= i < fields.len(),
    ensures
        fields_wire(fields.take(i + 1)) == fields_wire(fields.take(i)) + field_wire(fields[i]),
        fields.take(fields.len() as int) == fields,
{
    assert(fields.take(i + 1).drop_last() == fields.take(i));
}

/// The first `i + 1` elements are written as the first `i` and then the
/// element at index `i`.
pub proof fn lemma_elements_wire_take(
    tag: u8,
    elements: Seq<ProtobufMessageWithBlockPointers>,
    i: int,
)
    requires
        0 <= i < elements.len(),
    ensures
        elements_wire(tag, elements.take(i + 1)) == elements_wire(tag, elements.take(i))
            + delimited(tag, elements[i].wire()),
        elements.take(elements.len() as int) == elements,
{
    assert(elements.take(i + 1).drop_last() == elements.take(i));
}

/// The first fields of a list take no more bytes than all of them.
pub proof fn lemma_fields_wire_prefix(fields: Seq<Field>, i: int)
    requires
        0 <= i <= fields.len(),
    ensures
        fields_wire(fields.take(i)).len() <= fields_wire(fields).len(),
    decreases fields.len() - i,
{
    if i < fields.len() {
        lemma_fields_wire_take(fields, i);
        lemma_fields_wire_prefix(fields, i + 1);
    } else {
        assert(fields.take(i) == fields);
    }
}

/// The first elements of a list take no more bytes than all of them.
pub proof fn lemma_elements_wire_prefix(
    tag: u8,
    elements: Seq<ProtobufMessageWithBlockPointers>,
    i: int,
)
    requires
        0 <= i <= elements.len(),
    ensures
        elements_wire(tag, elements.take(i)).len() <= elements_wire(tag, elements).len(),
    decreases elements.len() - i,
{
    if i < elements.len() {
        lemma_elements_wire_take(tag, elements, i);
        lemma_elements_wire_prefix(tag, elements, i + 1);
    } else {
        assert(elements.take(i) == elements);
    }
}

/// An element of a repeated field lies strictly inside the message that
/// holds the field, so a recursion that descends into it ends.
pub proof fn lemma_element_is_smaller(message: ProtobufMessageWithBlockPointers, i: int, j: int)
    requires
        0 <= i < message.fields.len(),
        message.fields[i].value is Repeated,
        0 <= j < message.fields[i].value->Repeated_0.len(),
    ensures
        decreases_to!(message => message.fields[i].value->Repeated_0[j]),
{
    let field = message.fields[i];
    assert(decreases_to!(message.fields => message.fields[i]));
    assert(decreases_to!(field.value => field.value->Repeated_0));
    assert(decreases_to!(field.value->Repeated_0 => field.value->Repeated_0[j]));
}

/// Appends a tag byte, the varint length of `payload`, and `payload` to `out`.
pub fn write_delimited(out: &mut Vec<u8>, tag: u8, payload: &[u8])
    ensures
        final(out)@ == old(out)@ + delimited(tag, payload@),
{
    out.push(tag);
    let prefix = encode_bytes(payload.len() as u64);
    out.extend_from_slice(prefix.as_slice());
    out.extend_from_slice(payload);
    assert(out@ =~= old(out)@ + delimited(tag, payload@));
}

impl ProtobufMessageWithBlockPointers {
    /// The bytes that this message is written as.
    pub open spec fn wire(self) -> Seq<u8>
        decreases self,
    {
        fields_wire(self.fields@)
    }

    /// Writes the message out.
    pub fn serialize_to_vec(&self) -> (buf: Vec<u8>)
        ensures
            buf@ == self.wire(),
        decreases self,
    {
        let mut buf: Vec<u8> = Vec::new();
        let mut i: usize = 0;
        while i < self.fields.len()
            invariant
                i <= self.fields.len(),
                buf@ == fields_wire(self.fields@.take(i as int)),
            decreases self.fields.len() - i,
        {
            let field = &self.fields[i];
            proof {
                lemma_fields_wire_take(self.fields@, i as int);
            }
            match &field.value {
                FieldValue::Scalar(raw) => {
                    buf.push(field.tag);
                    buf.extend_from_slice(raw.as_slice());
                    assert(buf@ =~= fields_wire(self.fields@.take(i as int)) + field_wire(*field));
                },
                FieldValue::Text(text) => {
                    write_delimited(&mut buf, field.tag, text.as_slice());
                },
                FieldValue::Bytes(bytes) => {
                    write_delimited(&mut buf, field.tag, bytes.as_slice());
                },
                FieldValue::Message(inner) => {
                    let payload = inner.serialize_to_vec();
                    write_delimited(&mut buf, field.tag, payload.as_slice());
                },
                FieldValue::Repeated(elements) => {
                    let ghost before = buf@;
                    let mut j: usize = 0;
                    while j < elements.len()
                        invariant
                            j <= elements.len(),
                            buf@ == before + elements_wire(field.tag, elements@.take(j as int)),
                            field.value == FieldValue::Repeated(*elements),
                            i < self.fields.len(),
                            *field == self.fields[i as int],
                        decreases elements.len() - j,
                    {
                        proof {
                            lemma_elements_wire_take(field.tag, elements@, j as int);
                        }
                        proof {
                            lemma_element_is_smaller(*self, i as int, j as int);
                        }
                        let payload = elements[j].serialize_to_vec();
                        write_delimited(&mut buf, field.tag, payload.as_slice());
                        j += 1;
                        assert(buf@ =~= before + elements_wire(
                            field.tag,
                            elements@.take(j as int),
                        ));
                    }
                    proof {
                        assert(elements@.take(j as int) == elements@);
                    }
                },
            }
            i += 1;
        }
        proof {
            assert(self.fields@.take(i as int) == self.fields@);
        }
        buf
    }

    /// The number of bytes that this message is written as.
    pub fn encoded_len(&self) -> (len: usize)
        requires
            self.wire().len() <= usize::MAX,
        ensures
            len == self.wire().len(),
        decreases self,
    {
        let mut len: usize = 0;
        let mut i: usize = 0;
        while i < self.fields.len()
            invariant
                i <= self.fields.len(),
                len == fields_wire(self.fields@.take(i as int)).len(),
                fields_wire(self.fields@).len() <= usize::MAX,
            decreases self.fields.len() - i,
        {
            let field = &self.fields[i];
            proof {
                lemma_fields_wire_take(self.fields@, i as int);
                lemma_fields_wire_prefix(self.fields@, i as int + 1);
            }
            match &field.value {
                FieldValue::Scalar(raw) => {
                    len = len + 1 + raw.len();
                },
                FieldValue::Text(text) => {
                    proof {
                        lemma_delimited_len(field.tag, text@);
                    }
                    len = len + 1 + encode_bytes(text.len() as u64).len() + text.len();
                },
                FieldValue::Bytes(bytes) => {
                    proof {
                        lemma_delimited_len(field.tag, bytes@);
                    }
                    len = len + 1 + encode_bytes(bytes.len() as u64).len() + bytes.len();
                },
                FieldValue::Message(inner) => {
                    proof {
                        lemma_delimited_len(field.tag, inner.wire());
                    }
                    let inner_len = inner.encoded_len();
                    len = len + 1 + encode_bytes(inner_len as u64).len() + inner_len;
                },
                FieldValue::Repeated(elements) => {
                    let ghost before = len;
                    let mut j: usize = 0;
                    while j < elements.len()
                        invariant
                            j <= elements.len(),
                            len == before + elements_wire(field.tag, elements@.take(j as int)).len(),
                            before + elements_wire(field.tag, elements@).len() <= usize::MAX,
                            field.value == FieldValue::Repeated(*elements),
                            i < self.fields.len(),
                            *field == self.fields[i as int],
                        decreases elements.len() - j,
                    {
                        proof {
                            lemma_elements_wire_take(field.tag, elements@, j as int);
                            lemma_elements_wire_prefix(field.tag, elements@, j as int + 1);
                            lemma_delimited_len(field.tag, elements[j as int].wire());
                        }
                        proof {
                            lemma_element_is_smaller(*self, i as int, j as int);
                        }
                        let inner_len = elements[j].encoded_len();
                        len = len + 1 + encode_bytes(inner_len as u64).len() + inner_len;
                        j += 1;
                    }
                    proof {
                        assert(elements@.take(j as int) == elements@);
                    }
                },
            }
            i += 1;
        }
        proof {
            assert(self.fields@.take(i as int) == self.fields@);
        }
        len
    }
}

} // verus!
