//! The second walk: the same fields in the same order, with one cursor over
//! the buffer and one over the real object, in which every block stands in
//! place of its reference and every length prefix states the real length.

use vstd::prelude::*;
use crate::block::{get_hash, hex_string, is_block, referenced_hash, BufferBlock, Environment};
use crate::error::BuildError;
use crate::lengths::{checked_footprint, footprint, LengthInfo, RealLengths};
use crate::locator::extend_path;
use crate::message::{
    delimited, elements_wire, field_wire, fields_wire, lemma_delimited_len,
    lemma_element_is_smaller, lemma_elements_wire_prefix, lemma_elements_wire_take,
    lemma_fields_wire_prefix, lemma_fields_wire_take, Field, FieldValue,
    ProtobufMessageWithBlockPointers,
};
use crate::store::{block_length, get_block_length, BlockRecord, BlockStore};
use crate::tree::{pointers_view, Pointer};
use crate::varint::{encode_bytes, lemma_varint_len_bounds, varint_len};

verus! {

/// What the walk is held against.
pub ghost struct WalkContext {
    /// The hashes of the known blocks.
    pub blocks: Seq<Vec<u8>>,
    /// The tag of the hash algorithm that names blocks.
    pub hash_type: u64,
    /// The blocks that the store holds.
    pub store: Seq<BlockRecord>,
    /// The reconciled lengths by offset in the buffer.
    pub lengths: Map<usize, LengthInfo>,
}

/// How far a walk has come.
pub ghost struct RealWalk {
    /// The references found, each with its path in the real object.
    pub found: Seq<(Seq<char>, Seq<usize>)>,
    /// The cursor over the real object.
    pub real_position: nat,
}

/// The real cursor `len` bytes on, or `LengthOverflow` where that exceeds `usize`.
pub open spec fn advance(walk: RealWalk, more: Seq<(Seq<char>, Seq<usize>)>, len: nat) -> Result<
    RealWalk,
    BuildError,
> {
    if walk.real_position + len > usize::MAX {
        Err(BuildError::LengthOverflow)
    } else {
        Ok(RealWalk { found: walk.found + more, real_position: walk.real_position + len })
    }
}

/// The walk over `message`, written from `start` on in the buffer and from
/// `walk.real_position` on in the real object.
pub open spec fn real_in_message(
    message: ProtobufMessageWithBlockPointers,
    prefix: Seq<usize>,
    start: int,
    walk: RealWalk,
    context: WalkContext,
) -> Result<RealWalk, BuildError>
    decreases message, 0int,
{
    real_in_fields(message.fields@, prefix, start, walk, context)
}

/// The walk over `fields`, in order. The first failure ends it.
#[verifier::opaque]
pub open spec fn real_in_fields(
    fields: Seq<Field>,
    prefix: Seq<usize>,
    start: int,
    walk: RealWalk,
    context: WalkContext,
) -> Result<RealWalk, BuildError>
    decreases fields, 0int,
{
    if fields.len() == 0 {
        Ok(walk)
    } else {
        match real_in_fields(fields.drop_last(), prefix, start, walk, context) {
            Err(e) => Err(e),
            Ok(earlier) => real_in_field(
                fields.last(),
                prefix,
                start + fields_wire(fields.drop_last()).len(),
                earlier,
                context,
            ),
        }
    }
}

/// The walk over one field, written at `position` in the buffer. A
/// reference to a known block is recorded at the real cursor, and the real
/// cursor passes over the block in its place; the length of the block comes
/// from the store. Any other field that is no message takes the same room
/// in both.
#[verifier::opaque]
pub open spec fn real_in_field(
    field: Field,
    prefix: Seq<usize>,
    position: int,
    walk: RealWalk,
    context: WalkContext,
) -> Result<RealWalk, BuildError>
    decreases field, 0int,
{
    match field.value {
        FieldValue::Scalar(_) => advance(walk, Seq::empty(), field_wire(field).len()),
        FieldValue::Text(_) => advance(walk, Seq::empty(), field_wire(field).len()),
        FieldValue::Bytes(bytes) => match referenced_hash(
            bytes@,
            context.blocks,
            context.hash_type,
        ) {
            None => advance(walk, Seq::empty(), field_wire(field).len()),
            Some(hash) => match block_length(context.store, hex_string(hash)) {
                Err(e) => Err(e),
                Ok(len) => advance(
                    walk,
                    seq![(hex_string(hash), prefix.push((walk.real_position + 1) as usize))],
                    footprint(len),
                ),
            },
        },
        FieldValue::Message(inner) => real_in_nested(inner, prefix, position, walk, context),
        FieldValue::Repeated(elements) => real_in_elements(
            field.tag,
            elements@,
            prefix,
            position,
            walk,
            context,
        ),
    }
}

/// The walk over a nested message whose tag byte is written at `position`.
/// Where the offset of its length prefix has no reconciled length, nothing
/// below it refers to a block, and it takes the same room in both.
/// Otherwise its real length is the reconciled one, and the walk goes on
/// inside it, the real cursor past the prefix of that length.
#[verifier::opaque]
pub open spec fn real_in_nested(
    inner: ProtobufMessageWithBlockPointers,
    prefix: Seq<usize>,
    position: int,
    walk: RealWalk,
    context: WalkContext,
) -> Result<RealWalk, BuildError>
    decreases inner, 1int,
{
    let key = (position + 1) as usize;
    if !context.lengths.contains_key(key) {
        advance(walk, Seq::empty(), delimited(0, inner.wire()).len())
    } else {
        let size = context.lengths[key].real_length;
        if walk.real_position + footprint(size) > usize::MAX {
            Err(BuildError::LengthOverflow)
        } else {
            match real_in_message(
                inner,
                prefix.push((walk.real_position + 1) as usize),
                position + 1 + varint_len(inner.wire().len()),
                RealWalk {
                    found: walk.found,
                    real_position: walk.real_position + 1 + varint_len(size as nat),
                },
                context,
            ) {
                Err(e) => Err(e),
                Ok(inside) => Ok(
                    RealWalk {
                        found: inside.found,
                        real_position: walk.real_position + footprint(size),
                    },
                ),
            }
        }
    }
}

/// The walk over the elements of a repeated field, the first of which is
/// written at `position`.
pub open spec fn real_in_elements(
    tag: u8,
    elements: Seq<ProtobufMessageWithBlockPointers>,
    prefix: Seq<usize>,
    position: int,
    walk: RealWalk,
    context: WalkContext,
) -> Result<RealWalk, BuildError>
    decreases elements, 0int,
{
    if elements.len() == 0 {
        Ok(walk)
    } else {
        match real_in_elements(tag, elements.drop_last(), prefix, position, walk, context) {
            Err(e) => Err(e),
            Ok(earlier) => real_in_nested(
                elements.last(),
                prefix,
                position + elements_wire(tag, elements.drop_last()).len(),
                earlier,
                context,
            ),
        }
    }
}

/// The walk over the first `n + 1` fields is the walk over the first `n`
/// and then over the field at index `n`.
pub proof fn lemma_fields_step(
    fields: Seq<Field>,
    n: int,
    prefix: Seq<usize>,
    start: int,
    walk: RealWalk,
    context: WalkContext,
)
    requires
        0 <= n < fields.len(),
    ensures
        real_in_fields(fields.take(n + 1), prefix, start, walk, context) == match real_in_fields(
            fields.take(n),
            prefix,
            start,
            walk,
            context,
        ) {
            Err(e) => Err(e),
            Ok(earlier) => real_in_field(
                fields[n],
                prefix,
                start + fields_wire(fields.take(n)).len(),
                earlier,
                context,
            ),
        },
{
    reveal(real_in_fields);
    reveal(real_in_field);
    assert(fields.take(n + 1).drop_last() =~= fields.take(n));
    assert(fields.take(n + 1).last() == fields[n]);
}

/// A walk over nothing stays where it is.
pub proof fn lemma_walk_start(
    tag: u8,
    fields: Seq<Field>,
    elements: Seq<ProtobufMessageWithBlockPointers>,
    prefix: Seq<usize>,
    start: int,
    walk: RealWalk,
    context: WalkContext,
)
    ensures
        real_in_fields(fields.take(0), prefix, start, walk, context) == Ok::<RealWalk, BuildError>(
            walk,
        ),
        real_in_elements(tag, elements.take(0), prefix, start, walk, context) == Ok::<
            RealWalk,
            BuildError,
        >(walk),
{
    reveal(real_in_fields);
    reveal(real_in_elements);
}

/// The walk over a message is the walk over its fields.
pub proof fn lemma_message_walk(
    message: ProtobufMessageWithBlockPointers,
    prefix: Seq<usize>,
    start: int,
    walk: RealWalk,
    context: WalkContext,
)
    ensures
        real_in_message(message, prefix, start, walk, context) == real_in_fields(
            message.fields@,
            prefix,
            start,
            walk,
            context,
        ),
{
    reveal(real_in_fields);
}

/// The walk over a repeated field is the walk over its elements.
pub proof fn lemma_repeated_walk(
    field: Field,
    prefix: Seq<usize>,
    position: int,
    walk: RealWalk,
    context: WalkContext,
)
    requires
        field.value is Repeated,
    ensures
        real_in_field(field, prefix, position, walk, context) == real_in_elements(
            field.tag,
            field.value->Repeated_0@,
            prefix,
            position,
            walk,
            context,
        ),
{
    reveal(real_in_field);
    reveal(real_in_elements);
}

/// The walk over the first `n + 1` elements is the walk over the first `n`
/// and then over the element at index `n`.
pub proof fn lemma_elements_step(
    tag: u8,
    elements: Seq<ProtobufMessageWithBlockPointers>,
    n: int,
    prefix: Seq<usize>,
    position: int,
    walk: RealWalk,
    context: WalkContext,
)
    requires
        0 <= n < elements.len(),
    ensures
        real_in_elements(tag, elements.take(n + 1), prefix, position, walk, context)
            == match real_in_elements(tag, elements.take(n), prefix, position, walk, context) {
            Err(e) => Err(e),
            Ok(earlier) => real_in_nested(
                elements[n],
                prefix,
                position + elements_wire(tag, elements.take(n)).len(),
                earlier,
                context,
            ),
        },
{
    reveal(real_in_elements);
    reveal(real_in_nested);
    assert(elements.take(n + 1).drop_last() =~= elements.take(n));
    assert(elements.take(n + 1).last() == elements[n]);
}

/// Once the walk over the first `n` fields has failed, the walk over all of
/// them fails in the same way.
pub proof fn lemma_fields_failure_lasts(
    fields: Seq<Field>,
    n: int,
    prefix: Seq<usize>,
    start: int,
    walk: RealWalk,
    context: WalkContext,
)
    requires
        0 <= n <= fields.len(),
    ensures
        real_in_fields(fields.take(n), prefix, start, walk, context) matches Err(e)
            ==> real_in_fields(fields, prefix, start, walk, context) == Err::<
            RealWalk,
            BuildError,
        >(e),
    decreases fields.len() - n,
{
    if n < fields.len() {
        lemma_fields_step(fields, n, prefix, start, walk, context);
        lemma_fields_failure_lasts(fields, n + 1, prefix, start, walk, context);
    } else {
        assert(fields.take(n) == fields);
    }
}

/// Once the walk over the first `n` elements has failed, the walk over all
/// of them fails in the same way.
pub proof fn lemma_elements_failure_lasts(
    tag: u8,
    elements: Seq<ProtobufMessageWithBlockPointers>,
    n: int,
    prefix: Seq<usize>,
    position: int,
    walk: RealWalk,
    context: WalkContext,
)
    requires
        0 <= n <= elements.len(),
    ensures
        real_in_elements(tag, elements.take(n), prefix, position, walk, context) matches Err(e)
            ==> real_in_elements(tag, elements, prefix, position, walk, context) == Err::<
            RealWalk,
            BuildError,
        >(e),
    decreases elements.len() - n,
{
    if n < elements.len() {
        lemma_elements_step(tag, elements, n, prefix, position, walk, context);
        lemma_elements_failure_lasts(tag, elements, n + 1, prefix, position, walk, context);
    } else {
        assert(elements.take(n) == elements);
    }
}

/// The real cursor `len` bytes on.
fn step(real_position: usize, len: usize) -> (r: Result<usize, BuildError>)
    ensures
        r == if real_position + len > usize::MAX {
            Err::<usize, BuildError>(BuildError::LengthOverflow)
        } else {
            Ok::<usize, BuildError>((real_position + len) as usize)
        },
{
    if len > usize::MAX - real_position {
        Err(BuildError::LengthOverflow)
    } else {
        Ok(real_position + len)
    }
}

/// Whether `r` is what the walk `expected` comes to: the cursors past what
/// was walked and the references in `found`, or the same failure.
pub open spec fn walk_agrees(
    expected: Result<RealWalk, BuildError>,
    r: Result<(usize, usize), BuildError>,
    next_position: int,
    found: Seq<(Seq<char>, Seq<usize>)>,
) -> bool {
    match expected {
        Ok(walk) => r == Ok::<(usize, usize), BuildError>(
            (next_position as usize, walk.real_position as usize),
        ) && walk.real_position <= usize::MAX && next_position <= usize::MAX && found
            == walk.found,
        Err(e) => r == Err::<(usize, usize), BuildError>(e),
    }
}

/// Walks a nested message whose tag byte is written at `position`, and
/// gives both cursors just past it.
fn real_nested(
    inner: &ProtobufMessageWithBlockPointers,
    pointers: &Vec<usize>,
    position: usize,
    real_position: usize,
    blocks: &[Vec<u8>],
    env: &Environment,
    store: &BlockStore,
    container: &mut Vec<Pointer>,
    real_lengths: &RealLengths,
) -> (r: Result<(usize, usize), BuildError>)
    requires
        position + delimited(0, inner.wire()).len() <= usize::MAX,
        real_lengths.well_formed(),
    ensures
        walk_agrees(
            real_in_nested(
                *inner,
                pointers@,
                position as int,
                RealWalk {
                    found: pointers_view(old(container)@),
                    real_position: real_position as nat,
                },
                WalkContext {
                    blocks: blocks@,
                    hash_type: env.hash_type,
                    store: store.records@,
                    lengths: real_lengths@,
                },
            ),
            r,
            position + delimited(0, inner.wire()).len(),
            pointers_view(final(container)@),
        ),
    decreases inner, 4int,
{
    proof {
        reveal(real_in_nested);
        reveal(real_in_fields);
        lemma_delimited_len(0, inner.wire());
    }
    let inner_len = inner.encoded_len();
    let prefix_len = encode_bytes(inner_len as u64).len();
    let next_position = position + 1 + prefix_len + inner_len;
    match real_lengths.get(position + 1) {
        None => {
            assert(pointers_view(container@) + Seq::<(Seq<char>, Seq<usize>)>::empty()
                =~= pointers_view(container@));
            match step(real_position, 1 + prefix_len + inner_len) {
                Err(e) => Err(e),
                Ok(real_next) => Ok((next_position, real_next)),
            }
        },
        Some(info) => {
            let message_size = info.real_length;
            let real_next = match checked_footprint(message_size) {
                None => {
                    return Err(BuildError::LengthOverflow);
                },
                Some(size) => match step(real_position, size) {
                    Err(e) => {
                        return Err(e);
                    },
                    Ok(next) => next,
                },
            };
            proof {
                lemma_varint_len_bounds(message_size as nat);
            }
            match search_on_message_real(
                inner,
                extend_path(pointers, real_position + 1),
                position + 1 + prefix_len,
                real_position + 1 + encode_bytes(message_size as u64).len(),
                blocks,
                env,
                store,
                container,
                real_lengths,
            ) {
                Err(e) => Err(e),
                Ok(()) => Ok((next_position, real_next)),
            }
        },
    }
}

/// Walks the elements of the repeated field at index `i` of `message`.
fn real_elements(
    message: &ProtobufMessageWithBlockPointers,
    i: usize,
    pointers: &Vec<usize>,
    first: usize,
    real_first: usize,
    blocks: &[Vec<u8>],
    env: &Environment,
    store: &BlockStore,
    container: &mut Vec<Pointer>,
    real_lengths: &RealLengths,
) -> (r: Result<(usize, usize), BuildError>)
    requires
        i < message.fields.len(),
        message.fields[i as int].value is Repeated,
        first + field_wire(message.fields[i as int]).len() <= usize::MAX,
        real_lengths.well_formed(),
    ensures
        walk_agrees(
            real_in_field(
                message.fields[i as int],
                pointers@,
                first as int,
                RealWalk { found: pointers_view(old(container)@), real_position: real_first as nat },
                WalkContext {
                    blocks: blocks@,
                    hash_type: env.hash_type,
                    store: store.records@,
                    lengths: real_lengths@,
                },
            ),
            r,
            first + field_wire(message.fields[i as int]).len(),
            pointers_view(final(container)@),
        ),
    decreases message, 0int,
{
    let field = &message.fields[i];
    let ghost here = RealWalk {
        found: pointers_view(old(container)@),
        real_position: real_first as nat,
    };
    let ghost context = WalkContext {
        blocks: blocks@,
        hash_type: env.hash_type,
        store: store.records@,
        lengths: real_lengths@,
    };
    let mut position: usize = first;
    let mut real_position: usize = real_first;
    match &field.value {
        FieldValue::Repeated(elements) => {
            let mut j: usize = 0;
            proof {
                lemma_repeated_walk(*field, pointers@, first as int, here, context);
                lemma_walk_start(
                    field.tag,
                    Seq::empty(),
                    elements@,
                    pointers@,
                    first as int,
                    here,
                    context,
                );
            }
            while j < elements.len()
                invariant
                    j <= elements.len(),
                    here == (RealWalk {
                        found: pointers_view(old(container)@),
                        real_position: real_first as nat,
                    }),
                    real_in_field(*field, pointers@, first as int, here, context)
                        == real_in_elements(
                        field.tag,
                        elements@,
                        pointers@,
                        first as int,
                        here,
                        context,
                    ),
                    i < message.fields.len(),
                    *field == message.fields[i as int],
                    field.value == FieldValue::Repeated(*elements),
                    real_lengths.well_formed(),
                    context == (WalkContext {
                        blocks: blocks@,
                        hash_type: env.hash_type,
                        store: store.records@,
                        lengths: real_lengths@,
                    }),
                    first + elements_wire(field.tag, elements@).len() <= usize::MAX,
                    position == first + elements_wire(field.tag, elements@.take(j as int)).len(),
                    real_in_elements(
                        field.tag,
                        elements@.take(j as int),
                        pointers@,
                        first as int,
                        here,
                        context,
                    ) == Ok::<RealWalk, BuildError>(
                        RealWalk {
                            found: pointers_view(container@),
                            real_position: real_position as nat,
                        },
                    ),
                decreases elements.len() - j,
            {
                let element = &elements[j];
                proof {
                    lemma_element_is_smaller(*message, i as int, j as int);
                    lemma_elements_wire_take(field.tag, elements@, j as int);
                    lemma_elements_wire_prefix(field.tag, elements@, j as int + 1);
                    lemma_delimited_len(field.tag, element.wire());
                    lemma_delimited_len(0, element.wire());
                    lemma_elements_step(
                        field.tag,
                        elements@,
                        j as int,
                        pointers@,
                        first as int,
                        here,
                        context,
                    );
                    lemma_elements_failure_lasts(
                        field.tag,
                        elements@,
                        j as int + 1,
                        pointers@,
                        first as int,
                        here,
                        context,
                    );
                }
                match real_nested(
                    element,
                    pointers,
                    position,
                    real_position,
                    blocks,
                    env,
                    store,
                    container,
                    real_lengths,
                ) {
                    Err(e) => {
                        return Err(e);
                    },
                    Ok((next, real_next)) => {
                        position = next;
                        real_position = real_next;
                    },
                }
                j += 1;
            }
            proof {
                assert(elements@.take(j as int) == elements@);
            }
        },
        _ => {},
    }
    Ok((position, real_position))
}

/// Walks the field at index `i` of `message`, written at `position`.
fn real_field(
    message: &ProtobufMessageWithBlockPointers,
    i: usize,
    pointers: &Vec<usize>,
    position: usize,
    real_position: usize,
    blocks: &[Vec<u8>],
    env: &Environment,
    store: &BlockStore,
    container: &mut Vec<Pointer>,
    real_lengths: &RealLengths,
) -> (r: Result<(usize, usize), BuildError>)
    requires
        i < message.fields.len(),
        position + field_wire(message.fields[i as int]).len() <= usize::MAX,
        real_lengths.well_formed(),
    ensures
        walk_agrees(
            real_in_field(
                message.fields[i as int],
                pointers@,
                position as int,
                RealWalk {
                    found: pointers_view(old(container)@),
                    real_position: real_position as nat,
                },
                WalkContext {
                    blocks: blocks@,
                    hash_type: env.hash_type,
                    store: store.records@,
                    lengths: real_lengths@,
                },
            ),
            r,
            position + field_wire(message.fields[i as int]).len(),
            pointers_view(final(container)@),
        ),
    decreases message, 1int,
{
    let field = &message.fields[i];
    let ghost found = pointers_view(container@);
    proof {
        reveal(real_in_field);
        reveal(real_in_nested);
        reveal(real_in_elements);
        assert(found + Seq::<(Seq<char>, Seq<usize>)>::empty() =~= found);
    }
    match &field.value {
        FieldValue::Scalar(raw) => {
            let size = 1 + raw.len();
            match step(real_position, size) {
                Err(e) => Err(e),
                Ok(real_next) => Ok((position + size, real_next)),
            }
        },
        FieldValue::Text(text) => {
            proof {
                lemma_delimited_len(field.tag, text@);
            }
            let size = 1 + encode_bytes(text.len() as u64).len() + text.len();
            match step(real_position, size) {
                Err(e) => Err(e),
                Ok(real_next) => Ok((position + size, real_next)),
            }
        },
        FieldValue::Bytes(bytes) => {
            proof {
                lemma_delimited_len(field.tag, bytes@);
            }
            let size = 1 + encode_bytes(bytes.len() as u64).len() + bytes.len();
            let mut real_size = size;
            if is_block(bytes.as_slice(), blocks, env) {
                if let Some(block) = BufferBlock::decode(bytes.as_slice()) {
                    if let Ok(block_hash) = get_hash(&block, env) {
                        let block_length = match get_block_length(&block_hash, store) {
                            Err(e) => {
                                return Err(e);
                            },
                            Ok(len) => len,
                        };
                        real_size = match checked_footprint(block_length) {
                            None => {
                                return Err(BuildError::LengthOverflow);
                            },
                            Some(len) => len,
                        };
                        if real_size > usize::MAX - real_position {
                            return Err(BuildError::LengthOverflow);
                        }
                        let pointer = Pointer {
                            hash: block_hash,
                            path: extend_path(pointers, real_position + 1),
                        };
                        proof {
                            assert(pointers_view(container@.push(pointer)) =~= found
                                + seq![pointer@]);
                        }
                        container.push(pointer);
                    }
                }
            }
            match step(real_position, real_size) {
                Err(e) => Err(e),
                Ok(real_next) => Ok((position + size, real_next)),
            }
        },
        FieldValue::Message(inner) => {
            proof {
                lemma_delimited_len(field.tag, inner.wire());
                lemma_delimited_len(0, inner.wire());
            }
            real_nested(
                inner,
                pointers,
                position,
                real_position,
                blocks,
                env,
                store,
                container,
                real_lengths,
            )
        },
        FieldValue::Repeated(_) => real_elements(
            message,
            i,
            pointers,
            position,
            real_position,
            blocks,
            env,
            store,
            container,
            real_lengths,
        ),
    }
}

/// Walks the fields of `message` and gives both cursors just past them.
fn real_fields(
    message: &ProtobufMessageWithBlockPointers,
    pointers: &Vec<usize>,
    initial_position: usize,
    real_initial_position: usize,
    blocks: &[Vec<u8>],
    env: &Environment,
    store: &BlockStore,
    container: &mut Vec<Pointer>,
    real_lengths: &RealLengths,
) -> (r: Result<(usize, usize), BuildError>)
    requires
        initial_position + message.wire().len() <= usize::MAX,
        real_lengths.well_formed(),
    ensures
        walk_agrees(
            real_in_message(
                *message,
                pointers@,
                initial_position as int,
                RealWalk {
                    found: pointers_view(old(container)@),
                    real_position: real_initial_position as nat,
                },
                WalkContext {
                    blocks: blocks@,
                    hash_type: env.hash_type,
                    store: store.records@,
                    lengths: real_lengths@,
                },
            ),
            r,
            initial_position + message.wire().len(),
            pointers_view(final(container)@),
        ),
    decreases message, 2int,
{
    let ghost fields = message.fields@;
    let ghost origin = RealWalk {
        found: pointers_view(old(container)@),
        real_position: real_initial_position as nat,
    };
    let ghost context = WalkContext {
        blocks: blocks@,
        hash_type: env.hash_type,
        store: store.records@,
        lengths: real_lengths@,
    };
    let mut position: usize = initial_position;
    let mut real_position: usize = real_initial_position;
    let mut i: usize = 0;
    proof {
        lemma_message_walk(*message, pointers@, initial_position as int, origin, context);
        lemma_walk_start(
            0,
            fields,
            Seq::empty(),
            pointers@,
            initial_position as int,
            origin,
            context,
        );
    }
    while i < message.fields.len()
        invariant
            i <= message.fields.len(),
            origin == (RealWalk {
                found: pointers_view(old(container)@),
                real_position: real_initial_position as nat,
            }),
            real_in_message(*message, pointers@, initial_position as int, origin, context)
                == real_in_fields(fields, pointers@, initial_position as int, origin, context),
            fields == message.fields@,
            real_lengths.well_formed(),
            context == (WalkContext {
                blocks: blocks@,
                hash_type: env.hash_type,
                store: store.records@,
                lengths: real_lengths@,
            }),
            initial_position + fields_wire(fields).len() <= usize::MAX,
            position == initial_position + fields_wire(fields.take(i as int)).len(),
            real_in_fields(fields.take(i as int), pointers@, initial_position as int, origin, context)
                == Ok::<RealWalk, BuildError>(
                RealWalk {
                    found: pointers_view(container@),
                    real_position: real_position as nat,
                },
            ),
        decreases message.fields.len() - i,
    {
        proof {
            lemma_fields_wire_take(fields, i as int);
            lemma_fields_wire_prefix(fields, i as int + 1);
            lemma_fields_step(fields, i as int, pointers@, initial_position as int, origin, context);
            lemma_fields_failure_lasts(
                fields,
                i as int + 1,
                pointers@,
                initial_position as int,
                origin,
                context,
            );
        }
        match real_field(
            message,
            i,
            pointers,
            position,
            real_position,
            blocks,
            env,
            store,
            container,
            real_lengths,
        ) {
            Err(e) => {
                return Err(e);
            },
            Ok((next, real_next)) => {
                position = next;
                real_position = real_next;
            },
        }
        i += 1;
    }
    proof {
        assert(fields.take(i as int) == fields);
    }
    Ok((position, real_position))
}

/// Walks `message` as `search_on_message` does, the buffer from
/// `initial_position` on and the real object from `real_initial_position`
/// on, and appends to `container` every reference to one of `blocks` with
/// its path in the real object. A nested message without an entry in
/// `real_lengths` is passed over unchanged.
pub fn search_on_message_real(
    message: &ProtobufMessageWithBlockPointers,
    pointers: Vec<usize>,
    initial_position: usize,
    real_initial_position: usize,
    blocks: &[Vec<u8>],
    env: &Environment,
    store: &BlockStore,
    container: &mut Vec<Pointer>,
    real_lengths: &RealLengths,
) -> (r: Result<(), BuildError>)
    requires
        initial_position + message.wire().len() <= usize::MAX,
        real_lengths.well_formed(),
    ensures
        match real_in_message(
            *message,
            pointers@,
            initial_position as int,
            RealWalk {
                found: pointers_view(old(container)@),
                real_position: real_initial_position as nat,
            },
            WalkContext {
                blocks: blocks@,
                hash_type: env.hash_type,
                store: store.records@,
                lengths: real_lengths@,
            },
        ) {
            Ok(walk) => r is Ok && pointers_view(final(container)@) == walk.found,
            Err(e) => r == Err::<(), BuildError>(e),
        },
    decreases message, 3int,
{
    match real_fields(
        message,
        &pointers,
        initial_position,
        real_initial_position,
        blocks,
        env,
        store,
        container,
        real_lengths,
    ) {
        Err(e) => Err(e),
        Ok(_) => Ok(()),
    }
}

} // verus!
