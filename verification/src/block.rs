//! Block references: the placeholder that stands in a message for a block,
//! its wire form, and the test that tells a reference from opaque bytes.
//!
//! A reference is a message whose field 1 repeats a hash entry; a hash entry
//! holds the algorithm tag as varint field 1 and the digest as bytes field 2.
//! Fields with other numbers are passed over.

use vstd::prelude::*;
use vstd::slice::slice_subrange;
use crate::error::BuildError;
use crate::varint::{read_varint, read_varint_spec};

verus! {

/// The settings that every component is handed: where blocks are kept and
/// which hash algorithm names them.
pub struct Environment {
    pub block_dir: String,
    pub hash_type: u64,
}

impl Environment {
    /// The settings with this block directory and this hash algorithm.
    pub fn new(block_dir: String, hash_type: u64) -> (env: Environment)
        ensures
            env.block_dir == block_dir,
            env.hash_type == hash_type,
    {
        Environment { block_dir, hash_type }
    }

    /// The directory in which blocks are stored.
    pub fn block_dir(&self) -> (dir: &String)
        ensures
            *dir == self.block_dir,
    {
        &self.block_dir
    }

    /// The tag of the hash algorithm that names blocks.
    pub fn hash_type(&self) -> (tag: u64)
        ensures
            tag == self.hash_type,
    {
        self.hash_type
    }
}

/// One hash of a block: the algorithm's tag and the digest.
#[derive(Debug, Clone, PartialEq, Eq)]
pub struct BlockHash {
    pub hash_type: u64,
    pub value: Vec<u8>,
}

/// A block reference: the hashes that identify one block.
#[derive(Debug, Clone, PartialEq, Eq)]
pub struct BufferBlock {
    pub hashes: Vec<BlockHash>,
}

impl View for BlockHash {
    type V = (u64, Seq<u8>);

    open spec fn view(&self) -> (u64, Seq<u8>) {
        (self.hash_type, self.value@)
    }
}

impl View for BufferBlock {
    type V = Seq<(u64, Seq<u8>)>;

    open spec fn view(&self) -> Seq<(u64, Seq<u8>)> {
        self.hashes@.map_values(|h: BlockHash| h@)
    }
}

/// The field number, the wire type and the index just past the key that
/// starts at `pos`. Only the wire types 0 (varint), 1 (eight bytes),
/// 2 (length-delimited) and 5 (four bytes) are accepted.
pub open spec fn read_key(buf: Seq<u8>, pos: int) -> Option<(u64, u64, int)> {
    match read_varint_spec(buf, pos) {
        Ok((key, end)) => if key <= u32::MAX && key / 8 >= 1 && (key % 8 == 0 || key % 8 == 1
            || key % 8 == 2 || key % 8 == 5) {
            Some((key / 8, key % 8, end as int))
        } else {
            None
        },
        Err(_) => None,
    }
}

/// The bounds of the payload whose length prefix starts at `pos`.
pub open spec fn read_delimited(buf: Seq<u8>, pos: int) -> Option<(int, int)> {
    match read_varint_spec(buf, pos) {
        Ok((len, start)) => if start + len <= buf.len() {
            Some((start as int, start + len))
        } else {
            None
        },
        Err(_) => None,
    }
}

/// The index just past the value of wire type `wire_type` that starts at `pos`.
pub open spec fn skip_value(buf: Seq<u8>, pos: int, wire_type: u64) -> Option<int> {
    if wire_type == 0 {
        match read_varint_spec(buf, pos) {
            Ok((_, end)) => Some(end as int),
            Err(_) => None,
        }
    } else if wire_type == 1 {
        if pos + 8 <= buf.len() {
            Some(pos + 8)
        } else {
            None
        }
    } else if wire_type == 2 {
        match read_delimited(buf, pos) {
            Some((_, end)) => Some(end),
            None => None,
        }
    } else if wire_type == 5 {
        if pos + 4 <= buf.len() {
            Some(pos + 4)
        } else {
            None
        }
    } else {
        None
    }
}

/// The hash entry that the fields from `pos` on complete, starting from `acc`.
/// A later occurrence of a field replaces an earlier one.
pub open spec fn parse_hash_from(buf: Seq<u8>, pos: int, acc: (u64, Seq<u8>)) -> Option<
    (u64, Seq<u8>),
>
    decreases buf.len() - pos,
{
    if pos >= buf.len() {
        Some(acc)
    } else {
        match read_key(buf, pos) {
            None => None,
            Some((number, wire_type, next)) => if next <= pos {
                None
            } else if number == 1 {
                match read_varint_spec(buf, next) {
                    Ok((tag, end)) => if wire_type == 0 && next < end <= buf.len() {
                        parse_hash_from(buf, end as int, (tag, acc.1))
                    } else {
                        None
                    },
                    Err(_) => None,
                }
            } else if number == 2 {
                match read_delimited(buf, next) {
                    Some((start, end)) => if wire_type == 2 && next < end <= buf.len() {
                        parse_hash_from(buf, end, (acc.0, buf.subrange(start, end)))
                    } else {
                        None
                    },
                    None => None,
                }
            } else {
                match skip_value(buf, next, wire_type) {
                    Some(end) => if next <= end <= buf.len() {
                        parse_hash_from(buf, end, acc)
                    } else {
                        None
                    },
                    None => None,
                }
            },
        }
    }
}

/// The hash entry that `buf` encodes, if it encodes one.
pub open spec fn parse_hash(buf: Seq<u8>) -> Option<(u64, Seq<u8>)> {
    parse_hash_from(buf, 0, (0, Seq::empty()))
}

/// The hashes that the fields from `pos` on add to `acc`.
pub open spec fn parse_block_from(buf: Seq<u8>, pos: int, acc: Seq<(u64, Seq<u8>)>) -> Option<
    Seq<(u64, Seq<u8>)>,
>
    decreases buf.len() - pos,
{
    if pos >= buf.len() {
        Some(acc)
    } else {
        match read_key(buf, pos) {
            None => None,
            Some((number, wire_type, next)) => if next <= pos {
                None
            } else if number == 1 {
                match read_delimited(buf, next) {
                    Some((start, end)) => if wire_type == 2 && next < end <= buf.len() {
                        match parse_hash(buf.subrange(start, end)) {
                            Some(hash) => parse_block_from(buf, end, acc.push(hash)),
                            None => None,
                        }
                    } else {
                        None
                    },
                    None => None,
                }
            } else {
                match skip_value(buf, next, wire_type) {
                    Some(end) => if next <= end <= buf.len() {
                        parse_block_from(buf, end, acc)
                    } else {
                        None
                    },
                    None => None,
                }
            },
        }
    }
}

/// The block reference that `buf` encodes, if it encodes one.
pub open spec fn parse_block(buf: Seq<u8>) -> Option<Seq<(u64, Seq<u8>)>> {
    parse_block_from(buf, 0, Seq::empty())
}

/// The digest of the first hash with tag `hash_type`.
pub open spec fn selected_hash(hashes: Seq<(u64, Seq<u8>)>, hash_type: u64) -> Option<Seq<u8>>
    decreases hashes.len(),
{
    if hashes.len() == 0 {
        None
    } else if hashes[0].0 == hash_type {
        Some(hashes[0].1)
    } else {
        selected_hash(hashes.drop_first(), hash_type)
    }
}

/// Whether `hash` is one of the known hashes, byte for byte.
pub open spec fn known_contains(blocks: Seq<Vec<u8>>, hash: Seq<u8>) -> bool {
    exists|i: int| 0 <= i < blocks.len() && #[trigger] blocks[i]@ == hash
}

/// The digest by which `bytes` refers to a known block, if it does: `bytes`
/// parses as a block reference, carries a hash of the configured algorithm,
/// and that hash is among `blocks`.
pub open spec fn referenced_hash(bytes: Seq<u8>, blocks: Seq<Vec<u8>>, hash_type: u64) -> Option<
    Seq<u8>,
> {
    match parse_block(bytes) {
        None => None,
        Some(hashes) => match selected_hash(hashes, hash_type) {
            None => None,
            Some(hash) => if known_contains(blocks, hash) {
                Some(hash)
            } else {
                None
            },
        },
    }
}

/// Whether `bytes` is a reference to a known block.
pub open spec fn is_block_spec(bytes: Seq<u8>, blocks: Seq<Vec<u8>>, hash_type: u64) -> bool {
    referenced_hash(bytes, blocks, hash_type) is Some
}

/// The lower-case hexadecimal digit for a value below sixteen.
pub open spec fn hex_digit(nibble: int) -> char {
    seq!['0', '1', '2', '3', '4', '5', '6', '7', '8', '9', 'a', 'b', 'c', 'd', 'e', 'f'][nibble]
}

/// Two lower-case hexadecimal digits for each byte, the high half first.
pub open spec fn hex_string(data: Seq<u8>) -> Seq<char> {
    Seq::new(
        2 * data.len(),
        |i: int|
            hex_digit(
                if i % 2 == 0 {
                    data[i / 2] as int / 16
                } else {
                    data[i / 2] as int % 16
                },
            ),
    )
}

/// `hex::encode` on a byte slice. The crate documents and its source
/// shows: lower-case digits, two for each byte in order, the high half of
/// the byte first.
#[verifier::external_body]
fn hex_encode(data: &[u8]) -> (text: String)
    ensures
        text@ == hex_string(data@),
{
    hex::encode(data)
}

/// Reads the key of a field at `pos`.
fn decode_key(buffer: &[u8], pos: usize) -> (r: Option<(u64, u64, usize)>)
    ensures
        match read_key(buffer@, pos as int) {
            Some((number, wire_type, next)) => r == Some((number, wire_type, next as usize))
                && pos < next <= buffer@.len(),
            None => r is None,
        },
{
    match read_varint(buffer, pos) {
        Ok((key, end)) => {
            let wire_type: u64 = key % 8;
            if key <= u32::MAX as u64 && key / 8 >= 1 && (wire_type == 0 || wire_type == 1
                || wire_type == 2 || wire_type == 5) {
                Some((key / 8, wire_type, end))
            } else {
                None
            }
        },
        Err(_) => None,
    }
}

/// Reads the length prefix at `pos` and gives the bounds of the payload.
fn decode_delimited(buffer: &[u8], pos: usize) -> (r: Option<(usize, usize)>)
    ensures
        match read_delimited(buffer@, pos as int) {
            Some((start, end)) => r == Some((start as usize, end as usize)) && pos < start <= end
                <= buffer@.len(),
            None => r is None,
        },
{
    match read_varint(buffer, pos) {
        Ok((len, start)) => {
            if len <= (buffer.len() - start) as u64 {
                Some((start, start + len as usize))
            } else {
                None
            }
        },
        Err(_) => None,
    }
}

/// Passes over the value of wire type `wire_type` at `pos`.
fn skip_field(buffer: &[u8], pos: usize, wire_type: u64) -> (r: Option<usize>)
    requires
        pos <= buffer@.len(),
    ensures
        match skip_value(buffer@, pos as int, wire_type) {
            Some(end) => r == Some(end as usize) && pos <= end <= buffer@.len(),
            None => r is None,
        },
{
    if wire_type == 0 {
        match read_varint(buffer, pos) {
            Ok((_, end)) => Some(end),
            Err(_) => None,
        }
    } else if wire_type == 1 {
        if buffer.len() - pos >= 8 {
            Some(pos + 8)
        } else {
            None
        }
    } else if wire_type == 2 {
        match decode_delimited(buffer, pos) {
            Some((_, end)) => Some(end),
            None => None,
        }
    } else if wire_type == 5 {
        if buffer.len() - pos >= 4 {
            Some(pos + 4)
        } else {
            None
        }
    } else {
        None
    }
}

impl BlockHash {
    /// Reads a hash entry from its wire form.
    pub fn decode(bytes: &[u8]) -> (r: Option<BlockHash>)
        ensures
            match parse_hash(bytes@) {
                Some(hash) => r is Some && r.unwrap()@ == hash,
                None => r is None,
            },
    {
        let mut hash_type: u64 = 0;
        let mut value: Vec<u8> = Vec::new();
        let mut pos: usize = 0;
        while pos < bytes.len()
            invariant
                pos <= bytes.len(),
                parse_hash(bytes@) == parse_hash_from(bytes@, pos as int, (hash_type, value@)),
            decreases bytes.len() - pos,
        {
            match decode_key(bytes, pos) {
                None => {
                    return None;
                },
                Some((number, wire_type, next)) => {
                    if number == 1 {
                        if wire_type != 0 {
                            return None;
                        }
                        match read_varint(bytes, next) {
                            Ok((tag, end)) => {
                                hash_type = tag;
                                pos = end;
                            },
                            Err(_) => {
                                return None;
                            },
                        }
                    } else if number == 2 {
                        if wire_type != 2 {
                            return None;
                        }
                        match decode_delimited(bytes, next) {
                            Some((start, end)) => {
                                value = slice_to_owned(slice_subrange(bytes, start, end));
                                pos = end;
                            },
                            None => {
                                return None;
                            },
                        }
                    } else {
                        match skip_field(bytes, next, wire_type) {
                            Some(end) => {
                                pos = end;
                            },
                            None => {
                                return None;
                            },
                        }
                    }
                },
            }
        }
        Some(BlockHash { hash_type, value })
    }
}

/// A copy of `bytes`.
pub fn slice_to_owned(bytes: &[u8]) -> (copy: Vec<u8>)
    ensures
        copy@ == bytes@,
{
    let mut copy: Vec<u8> = Vec::new();
    copy.extend_from_slice(bytes);
    assert(copy@ =~= bytes@);
    copy
}

impl BufferBlock {
    /// Reads a block reference from its wire form.
    pub fn decode(bytes: &[u8]) -> (r: Option<BufferBlock>)
        ensures
            match parse_block(bytes@) {
                Some(hashes) => r is Some && r.unwrap()@ == hashes,
                None => r is None,
            },
    {
        let mut hashes: Vec<BlockHash> = Vec::new();
        let mut pos: usize = 0;
        assert(hashes@.map_values(|h: BlockHash| h@) =~= Seq::empty());
        while pos < bytes.len()
            invariant
                pos <= bytes.len(),
                parse_block(bytes@) == parse_block_from(
                    bytes@,
                    pos as int,
                    hashes@.map_values(|h: BlockHash| h@),
                ),
            decreases bytes.len() - pos,
        {
            match decode_key(bytes, pos) {
                None => {
                    return None;
                },
                Some((number, wire_type, next)) => {
                    if number == 1 {
                        if wire_type != 2 {
                            return None;
                        }
                        match decode_delimited(bytes, next) {
                            Some((start, end)) => {
                                match BlockHash::decode(slice_subrange(bytes, start, end)) {
                                    Some(hash) => {
                                        assert(hashes@.push(hash).map_values(|h: BlockHash| h@)
                                            =~= hashes@.map_values(|h: BlockHash| h@).push(
                                            hash@,
                                        ));
                                        hashes.push(hash);
                                        pos = end;
                                    },
                                    None => {
                                        return None;
                                    },
                                }
                            },
                            None => {
                                return None;
                            },
                        }
                    } else {
                        match skip_field(bytes, next, wire_type) {
                            Some(end) => {
                                pos = end;
                            },
                            None => {
                                return None;
                            },
                        }
                    }
                },
            }
        }
        Some(BufferBlock { hashes })
    }

    /// The position of the first hash of the algorithm `hash_type`.
    pub fn find_hash(&self, hash_type: u64) -> (r: Option<usize>)
        ensures
            match selected_hash(self@, hash_type) {
                Some(hash) => r is Some && r.unwrap() < self.hashes.len()
                    && self.hashes[r.unwrap() as int].value@ == hash,
                None => r is None,
            },
    {
        let mut i: usize = 0;
        assert(self@.skip(0) =~= self@);
        while i < self.hashes.len()
            invariant
                i <= self.hashes.len(),
                selected_hash(self@, hash_type) == selected_hash(self@.skip(i as int), hash_type),
            decreases self.hashes.len() - i,
        {
            if self.hashes[i].hash_type == hash_type {
                assert(self@.skip(i as int)[0] == self.hashes[i as int]@);
                return Some(i);
            }
            assert(self@.skip(i as int).drop_first() =~= self@.skip(i as int + 1));
            assert(self@.skip(i as int)[0] == self.hashes[i as int]@);
            i += 1;
        }
        None
    }
}

/// The hexadecimal name of the block that `block` refers to: the digest of
/// its first hash of the configured algorithm.
pub fn get_hash(block: &BufferBlock, env: &Environment) -> (r: Result<String, BuildError>)
    ensures
        match selected_hash(block@, env.hash_type) {
            Some(hash) => r is Ok && r.unwrap()@ == hex_string(hash),
            None => r == Err::<String, BuildError>(BuildError::HashTypeUnavailable),
        },
{
    match block.find_hash(env.hash_type) {
        Some(i) => Ok(hex_encode(block.hashes[i].value.as_slice())),
        None => Err(BuildError::HashTypeUnavailable),
    }
}

/// Whether `hash` is among `blocks`.
pub fn contains_hash(blocks: &[Vec<u8>], hash: &[u8]) -> (found: bool)
    ensures
        found == known_contains(blocks@, hash@),
{
    let mut i: usize = 0;
    while i < blocks.len()
        invariant
            i <= blocks.len(),
            forall|k: int| 0 <= k < i ==> #[trigger] blocks@[k]@ != hash@,
        decreases blocks.len() - i,
    {
        if bytes_equal(blocks[i].as_slice(), hash) {
            return true;
        }
        i += 1;
    }
    false
}

/// Whether two byte strings are the same.
pub fn bytes_equal(a: &[u8], b: &[u8]) -> (same: bool)
    ensures
        same == (a@ == b@),
{
    if a.len() != b.len() {
        return false;
    }
    let mut i: usize = 0;
    while i < a.len()
        invariant
            i <= a.len(),
            a.len() == b.len(),
            forall|k: int| 0 <= k < i ==> a@[k] == b@[k],
        decreases a.len() - i,
    {
        if a[i] != b[i] {
            return false;
        }
        i += 1;
    }
    assert(a@ =~= b@);
    true
}

/// Tells a reference to a known block from opaque bytes: `bytes_obj` must
/// parse as a block reference, and its hash of the configured algorithm must
/// be one of `blocks`.
pub fn is_block(bytes_obj: &[u8], blocks: &[Vec<u8>], env: &Environment) -> (found: bool)
    ensures
        found == is_block_spec(bytes_obj@, blocks@, env.hash_type),
{
    match BufferBlock::decode(bytes_obj) {
        Some(block) => match block.find_hash(env.hash_type) {
            Some(i) => contains_hash(blocks, block.hashes[i].value.as_slice()),
            None => false,
        },
        None => false,
    }
}

} // verus!
