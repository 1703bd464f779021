//! Unsigned variable-width integers: seven bits per byte, least significant
//! group first, the high bit of a byte set when another byte follows.

use vstd::prelude::*;
use crate::error::BuildError;

verus! {

/// The number of bytes in the shortest encoding of `n`.
pub open spec fn varint_len(n: nat) -> nat
    decreases n,
{
    if n < 128 {
        1
    } else {
        1 + varint_len(n / 128)
    }
}

/// The shortest encoding of `n`.
pub open spec fn varint_bytes(n: nat) -> Seq<u8>
    decreases n,
{
    if n < 128 {
        seq![n as u8]
    } else {
        seq![(n % 128 + 128) as u8] + varint_bytes(n / 128)
    }
}

/// The index just past the terminator byte of the varint that starts at
/// `pos`, or `None` where the buffer ends before a terminator.
pub open spec fn varint_end(buf: Seq<u8>, pos: int) -> Option<int>
    decreases buf.len() - pos,
{
    if pos < 0 || pos >= buf.len() {
        None
    } else if buf[pos] < 128 {
        Some(pos + 1)
    } else {
        varint_end(buf, pos + 1)
    }
}

/// The number that the varint starting at `pos` stands for, read up to its
/// terminator or to the end of the buffer.
pub open spec fn varint_value(buf: Seq<u8>, pos: int) -> nat
    decreases buf.len() - pos,
{
    if pos < 0 || pos >= buf.len() {
        0
    } else if buf[pos] < 128 {
        buf[pos] as nat
    } else {
        ((buf[pos] - 128) + 128 * varint_value(buf, pos + 1)) as nat
    }
}

/// What decoding at `pos` yields: the value, `TruncatedVarint` where no
/// terminator follows, `LengthOverflow` where the value exceeds `usize`.
pub open spec fn decode_varint(buf: Seq<u8>, pos: int) -> Result<usize, BuildError> {
    if varint_end(buf, pos) is None {
        Err(BuildError::TruncatedVarint)
    } else if varint_value(buf, pos) > usize::MAX {
        Err(BuildError::LengthOverflow)
    } else {
        Ok(varint_value(buf, pos) as usize)
    }
}

/// An encoding has at least one byte, at most ten for a number of 64 bits,
/// and as many as `varint_len` says.
pub proof fn lemma_varint_len_bounds(n: nat)
    ensures
        1 <= varint_len(n),
        n <= u64::MAX ==> varint_len(n) <= 10,
        varint_bytes(n).len() == varint_len(n),
    decreases n,
{
    if n >= 128 {
        lemma_varint_len_bounds(n / 128);
        if n <= u64::MAX {
            reveal_with_fuel(varint_len, 11);
        }
    }
}

/// Encodes `n` in the fewest bytes.
pub fn encode_bytes(n: u64) -> (buf: Vec<u8>)
    ensures
        buf@ == varint_bytes(n as nat),
        1 <= buf@.len() <= 10,
{
    let mut buf: Vec<u8> = Vec::new();
    let mut rest: u64 = n;
    proof {
        lemma_varint_len_bounds(n as nat);
    }
    loop
        invariant
            buf@ + varint_bytes(rest as nat) == varint_bytes(n as nat),
            varint_bytes(n as nat).len() <= 10,
        decreases rest,
    {
        let low: u64 = rest & 0x7f;
        let next: u64 = rest >> 7;
        assert(low == rest % 128 && next == rest / 128) by (bit_vector)
            requires
                low == rest & 0x7f,
                next == rest >> 7,
        ;
        if next != 0 {
            let towrite: u8 = (low | 0x80) as u8;
            assert(low | 0x80 == low + 128) by (bit_vector)
                requires
                    low < 128,
            ;
            proof {
                assert(varint_bytes(rest as nat) == seq![towrite] + varint_bytes(next as nat));
                assert(buf@.push(towrite) + varint_bytes(next as nat) == buf@ + varint_bytes(
                    rest as nat,
                ));
            }
            buf.push(towrite);
            rest = next;
        } else {
            let towrite: u8 = low as u8;
            proof {
                assert(varint_bytes(rest as nat) == seq![towrite]);
                assert(buf@.push(towrite) == buf@ + varint_bytes(rest as nat));
            }
            buf.push(towrite);
            return buf;
        }
    }
}

/// What reading at `pos` yields with 64 bits for the value: the value and
/// the index just past the terminator byte.
pub open spec fn read_varint_spec(buf: Seq<u8>, pos: int) -> Result<(u64, usize), BuildError> {
    match varint_end(buf, pos) {
        None => Err(BuildError::TruncatedVarint),
        Some(end) => if varint_value(buf, pos) > u64::MAX {
            Err(BuildError::LengthOverflow)
        } else {
            Ok((varint_value(buf, pos) as u64, end as usize))
        },
    }
}

/// Reads the varint that starts at `pos` in `buffer` and says where it ends.
pub fn read_varint(buffer: &[u8], pos: usize) -> (r: Result<(u64, usize), BuildError>)
    ensures
        r == read_varint_spec(buffer@, pos as int),
        r matches Ok((_, end)) ==> pos < end <= buffer@.len(),
{
    let mut end: usize = pos;
    while end < buffer.len() && buffer[end] & 0x80 != 0
        invariant
            pos <= end,
            varint_end(buffer@, pos as int) == varint_end(buffer@, end as int),
            forall|j: int| pos <= j < end ==> buffer@[j] >= 128,
        decreases buffer.len() - end,
    {
        let byte: u8 = buffer[end];
        assert(byte & 0x80 != 0 <==> byte >= 128) by (bit_vector);
        end += 1;
    }
    if end >= buffer.len() {
        return Err(BuildError::TruncatedVarint);
    }
    let last: u8 = buffer[end];
    assert(last & 0x80 != 0 <==> last >= 128) by (bit_vector);
    let mut value: u64 = last as u64;
    let mut overflow: bool = false;
    let mut idx: usize = end;
    while idx > pos
        invariant
            pos <= idx <= end < buffer.len(),
            forall|j: int| pos <= j < end ==> buffer@[j] >= 128,
            !overflow ==> value == varint_value(buffer@, idx as int),
            overflow ==> varint_value(buffer@, idx as int) > u64::MAX,
        decreases idx,
    {
        idx -= 1;
        let byte: u8 = buffer[idx];
        let group: u64 = (byte & 0x7f) as u64;
        assert(byte >= 128 ==> byte & 0x7f == byte - 128) by (bit_vector);
        if !overflow {
            if value > (u64::MAX - group) / 128 {
                overflow = true;
            } else {
                value = value * 128 + group;
            }
        }
    }
    if overflow {
        Err(BuildError::LengthOverflow)
    } else {
        Ok((value, end + 1))
    }
}

/// Reads the varint that starts at `varint_pos` in `buffer`.
pub fn get_position_length(varint_pos: usize, buffer: &[u8]) -> (r: Result<usize, BuildError>)
    ensures
        r == decode_varint(buffer@, varint_pos as int),
{
    match read_varint(buffer, varint_pos) {
        Ok((value, _)) => {
            if value > usize::MAX as u64 {
                Err(BuildError::LengthOverflow)
            } else {
                Ok(value as usize)
            }
        },
        Err(e) => Err(e),
    }
}

/// Decoding what `encode_bytes` wrote gives the number back, wherever the
/// encoding stands in a buffer.
pub proof fn lemma_varint_round_trip(n: nat, before: Seq<u8>, after: Seq<u8>)
    ensures
        varint_end(before + varint_bytes(n) + after, before.len() as int) == Some(
            (before.len() + varint_len(n)) as int,
        ),
        varint_value(before + varint_bytes(n) + after, before.len() as int) == n,
    decreases n,
{
    let buf = before + varint_bytes(n) + after;
    let pos = before.len() as int;
    lemma_varint_len_bounds(n);
    if n < 128 {
        assert(buf[pos] == varint_bytes(n)[0]);
    } else {
        let head = seq![(n % 128 + 128) as u8];
        assert(buf[pos] == varint_bytes(n)[0]);
        assert(buf =~= (before + head) + varint_bytes(n / 128) + after);
        lemma_varint_round_trip(n / 128, before + head, after);
        lemma_varint_len_bounds(n / 128);
    }
}

/// `get_position_length` undoes `encode_bytes` on every number that fits in
/// a machine word.
pub proof fn lemma_decode_encoded(n: u64)
    ensures
        n <= usize::MAX ==> decode_varint(varint_bytes(n as nat), 0) == Ok::<usize, BuildError>(
            n as usize,
        ),
        n > usize::MAX ==> decode_varint(varint_bytes(n as nat), 0) == Err::<usize, BuildError>(
            BuildError::LengthOverflow,
        ),
{
    lemma_varint_round_trip(n as nat, Seq::empty(), Seq::empty());
    assert(Seq::<u8>::empty() + varint_bytes(n as nat) + Seq::<u8>::empty() =~= varint_bytes(
        n as nat,
    ));
}

/// A buffer cut anywhere before the terminator byte of a varint no longer
/// holds that varint.
pub proof fn lemma_cut_varint_is_truncated(buf: Seq<u8>, pos: int, cut: int)
    requires
        0 <= pos <= cut <= buf.len(),
        varint_end(buf, pos) is Some ==> cut < varint_end(buf, pos).unwrap(),
    ensures
        decode_varint(buf.take(cut), pos) == Err::<usize, BuildError>(BuildError::TruncatedVarint),
    decreases cut - pos,
{
    let short = buf.take(cut);
    if pos < cut {
        assert(short[pos] == buf[pos]);
        if buf[pos] >= 128 {
            lemma_cut_varint_is_truncated(buf, pos + 1, cut);
        }
    }
}

/// No encoding of a number is shorter than the one that `encode_bytes` writes.
pub proof fn lemma_encoding_is_shortest(buf: Seq<u8>, pos: int)
    requires
        varint_end(buf, pos) is Some,
    ensures
        varint_end(buf, pos).unwrap() - pos >= varint_len(varint_value(buf, pos)),
    decreases buf.len() - pos,
{
    if buf[pos] >= 128 {
        lemma_encoding_is_shortest(buf, pos + 1);
        let rest = varint_value(buf, pos + 1);
        let n = varint_value(buf, pos);
        assert(n == (buf[pos] - 128) + 128 * rest);
        if n >= 128 {
            assert(n / 128 == rest);
        }
    }
}

} // verus!
