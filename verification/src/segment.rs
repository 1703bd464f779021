//! Segmentation: the buffer with its length prefixes rewritten to the real
//! lengths, cut before and after every block reference.

use vstd::prelude::*;
use vstd::slice::slice_subrange;
use crate::lengths::{LengthEntry, RealLengths};
use crate::varint::{encode_bytes, lemma_varint_len_bounds, varint_bytes, varint_len};

verus! {

/// Where reading resumes after `entry`: just past the varint of its length
/// in the buffer, and for a block reference past the reference as well.
pub open spec fn resume_at(entry: LengthEntry) -> int {
    entry.offset + varint_len(entry.info.compressed_length as nat) + if entry.info.is_leaf {
        entry.info.compressed_length as int
    } else {
        0
    }
}

/// Whether the regions of `entries` lie one after another from `cursor` on
/// and end inside a buffer of `buffer_len` bytes.
pub open spec fn regions_fit(buffer_len: int, entries: Seq<LengthEntry>, cursor: int) -> bool
    decreases entries.len(),
{
    if entries.len() == 0 {
        cursor <= buffer_len
    } else {
        cursor <= entries[0].offset && regions_fit(
            buffer_len,
            entries.drop_first(),
            resume_at(entries[0]),
        )
    }
}

/// The segments that are still to come when reading stands at `cursor` and
/// `pending` holds the segment in progress. Up to each offset the buffer is
/// taken over as it is; the varint there gives way to that of the real
/// length; a block reference is left out and ends the segment.
pub open spec fn segments_from(
    buffer: Seq<u8>,
    entries: Seq<LengthEntry>,
    cursor: int,
    pending: Seq<u8>,
) -> Seq<Seq<u8>>
    decreases entries.len(),
{
    if entries.len() == 0 {
        seq![pending + buffer.subrange(cursor, buffer.len() as int)]
    } else {
        let entry = entries[0];
        let grown = pending + buffer.subrange(cursor, entry.offset as int) + varint_bytes(
            entry.info.real_length as nat,
        );
        if entry.info.is_leaf {
            seq![grown] + segments_from(
                buffer,
                entries.drop_first(),
                resume_at(entry),
                Seq::empty(),
            )
        } else {
            segments_from(buffer, entries.drop_first(), resume_at(entry), grown)
        }
    }
}

/// The segments of `buffer` under `entries`.
pub open spec fn segments(buffer: Seq<u8>, entries: Seq<LengthEntry>) -> Seq<Seq<u8>> {
    segments_from(buffer, entries, 0, Seq::empty())
}

/// The number of block references among `entries`.
pub open spec fn leaf_count(entries: Seq<LengthEntry>) -> nat
    decreases entries.len(),
{
    if entries.len() == 0 {
        0
    } else if entries[0].info.is_leaf {
        1 + leaf_count(entries.drop_first())
    } else {
        leaf_count(entries.drop_first())
    }
}

/// The byte strings that a list of segments holds.
pub open spec fn segments_view(list: Seq<Vec<u8>>) -> Seq<Seq<u8>> {
    list.map_values(|segment: Vec<u8>| segment@)
}

/// There is one segment more than there are block references.
pub proof fn lemma_segment_count(
    buffer: Seq<u8>,
    entries: Seq<LengthEntry>,
    cursor: int,
    pending: Seq<u8>,
)
    ensures
        segments_from(buffer, entries, cursor, pending).len() == leaf_count(entries) + 1,
    decreases entries.len(),
{
    if entries.len() > 0 {
        let entry = entries[0];
        let grown = pending + buffer.subrange(cursor, entry.offset as int) + varint_bytes(
            entry.info.real_length as nat,
        );
        if entry.info.is_leaf {
            lemma_segment_count(buffer, entries.drop_first(), resume_at(entry), Seq::empty());
        } else {
            lemma_segment_count(buffer, entries.drop_first(), resume_at(entry), grown);
        }
    }
}

/// Regions that fit end inside the buffer.
pub proof fn lemma_regions_end_inside(buffer_len: int, entries: Seq<LengthEntry>, cursor: int)
    requires
        regions_fit(buffer_len, entries, cursor),
    ensures
        cursor <= buffer_len,
    decreases entries.len(),
{
    if entries.len() > 0 {
        lemma_regions_end_inside(buffer_len, entries.drop_first(), resume_at(entries[0]));
        lemma_varint_len_bounds(entries[0].info.compressed_length as nat);
    }
}

/// Whether the regions of `lengths` lie one after another inside a buffer of
/// `buffer_len` bytes, so that the buffer can be cut along them.
pub fn fits_buffer(buffer_len: usize, lengths: &RealLengths) -> (fits: bool)
    ensures
        fits == regions_fit(buffer_len as int, lengths.entries@, 0),
{
    let mut cursor: usize = 0;
    let mut k: usize = 0;
    assert(lengths.entries@.skip(0) =~= lengths.entries@);
    while k < lengths.entries.len()
        invariant
            k <= lengths.entries.len(),
            regions_fit(buffer_len as int, lengths.entries@, 0) == regions_fit(
                buffer_len as int,
                lengths.entries@.skip(k as int),
                cursor as int,
            ),
        decreases lengths.entries.len() - k,
    {
        let entry = lengths.entries[k];
        let ghost rest = lengths.entries@.skip(k as int);
        proof {
            assert(rest[0] == entry);
            assert(rest.drop_first() =~= lengths.entries@.skip(k as int + 1));
            lemma_varint_len_bounds(entry.info.compressed_length as nat);
            if resume_at(entry) > buffer_len && regions_fit(
                buffer_len as int,
                rest.drop_first(),
                resume_at(entry),
            ) {
                lemma_regions_end_inside(buffer_len as int, rest.drop_first(), resume_at(entry));
            }
        }
        if cursor > entry.offset || entry.offset >= buffer_len {
            return false;
        }
        let room = buffer_len - entry.offset;
        let prefix = encode_bytes(entry.info.compressed_length as u64).len();
        if prefix > room {
            return false;
        }
        if entry.info.is_leaf {
            if entry.info.compressed_length > room - prefix {
                return false;
            }
            cursor = entry.offset + prefix + entry.info.compressed_length;
        } else {
            cursor = entry.offset + prefix;
        }
        k += 1;
    }
    cursor <= buffer_len
}

/// Rewrites the length prefixes of `buffer` to the real lengths and cuts it
/// at every block reference. The references themselves are left out: the
/// blocks take their place between the segments.
pub fn generate_buffer(buffer: &[u8], lengths: &RealLengths) -> (list_of_bytes: Vec<Vec<u8>>)
    requires
        regions_fit(buffer@.len() as int, lengths.entries@, 0),
    ensures
        segments_view(list_of_bytes@) == segments(buffer@, lengths.entries@),
        list_of_bytes@.len() == leaf_count(lengths.entries@) + 1,
{
    let mut list_of_bytes: Vec<Vec<u8>> = Vec::new();
    let mut new_buff: Vec<u8> = Vec::new();
    let buffer_len = buffer.len();
    let mut i: usize = 0;
    let mut k: usize = 0;
    proof {
        assert(lengths.entries@.skip(0) =~= lengths.entries@);
        assert(segments_view(list_of_bytes@) =~= Seq::<Seq<u8>>::empty());
        assert(segments_view(list_of_bytes@) + segments_from(
            buffer@,
            lengths.entries@,
            0,
            new_buff@,
        ) =~= segments(buffer@, lengths.entries@));
    }
    while k < lengths.entries.len()
        invariant
            k <= lengths.entries.len(),
            buffer_len == buffer@.len(),
            regions_fit(buffer@.len() as int, lengths.entries@.skip(k as int), i as int),
            segments(buffer@, lengths.entries@) == segments_view(list_of_bytes@) + segments_from(
                buffer@,
                lengths.entries@.skip(k as int),
                i as int,
                new_buff@,
            ),
        decreases lengths.entries.len() - k,
    {
        let entry = lengths.entries[k];
        let ghost rest = lengths.entries@.skip(k as int);
        let ghost done = segments_view(list_of_bytes@);
        let ghost pending = new_buff@;
        let ghost cursor = i as int;
        proof {
            assert(rest[0] == entry);
            assert(rest.drop_first() =~= lengths.entries@.skip(k as int + 1));
            lemma_regions_end_inside(buffer@.len() as int, rest.drop_first(), resume_at(entry));
            lemma_varint_len_bounds(entry.info.compressed_length as nat);
        }
        new_buff.extend_from_slice(slice_subrange(buffer, i, entry.offset));
        let real_prefix = encode_bytes(entry.info.real_length as u64);
        new_buff.extend_from_slice(real_prefix.as_slice());
        assert(new_buff@ =~= pending + buffer@.subrange(cursor, entry.offset as int) + varint_bytes(
            entry.info.real_length as nat,
        ));
        let old_prefix = encode_bytes(entry.info.compressed_length as u64);
        assert(old_prefix@.len() == varint_len(entry.info.compressed_length as nat));
        assert(regions_fit(buffer@.len() as int, rest.drop_first(), resume_at(entry)));
        assert(resume_at(entry) <= buffer@.len());
        i = entry.offset + old_prefix.len();
        if entry.info.is_leaf {
            i += entry.info.compressed_length;
            proof {
                assert(segments_view(list_of_bytes@.push(new_buff)) =~= done + seq![new_buff@]);
            }
            list_of_bytes.push(new_buff);
            new_buff = Vec::new();
            assert(segments(buffer@, lengths.entries@) =~= segments_view(list_of_bytes@)
                + segments_from(buffer@, rest.drop_first(), i as int, new_buff@));
        }
        k += 1;
    }
    let ghost done = segments_view(list_of_bytes@);
    let ghost pending = new_buff@;
    proof {
        lemma_regions_end_inside(buffer@.len() as int, lengths.entries@.skip(k as int), i as int);
    }
    new_buff.extend_from_slice(slice_subrange(buffer, i, buffer_len));
    assert(new_buff@ =~= pending + buffer@.subrange(i as int, buffer@.len() as int));
    proof {
        assert(segments_view(list_of_bytes@.push(new_buff)) =~= done + seq![new_buff@]);
        lemma_segment_count(buffer@, lengths.entries@, 0, Seq::empty());
    }
    list_of_bytes.push(new_buff);
    list_of_bytes
}

/// A copy of `buff`.
pub fn purify_buffer(buff: &[u8]) -> (copy: Vec<u8>)
    ensures
        copy@ == buff@,
{
    let mut copy: Vec<u8> = Vec::new();
    copy.extend_from_slice(buff);
    assert(copy@ =~= buff@);
    copy
}

} // verus!
