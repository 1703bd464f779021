//! Length reconciliation: for every offset of the pointer tree, the length
//! that the substructure there has in the buffer and the length that it has
//! once every block reference below it gives way to the block itself.

use vstd::prelude::*;
use crate::error::BuildError;
use crate::store::{block_length, get_block_length, BlockRecord, BlockStore};
use crate::tree::{same_entries, same_node, PointerEntry, PointerNode, PointerTree};
use crate::varint::{
    decode_varint, encode_bytes, get_position_length, lemma_varint_len_bounds, varint_len,
};

verus! {

/// The lengths reconciled for one offset.
#[derive(Debug, Clone, Copy, PartialEq, Eq, Structural)]
pub struct LengthInfo {
    /// The length with every block reference below replaced by its block.
    pub real_length: usize,
    /// The length as the buffer states it.
    pub compressed_length: usize,
    /// Whether the offset is that of a block reference.
    pub is_leaf: bool,
}

/// An offset and the lengths reconciled for it.
#[derive(Debug, Clone, Copy, PartialEq, Eq, Structural)]
pub struct LengthEntry {
    pub offset: usize,
    pub info: LengthInfo,
}

/// The reconciled lengths by ascending offset, no offset twice.
#[derive(Debug, Clone, PartialEq, Eq)]
pub struct RealLengths {
    pub entries: Vec<LengthEntry>,
}

/// Whether the offsets of `entries` ascend strictly.
pub open spec fn lengths_ascend(entries: Seq<LengthEntry>) -> bool {
    forall|i: int, j: int| 0 <= i < j < entries.len() ==> entries[i].offset < entries[j].offset
}

/// The map from offset to lengths that `entries` stand for.
pub open spec fn lengths_view(entries: Seq<LengthEntry>) -> Map<usize, LengthInfo>
    decreases entries.len(),
{
    if entries.len() == 0 {
        Map::empty()
    } else {
        lengths_view(entries.drop_last()).insert(entries.last().offset, entries.last().info)
    }
}

/// `entries` with `entry` at index `i`, in place of the entry there where
/// that one has the same offset.
pub open spec fn put_length(entries: Seq<LengthEntry>, i: int, entry: LengthEntry) -> Seq<
    LengthEntry,
> {
    if i < entries.len() && entries[i].offset == entry.offset {
        entries.update(i, entry)
    } else {
        entries.insert(i, entry)
    }
}

/// An offset that no entry has is no key of the map.
pub proof fn lemma_lengths_absent(entries: Seq<LengthEntry>, offset: usize)
    requires
        forall|j: int| 0 <= j < entries.len() ==> entries[j].offset != offset,
    ensures
        !lengths_view(entries).contains_key(offset),
    decreases entries.len(),
{
    if entries.len() > 0 {
        lemma_lengths_absent(entries.drop_last(), offset);
    }
}

/// The map holds an entry's lengths at the entry's offset, where no later
/// entry has that offset.
pub proof fn lemma_lengths_at(entries: Seq<LengthEntry>, i: int)
    requires
        0 <= i < entries.len(),
        forall|j: int| i < j < entries.len() ==> entries[j].offset != entries[i].offset,
    ensures
        lengths_view(entries).contains_key(entries[i].offset),
        lengths_view(entries)[entries[i].offset] == entries[i].info,
    decreases entries.len(),
{
    if i < entries.len() - 1 {
        lemma_lengths_at(entries.drop_last(), i);
    }
}

/// Putting `entry` at its place among ascending entries keeps the order and
/// inserts into the map.
pub proof fn lemma_put_length(entries: Seq<LengthEntry>, i: int, entry: LengthEntry)
    requires
        lengths_ascend(entries),
        0 <= i <= entries.len(),
        forall|j: int| 0 <= j < i ==> entries[j].offset < entry.offset,
        forall|j: int| i <= j < entries.len() ==> entries[j].offset >= entry.offset,
    ensures
        lengths_ascend(put_length(entries, i, entry)),
        lengths_view(put_length(entries, i, entry)) == lengths_view(entries).insert(
            entry.offset,
            entry.info,
        ),
    decreases entries.len(),
{
    let after = put_length(entries, i, entry);
    let present = i < entries.len() && entries[i].offset == entry.offset;
    assert forall|a: int, b: int| 0 <= a < b < after.len() implies after[a].offset
        < after[b].offset by {
        if present {
            assert(after[a].offset == entries[a].offset);
            assert(after[b].offset == entries[b].offset);
        } else {
            if a < i && b > i {
                assert(after[a] == entries[a] && after[b] == entries[b - 1]);
            } else if a > i {
                assert(after[a] == entries[a - 1] && after[b] == entries[b - 1]);
            } else if b < i {
                assert(after[a] == entries[a] && after[b] == entries[b]);
            } else if a == i {
                assert(after[b] == entries[b - 1]);
            }
        }
    }
    if entries.len() == 0 {
        assert(after.drop_last() =~= entries);
    } else {
        let front = entries.drop_last();
        if i == entries.len() {
            assert(after.drop_last() =~= entries);
        } else if i == entries.len() - 1 && present {
            assert(after.drop_last() =~= front);
        } else {
            assert(after.drop_last() =~= put_length(front, i, entry));
            assert(after.last() == entries.last());
            lemma_put_length(front, i, entry);
        }
    }
    assert(lengths_view(after) =~= lengths_view(entries).insert(entry.offset, entry.info));
}

impl RealLengths {
    /// The table as a map from offset to lengths.
    pub open spec fn view(self) -> Map<usize, LengthInfo> {
        lengths_view(self.entries@)
    }

    /// Whether the offsets ascend strictly.
    pub open spec fn well_formed(self) -> bool {
        lengths_ascend(self.entries@)
    }

    /// The table without entries.
    pub fn new() -> (table: RealLengths)
        ensures
            table.well_formed(),
            table@ == Map::<usize, LengthInfo>::empty(),
            table.entries@.len() == 0,
    {
        RealLengths { entries: Vec::new() }
    }

    /// The index of the first entry whose offset is not below `offset`.
    fn position_of(&self, offset: usize) -> (i: usize)
        requires
            self.well_formed(),
        ensures
            i <= self.entries.len(),
            forall|j: int| 0 <= j < i ==> self.entries[j].offset < offset,
            forall|j: int| i <= j < self.entries.len() ==> self.entries[j].offset >= offset,
    {
        let mut i: usize = 0;
        while i < self.entries.len() && self.entries[i].offset < offset
            invariant
                i <= self.entries.len(),
                lengths_ascend(self.entries@),
                forall|j: int| 0 <= j < i ==> self.entries[j].offset < offset,
            decreases self.entries.len() - i,
        {
            i += 1;
        }
        i
    }

    /// Sets the lengths of `offset`, in place of what it had.
    pub fn insert(&mut self, offset: usize, info: LengthInfo)
        requires
            old(self).well_formed(),
        ensures
            final(self).well_formed(),
            final(self)@ == old(self)@.insert(offset, info),
    {
        let i = self.position_of(offset);
        let entry = LengthEntry { offset, info };
        proof {
            lemma_put_length(self.entries@, i as int, entry);
        }
        if i < self.entries.len() && self.entries[i].offset == offset {
            self.entries.set(i, entry);
        } else {
            self.entries.insert(i, entry);
        }
    }

    /// The lengths of `offset`, if it has any.
    pub fn get(&self, offset: usize) -> (r: Option<LengthInfo>)
        requires
            self.well_formed(),
        ensures
            r == if self@.contains_key(offset) {
                Some(self@[offset])
            } else {
                None
            },
    {
        let i = self.position_of(offset);
        if i < self.entries.len() && self.entries[i].offset == offset {
            proof {
                lemma_lengths_at(self.entries@, i as int);
            }
            Some(self.entries[i].info)
        } else {
            proof {
                lemma_lengths_absent(self.entries@, offset);
            }
            None
        }
    }

    /// Whether `offset` has lengths.
    pub fn contains_key(&self, offset: usize) -> (found: bool)
        requires
            self.well_formed(),
        ensures
            found == self@.contains_key(offset),
    {
        self.get(offset).is_some()
    }

    /// Takes over every entry of `other`, in place of what the offset had.
    pub fn extend(&mut self, other: &RealLengths)
        requires
            old(self).well_formed(),
        ensures
            final(self).well_formed(),
            final(self)@ == old(self)@.union_prefer_right(other@),
    {
        let mut j: usize = 0;
        assert(self@ =~= old(self)@.union_prefer_right(lengths_view(other.entries@.take(0))));
        while j < other.entries.len()
            invariant
                j <= other.entries.len(),
                self.well_formed(),
                self@ == old(self)@.union_prefer_right(lengths_view(other.entries@.take(j as int))),
            decreases other.entries.len() - j,
        {
            let entry = other.entries[j];
            proof {
                assert(other.entries@.take(j as int + 1).drop_last() =~= other.entries@.take(
                    j as int,
                ));
            }
            self.insert(entry.offset, entry.info);
            j += 1;
            assert(self@ =~= old(self)@.union_prefer_right(
                lengths_view(other.entries@.take(j as int)),
            ));
        }
        assert(other.entries@.take(j as int) == other.entries@);
    }
}

/// The bytes that a substructure of `len` bytes takes up in its parent: its
/// tag byte, the varint of its length, and itself.
pub open spec fn footprint(len: usize) -> nat {
    len as nat + varint_len(len as nat) + 1
}

/// What one level of the tree adds up to.
pub ghost struct Tally {
    /// The footprints of the entries at their real lengths.
    pub real_sum: int,
    /// The footprints of the entries at their lengths in the buffer.
    pub compressed_sum: int,
    /// The lengths of every offset at this level and below.
    pub lengths: Map<usize, LengthInfo>,
}

/// The tally of `entries`, taken in order. The first failure ends it.
pub open spec fn entries_tally(
    entries: Seq<PointerEntry>,
    buffer: Seq<u8>,
    store: Seq<BlockRecord>,
) -> Result<Tally, BuildError>
    decreases entries, 0int,
{
    if entries.len() == 0 {
        Ok(Tally { real_sum: 0, compressed_sum: 0, lengths: Map::empty() })
    } else {
        match entries_tally(entries.drop_last(), buffer, store) {
            Err(e) => Err(e),
            Ok(tally) => match entry_lengths(entries.last(), buffer, store) {
                Err(e) => Err(e),
                Ok((info, below)) => {
                    let real_sum = tally.real_sum + footprint(info.real_length);
                    let compressed_sum = tally.compressed_sum + footprint(info.compressed_length);
                    if real_sum > usize::MAX || compressed_sum > usize::MAX {
                        Err(BuildError::LengthOverflow)
                    } else {
                        Ok(
                            Tally {
                                real_sum,
                                compressed_sum,
                                lengths: tally.lengths.insert(
                                    entries.last().offset,
                                    info,
                                ).union_prefer_right(below),
                            },
                        )
                    }
                },
            },
        }
    }
}

/// The lengths of one entry, and the lengths of every offset below it. The
/// length in the buffer is the varint at the entry's offset. The real length
/// of a leaf is the length of its block; that of an internal node is
/// reconciled from the level below.
pub open spec fn entry_lengths(entry: PointerEntry, buffer: Seq<u8>, store: Seq<BlockRecord>)
    -> Result<(LengthInfo, Map<usize, LengthInfo>), BuildError>
    decreases entry, 0int,
{
    match decode_varint(buffer, entry.offset as int) {
        Err(e) => Err(e),
        Ok(compressed_length) => match entry.node {
            PointerNode::Leaf(id) => match block_length(store, id@) {
                Err(e) => Err(e),
                Ok(real_length) => Ok(
                    (LengthInfo { real_length, compressed_length, is_leaf: true }, Map::empty()),
                ),
            },
            PointerNode::Internal(tree) => match level_lengths(
                tree.entries@,
                compressed_length,
                buffer,
                store,
            ) {
                Err(e) => Err(e),
                Ok((real_length, below)) => Ok(
                    (LengthInfo { real_length, compressed_length, is_leaf: false }, below),
                ),
            },
        },
    }
}

/// The real length of a substructure whose length in the buffer is
/// `initial_length` and whose children are `entries`: what it holds besides
/// its children stays, and each child counts at its real footprint. Fails
/// with `InconsistentLength` where the children's footprints in the buffer
/// exceed `initial_length`.
pub open spec fn level_lengths(
    entries: Seq<PointerEntry>,
    initial_length: usize,
    buffer: Seq<u8>,
    store: Seq<BlockRecord>,
) -> Result<(usize, Map<usize, LengthInfo>), BuildError>
    decreases entries, 1int,
{
    match entries_tally(entries, buffer, store) {
        Err(e) => Err(e),
        Ok(tally) => if initial_length < tally.compressed_sum {
            Err(BuildError::InconsistentLength)
        } else if tally.real_sum + (initial_length - tally.compressed_sum) > usize::MAX {
            Err(BuildError::LengthOverflow)
        } else {
            Ok(((tally.real_sum + (initial_length - tally.compressed_sum)) as usize, tally.lengths))
        },
    }
}

/// The reconciled lengths of every offset of `tree` against `buffer`.
pub open spec fn real_lengths_spec(tree: PointerTree, buffer: Seq<u8>, store: Seq<BlockRecord>)
    -> Result<Map<usize, LengthInfo>, BuildError> {
    match level_lengths(tree.entries@, buffer.len() as usize, buffer, store) {
        Err(e) => Err(e),
        Ok((_, lengths)) => Ok(lengths),
    }
}

/// `len` and the bytes of its tag and its varint, or `None` where the sum
/// exceeds `usize`.
pub fn checked_footprint(len: usize) -> (r: Option<usize>)
    ensures
        r == if footprint(len) <= usize::MAX {
            Some(footprint(len) as usize)
        } else {
            None
        },
{
    proof {
        lemma_varint_len_bounds(len as nat);
    }
    let prefix = encode_bytes(len as u64).len() + 1;
    if len > usize::MAX - prefix {
        None
    } else {
        Some(len + prefix)
    }
}

/// Reconciles one level of the tree, and the levels below it.
fn traverse_tree(
    tree: &PointerTree,
    buffer: &[u8],
    store: &BlockStore,
    initial_total_length: usize,
) -> (r: Result<(usize, RealLengths), BuildError>)
    ensures
        match level_lengths(tree.entries@, initial_total_length, buffer@, store.records@) {
            Ok((real_length, lengths)) => r is Ok && r.unwrap().0 == real_length
                && r.unwrap().1@ == lengths && r.unwrap().1.well_formed(),
            Err(e) => r == Err::<(usize, RealLengths), BuildError>(e),
        },
    decreases tree,
{
    let mut real_lengths = RealLengths::new();
    let mut total_tree_length: usize = 0;
    let mut total_block_length: usize = 0;
    let mut i: usize = 0;
    while i < tree.entries.len()
        invariant
            i <= tree.entries.len(),
            real_lengths.well_formed(),
            entries_tally(tree.entries@.take(i as int), buffer@, store.records@) == Ok::<
                Tally,
                BuildError,
            >(
                Tally {
                    real_sum: total_tree_length as int,
                    compressed_sum: total_block_length as int,
                    lengths: real_lengths@,
                },
            ),
        decreases tree.entries.len() - i,
    {
        let entry = &tree.entries[i];
        proof {
            assert(tree.entries@.take(i as int + 1).drop_last() =~= tree.entries@.take(i as int));
            assert(tree.entries@.take(i as int + 1).last() == *entry);
            lemma_tally_failure_lasts(tree.entries@, i as int + 1, buffer@, store.records@);
        }
        let compressed_length = match get_position_length(entry.offset, buffer) {
            Ok(len) => len,
            Err(e) => {
                assert(entry_lengths(*entry, buffer@, store.records@) is Err);
                return Err(e);
            },
        };
        let (real_length, is_leaf, below) = match &entry.node {
            PointerNode::Leaf(id) => match get_block_length(id, store) {
                Ok(len) => (len, true, RealLengths::new()),
                Err(e) => {
                    assert(entry_lengths(*entry, buffer@, store.records@) is Err);
                    return Err(e);
                },
            },
            PointerNode::Internal(nested) => match traverse_tree(
                nested,
                buffer,
                store,
                compressed_length,
            ) {
                Ok((len, below)) => (len, false, below),
                Err(e) => {
                    assert(entry_lengths(*entry, buffer@, store.records@) is Err);
                    return Err(e);
                },
            },
        };
        let info = LengthInfo { real_length, compressed_length, is_leaf };
        let real_footprint = checked_footprint(real_length);
        let compressed_footprint = checked_footprint(compressed_length);
        match (real_footprint, compressed_footprint) {
            (Some(real_bytes), Some(compressed_bytes)) => {
                if real_bytes > usize::MAX - total_tree_length || compressed_bytes > usize::MAX
                    - total_block_length {
                    return Err(BuildError::LengthOverflow);
                }
                total_tree_length = total_tree_length + real_bytes;
                total_block_length = total_block_length + compressed_bytes;
            },
            _ => {
                return Err(BuildError::LengthOverflow);
            },
        }
        real_lengths.insert(entry.offset, info);
        real_lengths.extend(&below);
        i += 1;
    }
    proof {
        assert(tree.entries@.take(i as int) == tree.entries@);
    }
    if initial_total_length < total_block_length {
        return Err(BuildError::InconsistentLength);
    }
    let rest = initial_total_length - total_block_length;
    if rest > usize::MAX - total_tree_length {
        return Err(BuildError::LengthOverflow);
    }
    Ok((total_tree_length + rest, real_lengths))
}

/// Once the tally of the first `n` entries has failed, the tally of all of
/// them fails in the same way.
pub proof fn lemma_tally_failure_lasts(
    entries: Seq<PointerEntry>,
    n: int,
    buffer: Seq<u8>,
    store: Seq<BlockRecord>,
)
    requires
        0 <= n <= entries.len(),
    ensures
        entries_tally(entries.take(n), buffer, store) matches Err(e) ==> entries_tally(
            entries,
            buffer,
            store,
        ) == Err::<Tally, BuildError>(e),
    decreases entries.len() - n,
{
    if n < entries.len() {
        assert(entries.take(n + 1).drop_last() =~= entries.take(n));
        lemma_tally_failure_lasts(entries, n + 1, buffer, store);
    } else {
        assert(entries.take(n) == entries);
    }
}

/// The reconciled lengths depend on what the tree holds, not on how it is
/// held: two levels with the same entries give the same tally.
pub proof fn lemma_same_entries_same_tally(
    first: Seq<PointerEntry>,
    second: Seq<PointerEntry>,
    buffer: Seq<u8>,
    store: Seq<BlockRecord>,
)
    requires
        same_entries(first, second),
    ensures
        entries_tally(first, buffer, store) == entries_tally(second, buffer, store),
    decreases first,
{
    if first.len() > 0 {
        let front = first.drop_last();
        let other_front = second.drop_last();
        assert(same_entries(front, other_front)) by {
            assert forall|i: int| 0 <= i < front.len() implies (#[trigger] front[i]).offset
                == other_front[i].offset && same_node(front[i].node, other_front[i].node) by {
                assert(front[i] == first[i]);
                assert(other_front[i] == second[i]);
            }
        }
        lemma_same_entries_same_tally(front, other_front, buffer, store);
        assert(first[first.len() - 1] == first.last());
        assert(second[second.len() - 1] == second.last());
        match first.last().node {
            PointerNode::Leaf(_) => {},
            PointerNode::Internal(tree) => {
                lemma_same_entries_same_tally(
                    tree.entries@,
                    second.last().node->Internal_0.entries@,
                    buffer,
                    store,
                );
            },
        }
        assert(entry_lengths(first.last(), buffer, store) == entry_lengths(
            second.last(),
            buffer,
            store,
        ));
    }
}

/// Computes, for every offset of `tree`, its real length, its length in
/// `buffer`, and whether it is a block reference.
pub fn compute_real_lengths(tree: &PointerTree, buffer: &[u8], store: &BlockStore) -> (r: Result<
    RealLengths,
    BuildError,
>)
    ensures
        match real_lengths_spec(*tree, buffer@, store.records@) {
            Ok(lengths) => r is Ok && r.unwrap()@ == lengths && r.unwrap().well_formed(),
            Err(e) => r == Err::<RealLengths, BuildError>(e),
        },
{
    match traverse_tree(tree, buffer, store, buffer.len()) {
        Ok((_, real_lengths)) => Ok(real_lengths),
        Err(e) => Err(e),
    }
}

} // verus!
