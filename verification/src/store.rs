//! What the build needs to know of the block store: which blocks it holds
//! and how long each is. The snapshot is taken before the build and handed
//! in as plain values.

use vstd::prelude::*;
use crate::error::BuildError;

verus! {

/// What the store holds under a block's name.
#[derive(Debug, Clone, Copy, PartialEq, Eq, Structural)]
pub enum BlockEntry {
    /// A flat block of this many bytes.
    File(usize),
    /// A directory: a block made of blocks.
    Directory,
}

/// A block's name and what the store holds under it.
#[derive(Debug, Clone, PartialEq, Eq)]
pub struct BlockRecord {
    pub id: String,
    pub entry: BlockEntry,
}

/// The blocks that the store holds. Of two records with one name the first counts.
#[derive(Debug, Clone, PartialEq, Eq)]
pub struct BlockStore {
    pub records: Vec<BlockRecord>,
}

/// What the first record named `id` holds.
pub open spec fn find_block(records: Seq<BlockRecord>, id: Seq<char>) -> Option<BlockEntry>
    decreases records.len(),
{
    if records.len() == 0 {
        None
    } else if records[0].id@ == id {
        Some(records[0].entry)
    } else {
        find_block(records.drop_first(), id)
    }
}

/// The length of the block named `id`: `BlockNotFound` where the store has
/// no such name, `MultiblockNotSupported` where it names a directory.
pub open spec fn block_length(records: Seq<BlockRecord>, id: Seq<char>) -> Result<
    usize,
    BuildError,
> {
    match find_block(records, id) {
        None => Err(BuildError::BlockNotFound),
        Some(BlockEntry::Directory) => Err(BuildError::MultiblockNotSupported),
        Some(BlockEntry::File(len)) => Ok(len),
    }
}

impl BlockStore {
    /// A store without blocks.
    pub fn new() -> (store: BlockStore)
        ensures
            store.records@.len() == 0,
    {
        BlockStore { records: Vec::new() }
    }

    /// Records what the store holds under `id`.
    pub fn add(&mut self, id: String, entry: BlockEntry)
        ensures
            final(self).records@ == old(self).records@.push(BlockRecord { id, entry }),
    {
        self.records.push(BlockRecord { id, entry });
    }

    /// What the store holds under `id`.
    pub fn find(&self, id: &String) -> (r: Option<BlockEntry>)
        ensures
            r == find_block(self.records@, id@),
    {
        let mut i: usize = 0;
        assert(self.records@.skip(0) =~= self.records@);
        while i < self.records.len()
            invariant
                i <= self.records.len(),
                find_block(self.records@, id@) == find_block(self.records@.skip(i as int), id@),
            decreases self.records.len() - i,
        {
            assert(self.records@.skip(i as int)[0] == self.records[i as int]);
            assert(self.records@.skip(i as int).drop_first() =~= self.records@.skip(i as int + 1));
            if self.records[i].id == *id {
                return Some(self.records[i].entry);
            }
            i += 1;
        }
        None
    }

    /// Whether the store holds anything under `id`.
    pub fn contains(&self, id: &String) -> (found: bool)
        ensures
            found == find_block(self.records@, id@).is_some(),
    {
        self.find(id).is_some()
    }
}

/// The number of bytes of the block named `block_id`.
pub fn get_block_length(block_id: &String, store: &BlockStore) -> (r: Result<usize, BuildError>)
    ensures
        r == block_length(store.records@, block_id@),
{
    match store.find(block_id) {
        None => Err(BuildError::BlockNotFound),
        Some(BlockEntry::Directory) => Err(BuildError::MultiblockNotSupported),
        Some(BlockEntry::File(len)) => Ok(len),
    }
}

} // verus!
