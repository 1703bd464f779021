//! The assembler: from a message and the blocks it may refer to, everything
//! that is written into the object's directory, in the order in which it is
//! written.

use vstd::prelude::*;
use crate::block::Environment;
use crate::error::BuildError;
use crate::lengths::{compute_real_lengths, real_lengths_spec, RealLengths};
use crate::locator::{found_in_message, search_on_message};
use crate::message::ProtobufMessageWithBlockPointers;
use crate::real_locator::{real_in_message, search_on_message_real, RealWalk, WalkContext};
use crate::segment::{fits_buffer, generate_buffer, regions_fit, segments, segments_view};
use crate::store::{block_length, get_block_length, BlockRecord, BlockStore};
use crate::correctness::lemma_plan_gives_the_real_object;
use crate::ident::interleave;
use crate::real_object::{contents_in_message, real_wire, RealContext};
use crate::real_paths::real_found_in_message;
use crate::reconciled::store_agrees;
use crate::success::{lemma_failure_has_a_cause, store_holds};
use crate::tree::{build_tree, create_lengths_tree, pointers_view, Pointer, PointerTree};

verus! {

/// One position of the real object.
#[derive(Debug, Clone, PartialEq, Eq)]
pub enum IndexEntry {
    /// The segment of this number, counted from one. Its file is named by
    /// the number before.
    Segment(usize),
    /// The block of this name, with the path at which it stands in the real
    /// object and its length.
    Block { hash: String, path: Vec<usize>, real_length: usize },
}

/// An index entry as a mathematical value.
pub ghost enum IndexEntryView {
    Segment(usize),
    Block { hash: Seq<char>, path: Seq<usize>, real_length: usize },
}

impl View for IndexEntry {
    type V = IndexEntryView;

    open spec fn view(&self) -> IndexEntryView {
        match self {
            IndexEntry::Segment(number) => IndexEntryView::Segment(*number),
            IndexEntry::Block { hash, path, real_length } => IndexEntryView::Block {
                hash: hash@,
                path: path@,
                real_length: *real_length,
            },
        }
    }
}

/// The entries that a list of index entries holds.
pub open spec fn index_view(index: Seq<IndexEntry>) -> Seq<IndexEntryView> {
    index.map_values(|entry: IndexEntry| entry@)
}

/// What is written into the directory of a multiblock object.
#[derive(Debug, Clone, PartialEq, Eq)]
pub struct MultiblockPlan {
    /// The segments, each a file of its own, named `0`, `1` and so on.
    pub segments: Vec<Vec<u8>>,
    /// What the real object is made of, in order.
    pub index: Vec<IndexEntry>,
    /// The message as it was handed in, block references and all.
    pub compressed: Vec<u8>,
}

/// A plan as a mathematical value.
pub ghost struct PlanView {
    pub segments: Seq<Seq<u8>>,
    pub index: Seq<IndexEntryView>,
    pub compressed: Seq<u8>,
}

/// The index from position `i` on: segment and block take turns until both
/// are used up. The length of each block comes from the store; the first
/// block that the store cannot tell the length of ends the index with the
/// store's failure.
pub open spec fn index_from(
    segment_count: int,
    pointers: Seq<(Seq<char>, Seq<usize>)>,
    store: Seq<BlockRecord>,
    i: int,
) -> Result<Seq<IndexEntryView>, BuildError>
    decreases
        (if segment_count > pointers.len() {
            segment_count
        } else {
            pointers.len() as int
        }) - i,
{
    if i < 0 || (i >= segment_count && i >= pointers.len()) {
        Ok(Seq::empty())
    } else {
        let segment = if i < segment_count {
            seq![IndexEntryView::Segment((i + 1) as usize)]
        } else {
            Seq::empty()
        };
        if i < pointers.len() {
            match block_length(store, pointers[i].0) {
                Err(e) => Err(e),
                Ok(real_length) => match index_from(segment_count, pointers, store, i + 1) {
                    Err(e) => Err(e),
                    Ok(rest) => Ok(
                        segment + seq![
                            IndexEntryView::Block {
                                hash: pointers[i].0,
                                path: pointers[i].1,
                                real_length,
                            },
                        ] + rest,
                    ),
                },
            }
        } else {
            match index_from(segment_count, pointers, store, i + 1) {
                Err(e) => Err(e),
                Ok(rest) => Ok(segment + rest),
            }
        }
    }
}

/// Lists what the real object is made of: segment one, the first block,
/// segment two, the second block and so on.
pub fn build_index(segment_count: usize, pointers: &Vec<Pointer>, store: &BlockStore) -> (r:
    Result<Vec<IndexEntry>, BuildError>)
    ensures
        match index_from(segment_count as int, pointers_view(pointers@), store.records@, 0) {
            Ok(index) => r is Ok && index_view(r.unwrap()@) == index,
            Err(e) => r == Err::<Vec<IndexEntry>, BuildError>(e),
        },
{
    let ghost found = pointers_view(pointers@);
    let mut index: Vec<IndexEntry> = Vec::new();
    let count = if segment_count > pointers.len() {
        segment_count
    } else {
        pointers.len()
    };
    let mut i: usize = 0;
    proof {
        assert(index_view(index@) =~= Seq::empty());
    }
    while i < count
        invariant
            i <= count,
            found == pointers_view(pointers@),
            count == if segment_count > pointers.len() {
                segment_count
            } else {
                pointers.len()
            },
            index_from(segment_count as int, found, store.records@, 0) == match index_from(
                segment_count as int,
                found,
                store.records@,
                i as int,
            ) {
                Err(e) => Err(e),
                Ok(rest) => Ok(index_view(index@) + rest),
            },
        decreases count - i,
    {
        let ghost before = index_view(index@);
        if i < segment_count {
            proof {
                assert(index_view(index@.push(IndexEntry::Segment((i + 1) as usize))) =~= before
                    + seq![IndexEntryView::Segment((i + 1) as usize)]);
            }
            index.push(IndexEntry::Segment(i + 1));
        }
        let ghost middle = index_view(index@);
        if i < pointers.len() {
            let pointer = &pointers[i];
            assert(found[i as int] == pointer@);
            let real_length = match get_block_length(&pointer.hash, store) {
                Err(e) => {
                    return Err(e);
                },
                Ok(len) => len,
            };
            let entry = IndexEntry::Block {
                hash: pointer.hash.clone(),
                path: clone_path(&pointer.path),
                real_length,
            };
            proof {
                assert(index_view(index@.push(entry)) =~= middle + seq![entry@]);
            }
            index.push(entry);
        }
        proof {
            match index_from(segment_count as int, found, store.records@, i as int + 1) {
                Ok(rest) => {
                    let here = index_from(segment_count as int, found, store.records@, i as int);
                    assert(here is Ok);
                    assert(before + here.unwrap() =~= index_view(index@) + rest);
                },
                Err(_) => {},
            }
        }
        i += 1;
    }
    proof {
        assert(index_view(index@) + Seq::<IndexEntryView>::empty() =~= index_view(index@));
    }
    Ok(index)
}

/// A copy of `path`.
pub fn clone_path(path: &Vec<usize>) -> (copy: Vec<usize>)
    ensures
        copy@ == path@,
{
    let mut copy: Vec<usize> = Vec::new();
    copy.extend_from_slice(path.as_slice());
    assert(copy@ =~= path@);
    copy
}

/// What building the object of `message` comes to. The steps follow one
/// another, and the first failure is the result: the references are found
/// in the written message and regrouped into the tree; the lengths are
/// reconciled against the buffer and the store; the regions must lie one
/// after another inside the buffer, else the lengths are inconsistent; the
/// buffer is cut into segments; the second walk finds each reference's
/// place in the real object; the index lists segments and blocks in turn.
pub open spec fn plan_spec(
    message: ProtobufMessageWithBlockPointers,
    blocks: Seq<Vec<u8>>,
    hash_type: u64,
    store: Seq<BlockRecord>,
    tree: PointerTree,
    lengths: RealLengths,
) -> Result<PlanView, BuildError> {
    let buffer = message.wire();
    match real_lengths_spec(tree, buffer, store) {
        Err(e) => Err(e),
        Ok(_) => if !regions_fit(buffer.len() as int, lengths.entries@, 0) {
            Err(BuildError::InconsistentLength)
        } else {
            match real_in_message(
                message,
                Seq::empty(),
                0,
                RealWalk { found: Seq::empty(), real_position: 0 },
                WalkContext { blocks, hash_type, store, lengths: lengths@ },
            ) {
                Err(e) => Err(e),
                Ok(walk) => {
                    let cut = segments(buffer, lengths.entries@);
                    match index_from(cut.len() as int, walk.found, store, 0) {
                        Err(e) => Err(e),
                        Ok(index) => Ok(PlanView { segments: cut, index, compressed: buffer }),
                    }
                },
            }
        },
    }
}

/// Whether `tree` is the tree of the references of `message`, and
/// `lengths` the table of the lengths reconciled along it.
pub open spec fn plan_parts(
    message: ProtobufMessageWithBlockPointers,
    blocks: Seq<Vec<u8>>,
    hash_type: u64,
    store: Seq<BlockRecord>,
    tree: PointerTree,
    lengths: RealLengths,
) -> bool {
    &&& tree.well_formed()
    &&& tree@ == build_tree(found_in_message(message, Seq::empty(), 0, blocks, hash_type))
    &&& lengths.well_formed()
    &&& real_lengths_spec(tree, message.wire(), store) matches Ok(table) ==> lengths@ == table
}

/// Builds what is written for the multiblock object of
/// `pf_object_with_block_pointers`: the segments, the index and the message
/// as it came. `blocks` are the hashes of the blocks that it may refer to,
/// and `store` tells what the block store holds.
///
/// The result is that of the steps one after another, with the tree of the
/// references found and the lengths reconciled along it; a well-formed tree
/// and a well-formed table are determined by the maps they stand for. Where
/// the build succeeds and the blocks are as long as the store says, the
/// segments with the blocks between them are the real object, and the index
/// tells where each block stands in it. The build succeeds wherever the
/// store holds every known block as a flat file and the length of the real
/// object fits a machine word.
pub fn build_multiblock(
    pf_object_with_block_pointers: &ProtobufMessageWithBlockPointers,
    blocks: &[Vec<u8>],
    env: &Environment,
    store: &BlockStore,
) -> (r: Result<MultiblockPlan, BuildError>)
    ensures
        exists|tree: PointerTree, lengths: RealLengths|
            plan_parts(
                *pf_object_with_block_pointers,
                blocks@,
                env.hash_type,
                store.records@,
                tree,
                lengths,
            ) && match plan_spec(
                *pf_object_with_block_pointers,
                blocks@,
                env.hash_type,
                store.records@,
                tree,
                lengths,
            ) {
                Ok(plan) => r is Ok && segments_view(r.unwrap().segments@) == plan.segments
                    && index_view(r.unwrap().index@) == plan.index && r.unwrap().compressed@
                    == plan.compressed,
                Err(e) => r == Err::<MultiblockPlan, BuildError>(e),
            },
        forall|content: Map<Seq<char>, Seq<u8>>|
            r is Ok && #[trigger] store_agrees(
                store.records@,
                RealContext { blocks: blocks@, hash_type: env.hash_type, content },
            ) ==> segments_view(r.unwrap().segments@).len() == contents_in_message(
                *pf_object_with_block_pointers,
                RealContext { blocks: blocks@, hash_type: env.hash_type, content },
            ).len() + 1 && interleave(
                segments_view(r.unwrap().segments@),
                contents_in_message(
                    *pf_object_with_block_pointers,
                    RealContext { blocks: blocks@, hash_type: env.hash_type, content },
                ),
            ) == real_wire(
                *pf_object_with_block_pointers,
                RealContext { blocks: blocks@, hash_type: env.hash_type, content },
            ) && index_from(
                segments_view(r.unwrap().segments@).len() as int,
                real_found_in_message(
                    *pf_object_with_block_pointers,
                    Seq::empty(),
                    0,
                    RealContext { blocks: blocks@, hash_type: env.hash_type, content },
                ),
                store.records@,
                0,
            ) == Ok::<Seq<IndexEntryView>, BuildError>(index_view(r.unwrap().index@)),
        forall|content: Map<Seq<char>, Seq<u8>>|
            #[trigger] store_holds(
                store.records@,
                RealContext { blocks: blocks@, hash_type: env.hash_type, content },
            ) && store_agrees(
                store.records@,
                RealContext { blocks: blocks@, hash_type: env.hash_type, content },
            ) && real_wire(
                *pf_object_with_block_pointers,
                RealContext { blocks: blocks@, hash_type: env.hash_type, content },
            ).len() <= usize::MAX ==> r is Ok,
{
    let message = pf_object_with_block_pointers;
    let buffer = message.serialize_to_vec();
    let buffer_len = buffer.len();
    let mut container: Vec<Pointer> = Vec::new();
    proof {
        assert(pointers_view(container@) =~= Seq::empty());
    }
    search_on_message(message, Vec::new(), 0, blocks, env, &mut container);
    proof {
        assert(Seq::<(Seq<char>, Seq<usize>)>::empty() + found_in_message(
            *message,
            Seq::empty(),
            0,
            blocks@,
            env.hash_type,
        ) =~= found_in_message(*message, Seq::empty(), 0, blocks@, env.hash_type));
    }
    let tree = create_lengths_tree(&container);
    let real_lengths = match compute_real_lengths(&tree, buffer.as_slice(), store) {
        Err(e) => {
            let nothing = RealLengths::new();
            proof {
                assert(plan_parts(
                    *message,
                    blocks@,
                    env.hash_type,
                    store.records@,
                    tree,
                    nothing,
                ));
                lemma_failure_has_a_cause(
                    *message,
                    blocks@,
                    env.hash_type,
                    store.records@,
                    tree,
                    nothing,
                );
            }
            return Err(e);
        },
        Ok(table) => table,
    };
    proof {
        assert(plan_parts(
            *message,
            blocks@,
            env.hash_type,
            store.records@,
            tree,
            real_lengths,
        ));
    }
    if !fits_buffer(buffer_len, &real_lengths) {
        proof {
            lemma_failure_has_a_cause(
                *message,
                blocks@,
                env.hash_type,
                store.records@,
                tree,
                real_lengths,
            );
        }
        return Err(BuildError::InconsistentLength);
    }
    let new_buff = generate_buffer(buffer.as_slice(), &real_lengths);
    let mut container_real_lengths: Vec<Pointer> = Vec::new();
    proof {
        assert(pointers_view(container_real_lengths@) =~= Seq::empty());
    }
    match search_on_message_real(
        message,
        Vec::new(),
        0,
        0,
        blocks,
        env,
        store,
        &mut container_real_lengths,
        &real_lengths,
    ) {
        Err(e) => {
            proof {
                lemma_failure_has_a_cause(
                    *message,
                    blocks@,
                    env.hash_type,
                    store.records@,
                    tree,
                    real_lengths,
                );
            }
            return Err(e);
        },
        Ok(()) => {},
    }
    let index = match build_index(new_buff.len(), &container_real_lengths, store) {
        Err(e) => {
            proof {
                lemma_failure_has_a_cause(
                    *message,
                    blocks@,
                    env.hash_type,
                    store.records@,
                    tree,
                    real_lengths,
                );
            }
            return Err(e);
        },
        Ok(index) => index,
    };
    proof {
        assert(plan_spec(*message, blocks@, env.hash_type, store.records@, tree, real_lengths) is Ok);
        assert forall|content: Map<Seq<char>, Seq<u8>>| #[trigger]
            store_agrees(
                store.records@,
                RealContext { blocks: blocks@, hash_type: env.hash_type, content },
            ) implies segments_view(new_buff@).len() == contents_in_message(
            *message,
            RealContext { blocks: blocks@, hash_type: env.hash_type, content },
        ).len() + 1 && interleave(
            segments_view(new_buff@),
            contents_in_message(
                *message,
                RealContext { blocks: blocks@, hash_type: env.hash_type, content },
            ),
        ) == real_wire(
            *message,
            RealContext { blocks: blocks@, hash_type: env.hash_type, content },
        ) && index_from(
            segments_view(new_buff@).len() as int,
            real_found_in_message(
                *message,
                Seq::empty(),
                0,
                RealContext { blocks: blocks@, hash_type: env.hash_type, content },
            ),
            store.records@,
            0,
        ) == Ok::<Seq<IndexEntryView>, BuildError>(index_view(index@)) by {
            lemma_plan_gives_the_real_object(
                *message,
                RealContext { blocks: blocks@, hash_type: env.hash_type, content },
                store.records@,
                tree,
                real_lengths,
            );
        }
    }
    Ok(MultiblockPlan { segments: new_buff, index, compressed: buffer })
}

} // verus!
