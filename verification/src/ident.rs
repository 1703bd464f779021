//! Content identifiers: the SHA3-256 digest of the real object, taken over
//! the segments and, between them, the blocks, without the real object ever
//! standing in memory as a whole.

use vstd::prelude::*;

verus! {

/// A running SHA3-256 computation of the `sha3` crate. The hasher's type
/// is an instance of a generic wrapper whose bounds the verifier does not
/// take, so the hasher is kept behind this opaque struct.
#[verifier::external_body]
pub struct ContentHasher {
    inner: sha3::Sha3_256,
}

/// The bytes that a hasher has taken in so far, in order.
pub uninterp spec fn hasher_input(hasher: ContentHasher) -> Seq<u8>;

/// The SHA3-256 digest of `data`.
pub uninterp spec fn sha3_256(data: Seq<u8>) -> Seq<u8>;

/// `Sha3_256::new` (`Digest::new`): a hasher that has taken in nothing.
#[verifier::external_body]
fn hasher_new() -> (hasher: ContentHasher)
    ensures
        hasher_input(hasher) == Seq::<u8>::empty(),
{
    ContentHasher { inner: <sha3::Sha3_256 as sha3::Digest>::new() }
}

/// `Digest::update`: the hasher takes in `data` after what it has. Feeding
/// the input in pieces is the same as feeding it at once.
#[verifier::external_body]
fn hasher_update(hasher: &mut ContentHasher, data: &[u8])
    ensures
        hasher_input(*final(hasher)) == hasher_input(*old(hasher)) + data@,
{
    sha3::Digest::update(&mut hasher.inner, data)
}

/// `Digest::finalize`: the digest of all that the hasher has taken in.
#[verifier::external_body]
fn hasher_finalize(hasher: ContentHasher) -> (digest: Vec<u8>)
    ensures
        digest@ == sha3_256(hasher_input(hasher)),
{
    sha3::Digest::finalize(hasher.inner).to_vec()
}

/// The byte string at index `i`, or nothing where there is none.
pub open spec fn piece(list: Seq<Seq<u8>>, i: int) -> Seq<u8> {
    if 0 <= i < list.len() {
        list[i]
    } else {
        Seq::empty()
    }
}

/// Segment `i`, block `i`, segment `i + 1`, block `i + 1` and so on, until
/// both lists are used up.
pub open spec fn interleave_from(segments: Seq<Seq<u8>>, blocks: Seq<Seq<u8>>, i: int) -> Seq<u8>
    decreases
        (if segments.len() > blocks.len() {
            segments.len()
        } else {
            blocks.len()
        }) - i,
{
    if i < 0 || (i >= segments.len() && i >= blocks.len()) {
        Seq::empty()
    } else {
        piece(segments, i) + piece(blocks, i) + interleave_from(segments, blocks, i + 1)
    }
}

/// The real object: the segments with the blocks between them.
pub open spec fn interleave(segments: Seq<Seq<u8>>, blocks: Seq<Seq<u8>>) -> Seq<u8> {
    interleave_from(segments, blocks, 0)
}

/// The byte strings that a list of buffers holds.
pub open spec fn buffers_view(list: Seq<Vec<u8>>) -> Seq<Seq<u8>> {
    list.map_values(|buffer: Vec<u8>| buffer@)
}

/// From the index at which the blocks are used up, only segments follow.
pub proof fn lemma_interleave_without_blocks(
    segments: Seq<Seq<u8>>,
    blocks: Seq<Seq<u8>>,
    i: int,
)
    requires
        i >= blocks.len(),
    ensures
        interleave_from(segments, blocks, i) == interleave_from(segments, Seq::empty(), i),
    decreases segments.len() - i,
{
    if 0 <= i < segments.len() {
        lemma_interleave_without_blocks(segments, blocks, i + 1);
    }
}

/// The identifier is stable: it is a function of the segments and the blocks
/// alone, so that the same object gives the same identifier every time, and
/// two ways of cutting one object into segments and blocks give the same
/// identifier.
pub proof fn lemma_same_object_same_id(
    segments: Seq<Seq<u8>>,
    blocks: Seq<Seq<u8>>,
    other_segments: Seq<Seq<u8>>,
    other_blocks: Seq<Seq<u8>>,
)
    requires
        interleave(segments, blocks) == interleave(other_segments, other_blocks),
    ensures
        sha3_256(interleave(segments, blocks)) == sha3_256(
            interleave(other_segments, other_blocks),
        ),
{
}

/// What the caller of an identifier stream reports.
pub enum IdEvent {
    /// Nothing yet: the stream begins.
    Start,
    /// The next bytes of the block that is being read.
    Chunk(Vec<u8>),
    /// The block that was being read has ended.
    EndOfBlock,
}

/// What the caller of an identifier stream does next.
#[derive(Debug, Clone, Copy, PartialEq, Eq, Structural)]
pub enum IdAction {
    /// Read on in the block of this number, and report a chunk or its end.
    Read(usize),
    /// Nothing is left to read: finish the stream.
    Finish,
}

/// The identifier of an object in the making: a hasher, and the number of
/// the segment and block that are due.
pub struct IdStream {
    hasher: ContentHasher,
    index: usize,
}

impl IdStream {
    /// The bytes taken in so far.
    pub closed spec fn absorbed(self) -> Seq<u8> {
        hasher_input(self.hasher)
    }

    /// The number of the segment and block that are due.
    pub closed spec fn index(self) -> usize {
        self.index
    }

    /// A stream that has taken in nothing.
    pub fn new() -> (stream: IdStream)
        ensures
            stream.absorbed() == Seq::<u8>::empty(),
            stream.index() == 0,
    {
        IdStream { hasher: hasher_new(), index: 0 }
    }

    /// Takes in the segment that is due and asks for the block that
    /// follows it; once the blocks are used up, takes in every segment that
    /// is left.
    fn proceed(&mut self, buffers: &Vec<Vec<u8>>, block_count: usize) -> (action: IdAction)
        ensures
            old(self).index() < block_count ==> action == IdAction::Read(old(self).index())
                && final(self).index() == old(self).index() && final(self).absorbed() == old(self).absorbed() + piece(buffers_view(buffers@), old(self).index() as int),
            old(self).index() >= block_count ==> action == IdAction::Finish && final(self).absorbed() == old(self).absorbed() + interleave_from(
                buffers_view(buffers@),
                Seq::empty(),
                old(self).index() as int,
            ),
    {
        let ghost segments = buffers_view(buffers@);
        if self.index < block_count {
            if self.index < buffers.len() {
                hasher_update(&mut self.hasher, buffers[self.index].as_slice());
            } else {
                assert(self.absorbed() + Seq::<u8>::empty() =~= self.absorbed());
            }
            IdAction::Read(self.index)
        } else {
            let ghost first = self.index as int;
            let mut i: usize = self.index;
            proof {
                assert(self.absorbed() + Seq::<u8>::empty() =~= self.absorbed());
            }
            while i < buffers.len()
                invariant
                    first <= i,
                    segments == buffers_view(buffers@),
                    self.absorbed() + interleave_from(segments, Seq::empty(), i as int) == old(self).absorbed() + interleave_from(segments, Seq::empty(), first),
                decreases buffers.len() - i,
            {
                let ghost before = self.absorbed();
                hasher_update(&mut self.hasher, buffers[i].as_slice());
                proof {
                    assert(piece(Seq::<Seq<u8>>::empty(), i as int) == Seq::<u8>::empty());
                    assert(before + interleave_from(segments, Seq::empty(), i as int) =~= (before
                        + segments[i as int]) + interleave_from(
                        segments,
                        Seq::empty(),
                        i as int + 1,
                    ));
                }
                i += 1;
            }
            proof {
                assert(self.absorbed() + Seq::<u8>::empty() =~= self.absorbed());
            }
            IdAction::Finish
        }
    }

    /// Takes the stream one step on. At the start, and at the end of a
    /// block, the segment that is due is taken in and the block after it is
    /// asked for; a chunk of a block is taken in as it comes. Once no block
    /// is left, the segments that remain are taken in and the stream is to
    /// be finished.
    pub fn step(&mut self, buffers: &Vec<Vec<u8>>, block_count: usize, event: IdEvent) -> (action:
        IdAction)
        ensures
            match event {
                IdEvent::Start => step_from(
                    *old(self),
                    old(self).index() as int,
                    buffers_view(buffers@),
                    block_count,
                    *final(self),
                    action,
                ),
                IdEvent::Chunk(bytes) => action == IdAction::Read(old(self).index()) && final(self).index() == old(self).index() && final(self).absorbed() == old(self).absorbed()
                    + bytes@,
                IdEvent::EndOfBlock => step_from(
                    *old(self),
                    old(self).index() + 1,
                    buffers_view(buffers@),
                    block_count,
                    *final(self),
                    action,
                ),
            },
    {
        match event {
            IdEvent::Start => self.proceed(buffers, block_count),
            IdEvent::Chunk(bytes) => {
                hasher_update(&mut self.hasher, bytes.as_slice());
                IdAction::Read(self.index)
            },
            IdEvent::EndOfBlock => {
                if self.index == usize::MAX {
                    let count = buffers.len();
                    proof {
                        assert(buffers_view(buffers@).len() == count);
                        assert(interleave_from(
                            buffers_view(buffers@),
                            Seq::empty(),
                            self.index + 1,
                        ) == Seq::<u8>::empty());
                        assert(self.absorbed() + Seq::<u8>::empty() =~= self.absorbed());
                    }
                    IdAction::Finish
                } else {
                    self.index = self.index + 1;
                    self.proceed(buffers, block_count)
                }
            },
        }
    }

    /// The digest of all that was taken in.
    pub fn finish(self) -> (digest: Vec<u8>)
        ensures
            digest@ == sha3_256(self.absorbed()),
    {
        hasher_finalize(self.hasher)
    }
}

/// What a step does that moves on to number `due`: with a block of that
/// number still to come, the segment of that number is taken in and the
/// block is asked for; otherwise every segment from that number on is taken
/// in and the stream is to be finished.
pub open spec fn step_from(
    before: IdStream,
    due: int,
    segments: Seq<Seq<u8>>,
    block_count: usize,
    after: IdStream,
    action: IdAction,
) -> bool {
    if due < block_count {
        action == IdAction::Read(due as usize) && after.index() == due && after.absorbed()
            == before.absorbed() + piece(segments, due)
    } else {
        action == IdAction::Finish && after.absorbed() == before.absorbed() + interleave_from(
            segments,
            Seq::empty(),
            due,
        )
    }
}

/// The identifier of the object made of `buffers` with `blocks` between
/// them: the digest of the first segment, the first block, the second
/// segment and so on.
pub fn generate_id(buffers: &Vec<Vec<u8>>, blocks: &Vec<Vec<u8>>) -> (id: Vec<u8>)
    ensures
        id@ == sha3_256(interleave(buffers_view(buffers@), buffers_view(blocks@))),
{
    let ghost segments = buffers_view(buffers@);
    let ghost contents = buffers_view(blocks@);
    let mut stream = IdStream::new();
    let mut action = stream.step(buffers, blocks.len(), IdEvent::Start);
    let mut k: usize = 0;
    proof {
        assert(Seq::<u8>::empty() + piece(segments, 0) =~= piece(segments, 0));
        if blocks.len() == 0 {
            lemma_interleave_without_blocks(segments, contents, 0);
            assert(Seq::<u8>::empty() + interleave_from(segments, Seq::empty(), 0)
                =~= interleave_from(segments, Seq::empty(), 0));
        }
    }
    while k < blocks.len()
        invariant
            k <= blocks.len(),
            segments == buffers_view(buffers@),
            contents == buffers_view(blocks@),
            k < blocks.len() ==> action == IdAction::Read(k) && stream.index() == k
                && stream.absorbed() + contents[k as int] + interleave_from(
                segments,
                contents,
                k + 1,
            ) == interleave(segments, contents),
            k == blocks.len() ==> stream.absorbed() == interleave(segments, contents),
        decreases blocks.len() - k,
    {
        let ghost before = stream.absorbed();
        let chunk = blocks[k].clone();
        assert(chunk@ == contents[k as int]);
        stream.step(buffers, blocks.len(), IdEvent::Chunk(chunk));
        action = stream.step(buffers, blocks.len(), IdEvent::EndOfBlock);
        k += 1;
        proof {
            let after_block = before + contents[k - 1];
            if k < blocks.len() {
                assert(after_block + interleave_from(segments, contents, k as int) =~= (after_block
                    + piece(segments, k as int)) + contents[k as int] + interleave_from(
                    segments,
                    contents,
                    k + 1,
                ));
            } else {
                lemma_interleave_without_blocks(segments, contents, k as int);
            }
        }
    }
    stream.finish()
}

} // verus!
