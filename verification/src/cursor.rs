//! The chunk cursor: cutting a byte stream into line-aligned chunks.
//!
//! The stream is handed to the cursor block by block, in the order read. The
//! cursor answers each block with a chunk that ends at a line terminator, or
//! asks for more. What was read past the last terminator is carried over to
//! the front of the next chunk, so that no line is ever cut in two and no
//! byte is served twice or left out.

use vstd::prelude::*;
use vstd::slice::{slice_subrange, slice_to_vec};
use crate::error::Error;
use crate::record::{terminated, NEWLINE};

verus! {

/// What a cursor remembers between blocks.
pub struct CursorState {
    /// The bytes read past the last line terminator.
    pub carry: Seq<u8>,
    /// Whether the end of the stream has been seen.
    pub finished: bool,
}

/// One answer of a cursor, as mathematics.
pub enum Serving {
    /// A chunk to work on.
    Chunk(Seq<u8>),
    /// No line has ended yet: another block is needed.
    More,
    /// The stream is used up.
    End,
}

/// One answer of a cursor.
#[derive(Debug, PartialEq, Eq)]
pub enum Step {
    /// A chunk to work on.
    Chunk(Vec<u8>),
    /// No line has ended yet: another block is needed.
    More,
    /// The stream is used up.
    End,
}

impl View for Step {
    type V = Serving;

    open spec fn view(&self) -> Serving {
        match self {
            Step::Chunk(bytes) => Serving::Chunk(bytes@),
            Step::More => Serving::More,
            Step::End => Serving::End,
        }
    }
}

/// How many leading bytes of a block end with its last line terminator: one
/// more than the index of the last terminator, and 0 if the block holds
/// none.
pub open spec fn cut(block: Seq<u8>) -> nat
    decreases block.len(),
{
    if block.len() == 0 {
        0
    } else if block.last() == NEWLINE {
        block.len()
    } else {
        cut(block.drop_last())
    }
}

pub open spec fn has_newline(s: Seq<u8>) -> bool {
    exists|i: int| 0 <= i < s.len() && s[i] == NEWLINE
}

/// The rule of the cursor. Given what it remembers and the next block:
///
/// - after the end of the stream it serves nothing more;
/// - at the end of the stream, everything that is left is the last chunk;
/// - a block with a line terminator yields the carry and the block up to and
///   including its last terminator, and the rest of the block is carried;
/// - a block without one is carried whole, unless more than `limit` bytes
///   would then be waiting for a terminator, which is an error and changes
///   nothing.
pub open spec fn step(state: CursorState, limit: nat, block: Seq<u8>, at_end: bool) -> Result<
    (CursorState, Serving),
    Error,
> {
    if state.finished {
        Ok((state, Serving::End))
    } else if at_end {
        let last = state.carry + block;
        let after = CursorState { carry: Seq::empty(), finished: true };
        if last.len() == 0 {
            Ok((after, Serving::End))
        } else {
            Ok((after, Serving::Chunk(last)))
        }
    } else if cut(block) > 0 {
        Ok(
            (
                CursorState { carry: block.skip(cut(block) as int), finished: false },
                Serving::Chunk(state.carry + block.take(cut(block) as int)),
            ),
        )
    } else if state.carry.len() + block.len() > limit {
        Err(Error::ChunkAlignmentFailure)
    } else {
        Ok((CursorState { carry: state.carry + block, finished: false }, Serving::More))
    }
}

/// The invariant of a cursor: no line terminator waits in the carry, and
/// nothing is carried past the end of the stream.
pub open spec fn state_valid(state: CursorState) -> bool {
    &&& !has_newline(state.carry)
    &&& state.finished ==> state.carry.len() == 0
}

/// Where `cut` cuts: right behind the last line terminator.
pub proof fn lemma_cut(block: Seq<u8>)
    ensures
        cut(block) <= block.len(),
        cut(block) > 0 ==> block[cut(block) - 1] == NEWLINE,
        forall|i: int| cut(block) <= i < block.len() ==> block[i] != NEWLINE,
    decreases block.len(),
{
    if block.len() > 0 && block.last() != NEWLINE {
        lemma_cut(block.drop_last());
        assert forall|i: int| cut(block) <= i < block.len() implies block[i] != NEWLINE by {
            if i < block.len() - 1 {
                assert(block.drop_last()[i] == block[i]);
            }
        }
    }
}

/// The cut is where the last line terminator says.
pub proof fn lemma_cut_is(block: Seq<u8>, k: int)
    requires
        0 <= k <= block.len(),
        k > 0 ==> block[k - 1] == NEWLINE,
        forall|i: int| k <= i < block.len() ==> block[i] != NEWLINE,
    ensures
        cut(block) == k,
{
    lemma_cut(block);
    let c = cut(block) as int;
    if c < k {
        assert(block[k - 1] != NEWLINE);
    } else if c > k {
        assert(block[c - 1] == NEWLINE);
    }
}

/// The rule keeps the invariant, serves no empty chunk, and neither loses
/// nor repeats a byte: what was carried and the block are, in this order,
/// what is served and what is carried next. A chunk that is not the last of
/// the stream ends with a line terminator.
pub proof fn lemma_step(state: CursorState, limit: nat, block: Seq<u8>, at_end: bool)
    requires
        state_valid(state),
    ensures
        match step(state, limit, block, at_end) {
            Ok((next, serving)) => {
                &&& state_valid(next)
                &&& match serving {
                    Serving::Chunk(chunk) => {
                        &&& chunk.len() > 0
                        &&& !state.finished
                        &&& chunk + next.carry == state.carry + block
                        &&& !at_end ==> terminated(chunk)
                    },
                    Serving::More => !state.finished && !at_end && next.carry == state.carry
                        + block,
                    Serving::End => next.finished && (state.finished || state.carry + block
                        == Seq::<u8>::empty()),
                }
            },
            Err(_) => !state.finished && !at_end && cut(block) == 0,
        },
{
    lemma_cut(block);
    if state.finished {
    } else if at_end {
        let last = state.carry + block;
        assert(last + Seq::<u8>::empty() =~= last);
        if last.len() == 0 {
            assert(last =~= Seq::<u8>::empty());
        }
        assert(!has_newline(Seq::<u8>::empty()));
    } else if cut(block) > 0 {
        let c = cut(block) as int;
        let chunk = state.carry + block.take(c);
        let rest = block.skip(c);
        assert(chunk + rest =~= state.carry + block);
        assert(chunk.last() == block[c - 1]);
        assert(!has_newline(rest)) by {
            if has_newline(rest) {
                let i = choose|i: int| 0 <= i < rest.len() && rest[i] == NEWLINE;
                assert(block[c + i] == NEWLINE);
            }
        }
    } else if state.carry.len() + block.len() > limit {
    } else {
        let next = state.carry + block;
        assert(!has_newline(next)) by {
            if has_newline(next) {
                let i = choose|i: int| 0 <= i < next.len() && next[i] == NEWLINE;
                if i < state.carry.len() {
                    assert(state.carry[i] == NEWLINE);
                } else {
                    assert(block[i - state.carry.len()] == NEWLINE);
                }
            }
        }
    }
}

/// Finds the cut of a block.
pub fn last_newline(block: &[u8]) -> (r: usize)
    ensures
        r == cut(block@),
{
    let mut i: usize = block.len();
    while i > 0 && block[i - 1] != NEWLINE
        invariant
            i <= block.len(),
            forall|j: int| i <= j < block.len() ==> block@[j] != NEWLINE,
        decreases i,
    {
        i = i - 1;
    }
    proof {
        lemma_cut_is(block@, i as int);
    }
    i
}

/// Appends the bytes of `src` to `dst`.
pub fn append(dst: &mut Vec<u8>, src: &[u8])
    ensures
        final(dst)@ == old(dst)@ + src@,
{
    let mut i: usize = 0;
    while i < src.len()
        invariant
            i <= src.len(),
            dst@ == old(dst)@ + src@.take(i as int),
        decreases src.len() - i,
    {
        dst.push(src[i]);
        i = i + 1;
        assert(dst@ =~= old(dst)@ + src@.take(i as int));
    }
    assert(src@.take(src.len() as int) =~= src@);
}

/// The owner of the read position of a stream: it is handed the blocks that
/// were read and serves line-aligned chunks.
pub struct BufferManager {
    carry: Vec<u8>,
    limit: usize,
    finished: bool,
}

impl View for BufferManager {
    type V = CursorState;

    closed spec fn view(&self) -> CursorState {
        CursorState { carry: self.carry@, finished: self.finished }
    }
}

impl BufferManager {
    pub closed spec fn spec_limit(&self) -> usize {
        self.limit
    }

    /// The invariant of a cursor.
    pub open spec fn wf(&self) -> bool {
        state_valid(self@)
    }

    /// A cursor at the start of a stream. It gives up when more than `limit`
    /// bytes have been read without a line terminator.
    pub fn with(limit: usize) -> (m: BufferManager)
        ensures
            m@ == (CursorState { carry: Seq::empty(), finished: false }),
            m.limit() == limit,
            m.wf(),
    {
        BufferManager { carry: Vec::new(), limit, finished: false }
    }

    /// The most bytes that may wait for a line terminator.
    #[verifier::when_used_as_spec(spec_limit)]
    pub fn limit(&self) -> (r: usize)
        ensures
            r == self.limit(),
    {
        self.limit
    }

    /// How many bytes are waiting for a line terminator.
    pub fn pending(&self) -> (r: usize)
        ensures
            r == self@.carry.len(),
    {
        self.carry.len()
    }

    /// Whether the end of the stream has been seen.
    pub fn is_finished(&self) -> (r: bool)
        ensures
            r == self@.finished,
    {
        self.finished
    }

    /// Takes the next block of the stream, or word that it has ended, and
    /// answers by the rule of [`step`].
    pub fn request_buffer(&mut self, block: &[u8], at_end: bool) -> (r: Result<Step, Error>)
        requires
            old(self).wf(),
        ensures
            final(self).wf(),
            final(self).limit() == old(self).limit(),
            match step(old(self)@, old(self).limit() as nat, block@, at_end) {
                Ok((next, serving)) => final(self)@ == next && r is Ok && r->Ok_0@ == serving,
                Err(e) => final(self)@ == old(self)@ && r is Err && r->Err_0 == e,
            },
    {
        proof {
            lemma_step(self@, self.limit as nat, block@, at_end);
        }
        if self.finished {
            return Ok(Step::End);
        }
        if at_end {
            let mut last: Vec<u8> = Vec::new();
            core::mem::swap(&mut last, &mut self.carry);
            append(&mut last, block);
            self.finished = true;
            if last.len() == 0 {
                return Ok(Step::End);
            }
            return Ok(Step::Chunk(last));
        }
        let c: usize = last_newline(block);
        proof {
            lemma_cut(block@);
        }
        if c > 0 {
            let mut chunk: Vec<u8> = slice_to_vec(slice_subrange(block, c, block.len()));
            core::mem::swap(&mut chunk, &mut self.carry);
            append(&mut chunk, slice_subrange(block, 0, c));
            return Ok(Step::Chunk(chunk));
        }
        if block.len() > self.limit || self.carry.len() > self.limit - block.len() {
            return Err(Error::ChunkAlignmentFailure);
        }
        append(&mut self.carry, block);
        Ok(Step::More)
    }
}

} // verus!
