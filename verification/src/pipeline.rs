//! Cursor and records together, on a stream that is already in memory.
//!
//! Reading is modelled as taking the next `block_size` bytes of the source,
//! or fewer where it ends; finding nothing left is the end of the stream.

use vstd::prelude::*;
use vstd::slice::slice_subrange;
use crate::cursor::{lemma_step, state_valid, step, BufferManager, CursorState, Serving, Step};
use crate::error::Error;
use crate::ledger::{
    lemma_merge_all_update,
    lemma_merge_associative,
    lemma_merge_commutative,
    lemma_merge_empty,
    lemma_merge_tally,
    lemma_split_tally,
    lemma_tally_concat,
    merge,
    merge_all,
    tally,
    Ledger,
    Reading,
};
use crate::record::{
    good_prefix,
    lemma_good_prefix,
    lemma_good_prefix_is,
    lemma_lines_concat,
    lemma_lines_len,
    lines,
    parse_line,
    process_buffer,
    readings_of,
    terminated,
    verdict,
};
use crate::report::{summary, summary_text};
use crate::table::StationMap;

verus! {

/// How many bytes the next read takes from what is left of the stream.
pub open spec fn block_len(left: nat, block_size: nat) -> nat {
    if block_size < left {
        block_size
    } else {
        left
    }
}

/// The chunks that a cursor in `state` serves while `source` is read to its
/// end in blocks of `block_size` bytes, or the error that stops it.
pub open spec fn chunks_of(state: CursorState, limit: nat, source: Seq<u8>, block_size: nat) -> Result<
    Seq<Seq<u8>>,
    Error,
>
    decreases source.len(),
{
    if source.len() == 0 || block_size == 0 {
        match step(state, limit, source, true) {
            Ok((_, Serving::Chunk(last))) => Ok(seq![last]),
            Ok(_) => Ok(Seq::empty()),
            Err(e) => Err(e),
        }
    } else {
        let n = block_len(source.len(), block_size) as int;
        match step(state, limit, source.take(n), false) {
            Err(e) => Err(e),
            Ok((next, serving)) => match chunks_of(next, limit, source.skip(n), block_size) {
                Err(e) => Err(e),
                Ok(rest) => match serving {
                    Serving::Chunk(chunk) => Ok(seq![chunk] + rest),
                    _ => Ok(rest),
                },
            },
        }
    }
}

/// The cursor at the start of a stream.
pub open spec fn fresh() -> CursorState {
    CursorState { carry: Seq::empty(), finished: false }
}

/// What the chunks of a stream are, whatever the block size: put end to end
/// they are the stream, byte for byte; none is empty; and each but the last
/// ends with a line terminator, so that no line lies across two chunks.
pub open spec fn partitions(chunks: Seq<Seq<u8>>, stream: Seq<u8>) -> bool {
    &&& chunks.flatten() == stream
    &&& forall|i: int| 0 <= i < chunks.len() ==> (#[trigger] chunks[i]).len() > 0
    &&& forall|i: int| 0 <= i < chunks.len() - 1 ==> terminated(#[trigger] chunks[i])
}

/// The line-boundary law: the chunks served for a stream partition what was
/// carried followed by the stream. There is no error while the limit covers
/// all the bytes.
pub proof fn lemma_chunks_of(state: CursorState, limit: nat, source: Seq<u8>, block_size: nat)
    requires
        state_valid(state),
        !state.finished,
    ensures
        match chunks_of(state, limit, source, block_size) {
            Ok(chunks) => partitions(chunks, state.carry + source),
            Err(e) => e == Error::ChunkAlignmentFailure && state.carry.len() + source.len()
                > limit,
        },
    decreases source.len(),
{
    if source.len() == 0 || block_size == 0 {
        lemma_step(state, limit, source, true);
        match step(state, limit, source, true) {
            Ok((_, Serving::Chunk(last))) => {
                let chunks = seq![last];
                assert(chunks.drop_first() =~= Seq::<Seq<u8>>::empty());
                assert(chunks.flatten() =~= last) by {
                    reveal_with_fuel(Seq::flatten, 2);
                }
                assert(last + Seq::<u8>::empty() =~= last);
            },
            Ok(_) => {
                assert(Seq::<Seq<u8>>::empty().flatten() =~= Seq::<u8>::empty());
            },
            Err(_) => {},
        }
    } else {
        let n = block_len(source.len(), block_size) as int;
        let block = source.take(n);
        let left = source.skip(n);
        lemma_step(state, limit, block, false);
        assert(block + left =~= source);
        match step(state, limit, block, false) {
            Err(_) => {},
            Ok((next, serving)) => {
                lemma_chunks_of(next, limit, left, block_size);
                match chunks_of(next, limit, left, block_size) {
                    Err(_) => {
                        match serving {
                            Serving::Chunk(chunk) => {
                                assert(chunk.len() + next.carry.len() == (chunk
                                    + next.carry).len());
                            },
                            _ => {},
                        }
                    },
                    Ok(rest) => {
                        match serving {
                            Serving::Chunk(chunk) => {
                                let chunks = seq![chunk] + rest;
                                assert(chunks.first() == chunk);
                                assert(chunks.drop_first() =~= rest);
                                assert(chunks.flatten() =~= chunk + rest.flatten());
                                assert(chunk + (next.carry + left) =~= (chunk + next.carry)
                                    + left);
                                assert(state.carry + source =~= (state.carry + block) + left);
                                assert forall|i: int| 0 <= i < chunks.len() implies (
                                #[trigger] chunks[i]).len() > 0 by {
                                    if i > 0 {
                                        assert(chunks[i] == rest[i - 1]);
                                    }
                                }
                                assert forall|i: int| 0 <= i < chunks.len() - 1 implies terminated(
                                    #[trigger] chunks[i],
                                ) by {
                                    if i > 0 {
                                        assert(chunks[i] == rest[i - 1]);
                                    }
                                }
                            },
                            _ => {
                                assert(state.carry + source =~= (state.carry + block) + left);
                            },
                        }
                    },
                }
            },
        }
    }
}

/// The bytes of each chunk.
pub open spec fn contents(chunks: Seq<Vec<u8>>) -> Seq<Seq<u8>> {
    Seq::new(chunks.len(), |i: int| chunks[i]@)
}

/// Cuts `source` into the chunks that a cursor with this limit serves when
/// the source is read in blocks of `block_size` bytes.
pub fn split(source: &[u8], block_size: usize, limit: usize) -> (r: Result<Vec<Vec<u8>>, Error>)
    requires
        block_size > 0,
    ensures
        match chunks_of(fresh(), limit as nat, source@, block_size as nat) {
            Ok(chunks) => r is Ok && contents(r->Ok_0@) == chunks && partitions(chunks, source@),
            Err(e) => r is Err && r->Err_0 == e && e == Error::ChunkAlignmentFailure
                && source.len() > limit,
        },
{
    let n: usize = source.len();
    let ghost whole = chunks_of(fresh(), limit as nat, source@, block_size as nat);
    let mut cursor = BufferManager::with(limit);
    let mut chunks: Vec<Vec<u8>> = Vec::new();
    let mut pos: usize = 0;
    proof {
        lemma_chunks_of(fresh(), limit as nat, source@, block_size as nat);
        assert(fresh().carry + source@ =~= source@);
        assert(source@.skip(0) =~= source@);
        assert(contents(chunks@) =~= Seq::<Seq<u8>>::empty());
    }
    while pos < n
        invariant
            pos <= n,
            n == source.len(),
            block_size > 0,
            cursor.wf(),
            !cursor@.finished,
            cursor.limit() == limit,
            whole == chunks_of(fresh(), limit as nat, source@, block_size as nat),
            match chunks_of(cursor@, limit as nat, source@.skip(pos as int), block_size as nat) {
                Ok(rest) => whole == Ok::<Seq<Seq<u8>>, Error>(contents(chunks@) + rest),
                Err(e) => whole == Err::<Seq<Seq<u8>>, Error>(e),
            },
            whole is Ok ==> partitions(whole->Ok_0, source@),
            whole is Err ==> whole->Err_0 == Error::ChunkAlignmentFailure && source.len() > limit,
        decreases n - pos,
    {
        let len: usize = if block_size < n - pos {
            block_size
        } else {
            n - pos
        };
        let block = slice_subrange(source, pos, pos + len);
        let ghost left = source@.skip(pos as int);
        let ghost before = contents(chunks@);
        proof {
            assert(block@ =~= left.take(len as int));
            assert(left.skip(len as int) =~= source@.skip(pos + len));
            lemma_step(cursor@, limit as nat, block@, false);
        }
        match cursor.request_buffer(block, false) {
            Err(e) => {
                return Err(e);
            },
            Ok(Step::Chunk(chunk)) => {
                let ghost bytes = chunk@;
                chunks.push(chunk);
                proof {
                    assert(contents(chunks@) =~= before.push(bytes));
                    let tail = chunks_of(
                        cursor@,
                        limit as nat,
                        source@.skip(pos + len),
                        block_size as nat,
                    );
                    if tail is Ok {
                        assert(before + (seq![bytes] + tail->Ok_0) =~= before.push(bytes)
                            + tail->Ok_0);
                    }
                }
            },
            Ok(_) => {},
        }
        pos = pos + len;
    }
    let ghost before = contents(chunks@);
    let empty = slice_subrange(source, n, n);
    proof {
        assert(source@.skip(pos as int) =~= Seq::<u8>::empty());
        assert(empty@ =~= Seq::<u8>::empty());
        lemma_step(cursor@, limit as nat, empty@, true);
    }
    match cursor.request_buffer(empty, true) {
        Ok(Step::Chunk(last)) => {
            let ghost bytes = last@;
            chunks.push(last);
            proof {
                assert(contents(chunks@) =~= before + seq![bytes]);
            }
        },
        _ => {
            proof {
                assert(before + Seq::<Seq<u8>>::empty() =~= before);
            }
        },
    }
    Ok(chunks)
}

/// Where a run of lines goes wrong inside its middle stretch, it goes wrong
/// as a whole at the same line, with the same readings before it.
pub proof fn lemma_error_in_the_middle(a: Seq<Seq<u8>>, b: Seq<Seq<u8>>, c: Seq<Seq<u8>>)
    requires
        good_prefix(a) == a.len(),
        good_prefix(b) < b.len(),
    ensures
        good_prefix(a + b + c) == a.len() + good_prefix(b),
        verdict(a + b + c) == verdict(b),
        readings_of((a + b + c).take((a.len() + good_prefix(b)) as int)) == readings_of(a) + readings_of(
            b.take(good_prefix(b) as int),
        ),
{
    let all = a + b + c;
    let g = good_prefix(b) as int;
    lemma_good_prefix(a);
    lemma_good_prefix(b);
    assert forall|i: int| 0 <= i < a.len() + g implies parse_line(#[trigger] all[i]) is Ok by {
        if i < a.len() {
            assert(all[i] == a[i]);
        } else {
            assert(all[i] == b[i - a.len()]);
        }
    }
    assert(all[a.len() + g] == b[g]);
    lemma_good_prefix_is(all, a.len() + g);
    assert(readings_of(all.take(a.len() + g)) =~= readings_of(a) + readings_of(b.take(g)));
}

/// Two runs of lines that are all records make one such run, and their
/// readings follow each other.
pub proof fn lemma_all_records(a: Seq<Seq<u8>>, b: Seq<Seq<u8>>)
    requires
        good_prefix(a) == a.len(),
        good_prefix(b) == b.len(),
    ensures
        good_prefix(a + b) == a.len() + b.len(),
        readings_of(a + b) == readings_of(a) + readings_of(b),
{
    let all = a + b;
    lemma_good_prefix(a);
    lemma_good_prefix(b);
    assert forall|i: int| 0 <= i < all.len() implies parse_line(#[trigger] all[i]) is Ok by {
        if i < a.len() {
            assert(all[i] == a[i]);
        } else {
            assert(all[i] == b[i - a.len()]);
        }
    }
    lemma_good_prefix_is(all, all.len() as int);
    assert(readings_of(all) =~= readings_of(a) + readings_of(b));
}

/// Partition-independence of a whole run: two chunks, the first of them
/// ending at a line boundary, each processed into a ledger of its own and
/// the ledgers merged, give what the two chunks give when processed as one
/// buffer.
pub proof fn lemma_chunks_apart(first: Seq<u8>, second: Seq<u8>)
    requires
        terminated(first),
        verdict(lines(first)) is Ok,
        verdict(lines(second)) is Ok,
    ensures
        verdict(lines(first + second)) is Ok,
        merge(
            tally(Map::empty(), readings_of(lines(first))),
            tally(Map::empty(), readings_of(lines(second))),
        ) == tally(Map::empty(), readings_of(lines(first + second))),
{
    lemma_lines_concat(first, second);
    lemma_good_prefix(lines(first));
    lemma_good_prefix(lines(second));
    lemma_all_records(lines(first), lines(second));
    lemma_split_tally(readings_of(lines(first)), readings_of(lines(second)));
}

/// What a worker does with one answer of the cursor: the records of a chunk
/// go into its map; an empty-handed answer changes nothing. The result says
/// whether to ask the cursor again: it is `false` once the stream is used up,
/// and the map is then complete.
pub fn work(step: &Step, map: &mut StationMap) -> (r: Result<bool, Error>)
    requires
        old(map).wf(),
        step@ matches Serving::Chunk(bytes) ==> old(map).readings() + bytes.len() <= u64::MAX,
    ensures
        final(map).wf(),
        match step@ {
            Serving::Chunk(bytes) => {
                &&& final(map)@ == tally(
                    old(map)@,
                    readings_of(lines(bytes).take(good_prefix(lines(bytes)) as int)),
                )
                &&& final(map).readings() == old(map).readings() + good_prefix(lines(bytes))
                &&& match verdict(lines(bytes)) {
                    Ok(_) => r == Ok::<bool, Error>(true),
                    Err(e) => r == Err::<bool, Error>(e),
                }
            },
            Serving::More => final(map)@ == old(map)@ && final(map).readings() == old(
                map,
            ).readings() && r == Ok::<bool, Error>(true),
            Serving::End => final(map)@ == old(map)@ && final(map).readings() == old(
                map,
            ).readings() && r == Ok::<bool, Error>(false),
        },
{
    match step {
        Step::Chunk(chunk) => match process_buffer(chunk.as_slice(), map) {
            Ok(()) => Ok(true),
            Err(e) => Err(e),
        },
        Step::More => Ok(true),
        Step::End => Ok(false),
    }
}

/// What was processed, the chunk just served and what is still to come
/// are the source, in this order.
proof fn lemma_advance(
    source: Seq<u8>,
    pos: int,
    len: int,
    done: Seq<u8>,
    carried: Seq<u8>,
    chunk: Seq<u8>,
    next: Seq<u8>,
)
    requires
        0 <= pos,
        0 <= len,
        pos + len <= source.len(),
        done + carried == source.take(pos),
        chunk + next == carried + source.subrange(pos, pos + len),
    ensures
        done + chunk + next == source.take(pos + len),
        source == done + chunk + (next + source.skip(pos + len)),
        done.len() + chunk.len() + next.len() == pos + len,
{
    let block = source.subrange(pos, pos + len);
    assert(source.take(pos + len) =~= source.take(pos) + block);
    assert(done + chunk + next =~= done + (chunk + next));
    assert(done + (carried + block) =~= (done + carried) + block);
    assert(source =~= source.take(pos + len) + source.skip(pos + len));
    assert(done + chunk + (next + source.skip(pos + len)) =~= (done + chunk + next) + source.skip(
        pos + len,
    ));
    assert((done + chunk + next).len() == done.len() + chunk.len() + next.len());
}

/// One chunk further: what processing the chunk does after the chunks
/// before it is what processing the source as one buffer does up to there.
proof fn lemma_chunk_processed(
    start: Ledger,
    source: Seq<u8>,
    done: Seq<u8>,
    chunk: Seq<u8>,
    rest: Seq<u8>,
)
    requires
        source == done + chunk + rest,
        terminated(done),
        terminated(chunk) || rest.len() == 0,
        good_prefix(lines(done)) == lines(done).len(),
    ensures
        lines(done + chunk).len() == lines(done).len() + lines(chunk).len(),
        good_prefix(lines(chunk)) <= lines(chunk).len(),
        lines(done).len() <= done.len(),
        good_prefix(lines(chunk)) < lines(chunk).len() ==> {
            &&& good_prefix(lines(source)) == lines(done).len() + good_prefix(lines(chunk))
            &&& verdict(lines(source)) == verdict(lines(chunk))
            &&& tally(
                start,
                readings_of(lines(source).take(good_prefix(lines(source)) as int)),
            ) == tally(
                tally(start, readings_of(lines(done))),
                readings_of(lines(chunk).take(good_prefix(lines(chunk)) as int)),
            )
        },
        good_prefix(lines(chunk)) == lines(chunk).len() ==> {
            &&& good_prefix(lines(done + chunk)) == lines(done + chunk).len()
            &&& tally(start, readings_of(lines(done + chunk))) == tally(
                tally(start, readings_of(lines(done))),
                readings_of(lines(chunk).take(good_prefix(lines(chunk)) as int)),
            )
        },
{
    let a = lines(done);
    let b = lines(chunk);
    let c = lines(rest);
    lemma_lines_len(done);
    lemma_lines_concat(done, chunk);
    if rest.len() == 0 {
        assert(done + chunk + rest =~= done + chunk);
        assert(a + b + c =~= a + b);
    } else {
        if chunk.len() > 0 {
            assert((done + chunk).last() == chunk.last());
        } else {
            assert(done + chunk =~= done);
        }
        lemma_lines_concat(done + chunk, rest);
    }
    assert(lines(source) == a + b + c);
    lemma_good_prefix(b);
    if good_prefix(b) < b.len() {
        lemma_error_in_the_middle(a, b, c);
        lemma_tally_concat(start, readings_of(a), readings_of(b.take(good_prefix(b) as int)));
    } else {
        assert(b.take(b.len() as int) =~= b);
        lemma_all_records(a, b);
        lemma_tally_concat(start, readings_of(a), readings_of(b));
    }
}

/// Reads `source` in blocks of `block_size` bytes, cuts it into chunks and
/// takes the records of each chunk into `map`, up to the first line that is
/// no record. The outcome is that of processing `source` as one buffer: the
/// block size does not show in it.
pub fn process(source: &[u8], block_size: usize, map: &mut StationMap) -> (r: Result<(), Error>)
    requires
        block_size > 0,
        old(map).wf(),
        old(map).readings() + source.len() <= u64::MAX,
    ensures
        final(map).wf(),
        final(map)@ == tally(
            old(map)@,
            readings_of(lines(source@).take(good_prefix(lines(source@)) as int)),
        ),
        final(map).readings() == old(map).readings() + good_prefix(lines(source@)),
        r == verdict(lines(source@)),
{
    let n: usize = source.len();
    let ghost start = map@;
    let ghost start_readings = map.readings();
    let ghost done: Seq<u8> = Seq::empty();
    let mut cursor = BufferManager::with(usize::MAX);
    let mut pos: usize = 0;
    proof {
        assert(done + cursor@.carry =~= source@.take(0));
        assert(readings_of(lines(done)) =~= Seq::<Reading>::empty());
    }
    while pos < n
        invariant
            pos <= n,
            n == source.len(),
            block_size > 0,
            cursor.wf(),
            !cursor@.finished,
            cursor.limit() == usize::MAX,
            terminated(done),
            done + cursor@.carry == source@.take(pos as int),
            done.len() + cursor@.carry.len() == pos,
            good_prefix(lines(done)) == lines(done).len(),
            lines(done).len() <= done.len(),
            map.wf(),
            start == old(map)@,
            start_readings == old(map).readings(),
            map@ == tally(start, readings_of(lines(done))),
            map.readings() == start_readings + lines(done).len(),
            start_readings + n <= u64::MAX,
        decreases n - pos,
    {
        let len: usize = if block_size < n - pos {
            block_size
        } else {
            n - pos
        };
        let block = slice_subrange(source, pos, pos + len);
        let ghost carried = cursor@.carry;
        proof {
            lemma_step(cursor@, usize::MAX as nat, block@, false);
        }
        match cursor.request_buffer(block, false) {
            Ok(Step::Chunk(chunk)) => {
                let ghost rest = cursor@.carry + source@.skip(pos + len);
                proof {
                    lemma_advance(
                        source@,
                        pos as int,
                        len as int,
                        done,
                        carried,
                        chunk@,
                        cursor@.carry,
                    );
                    lemma_chunk_processed(start, source@, done, chunk@, rest);
                }
                match process_buffer(chunk.as_slice(), map) {
                    Err(e) => {
                        return Err(e);
                    },
                    Ok(()) => {},
                }
                proof {
                    assert((done + chunk@).len() == done.len() + chunk@.len());
                    if chunk@.len() > 0 {
                        assert((done + chunk@).last() == chunk@.last());
                    }
                    lemma_lines_len(done + chunk@);
                    done = done + chunk@;
                }
            },
            Ok(_) => {
                proof {
                    lemma_advance(
                        source@,
                        pos as int,
                        len as int,
                        done,
                        carried,
                        Seq::empty(),
                        cursor@.carry,
                    );
                    assert(done + Seq::<u8>::empty() =~= done);
                }
            },
            Err(_) => {
                assert(false);
            },
        }
        pos = pos + len;
    }
    let empty = slice_subrange(source, n, n);
    let ghost carried = cursor@.carry;
    proof {
        assert(empty@ =~= Seq::<u8>::empty());
        assert(carried + empty@ =~= carried);
        assert(source@.take(n as int) =~= source@);
        lemma_step(cursor@, usize::MAX as nat, empty@, true);
    }
    match cursor.request_buffer(empty, true) {
        Ok(Step::Chunk(last)) => {
            proof {
                assert(done + last@ + Seq::<u8>::empty() =~= done + last@);
                lemma_chunk_processed(start, source@, done, last@, Seq::empty());
                let all = lines(done + last@);
                assert(all.take(all.len() as int) =~= all);
            }
            process_buffer(last.as_slice(), map)
        },
        _ => {
            proof {
                assert(done + carried =~= done);
                assert(lines(done).take(lines(done).len() as int) =~= lines(done));
            }
            Ok(())
        },
    }
}

/// The ledgers of a row of maps.
pub open spec fn ledgers(maps: Seq<StationMap>) -> Seq<Ledger> {
    Seq::new(maps.len(), |i: int| maps[i]@)
}

/// How many readings a row of maps has taken in, all in all.
pub open spec fn readings_sum(maps: Seq<StationMap>) -> nat
    decreases maps.len(),
{
    if maps.len() == 0 {
        0
    } else {
        readings_sum(maps.drop_last()) + maps.last().readings() as nat
    }
}

/// One map of the row has taken in `more` readings.
proof fn lemma_readings_sum_update(maps: Seq<StationMap>, i: int, grown: StationMap, more: nat)
    requires
        0 <= i < maps.len(),
        grown.readings() == maps[i].readings() + more,
    ensures
        readings_sum(maps.update(i, grown)) == readings_sum(maps) + more,
        maps[i].readings() <= readings_sum(maps),
    decreases maps.len(),
{
    let after = maps.update(i, grown);
    if i == maps.len() - 1 {
        assert(after.drop_last() =~= maps.drop_last());
    } else {
        lemma_readings_sum_update(maps.drop_last(), i, grown, more);
        assert(after.drop_last() =~= maps.drop_last().update(i, grown));
    }
}

/// The whole run in memory: `source` is cut into chunks, the chunks are
/// dealt out in turn to `workers` maps, the maps are merged and the summary
/// line is written. Neither the block size nor the number of workers shows
/// in the outcome: it is the summary of all the readings of the source, or
/// the error of its first line that is no record.
pub fn summarize(source: &[u8], block_size: usize, workers: usize) -> (r: Result<Vec<u8>, Error>)
    requires
        block_size > 0,
        workers > 0,
    ensures
        match verdict(lines(source@)) {
            Ok(_) => r is Ok && r->Ok_0@ == summary_text(
                tally(Map::empty(), readings_of(lines(source@))),
            ),
            Err(e) => r is Err && r->Err_0 == e,
        },
{
    // With a window as large as memory no line can outgrow it.
    let chunks = match split(source, block_size, usize::MAX) {
        Ok(chunks) => chunks,
        Err(e) => {
            return Err(e);
        },
    };
    let ghost parts = contents(chunks@);
    let mut maps: Vec<StationMap> = Vec::new();
    let mut w: usize = 0;
    while w < workers
        invariant
            w <= workers,
            maps.len() == w,
            forall|i: int| 0 <= i < maps.len() ==> (#[trigger] maps[i]).wf(),
            readings_sum(maps@) == 0,
            merge_all(ledgers(maps@)) == Ledger::empty(),
        decreases workers - w,
    {
        let ghost before = maps@;
        maps.push(StationMap::new());
        proof {
            assert(maps@.drop_last() =~= before);
            assert(ledgers(maps@).drop_last() =~= ledgers(before));
            lemma_merge_empty(Ledger::empty());
        }
        w = w + 1;
    }
    let ghost done: Seq<u8> = Seq::empty();
    let mut j: usize = 0;
    proof {
        assert(source@.len() == source.len());
        assert(parts.skip(0) =~= parts);
        assert(done + parts.flatten() =~= source@);
        assert(readings_of(lines(done)) =~= Seq::<Reading>::empty());
    }
    while j < chunks.len()
        invariant
            j <= chunks.len(),
            workers > 0,
            maps.len() == workers,
            parts == contents(chunks@),
            partitions(parts, source@),
            done + parts.skip(j as int).flatten() == source@,
            source@.len() <= usize::MAX,
            j < chunks.len() ==> terminated(done),
            good_prefix(lines(done)) == lines(done).len(),
            lines(done).len() <= done.len(),
            forall|i: int| 0 <= i < maps.len() ==> (#[trigger] maps[i]).wf(),
            readings_sum(maps@) == lines(done).len(),
            merge_all(ledgers(maps@)) == tally(Map::empty(), readings_of(lines(done))),
        decreases chunks.len() - j,
    {
        let w: usize = j % workers;
        let ghost before = maps@;
        let ghost chunk = chunks[j as int]@;
        let ghost rest = parts.skip(j + 1).flatten();
        proof {
            let tail = parts.skip(j as int);
            assert(tail.first() == chunk);
            assert(tail.drop_first() =~= parts.skip(j + 1));
            assert(tail.flatten() == chunk + rest);
            assert(done + (chunk + rest) =~= done + chunk + rest);
            assert((done + chunk + rest).len() == done.len() + chunk.len() + rest.len());
            if j + 1 < chunks.len() {
                assert(terminated(parts[j as int]));
            } else {
                assert(parts.skip(j + 1) =~= Seq::<Seq<u8>>::empty());
            }
            lemma_chunk_processed(Map::empty(), source@, done, chunk, rest);
            lemma_readings_sum_update(before, w as int, before[w as int], 0);
        }
        let outcome = process_buffer(chunks[j].as_slice(), &mut maps[w]);
        let ghost taken = readings_of(lines(chunk).take(good_prefix(lines(chunk)) as int));
        let ghost grown = maps[w as int];
        match outcome {
            Err(e) => {
                return Err(e);
            },
            Ok(()) => {},
        }
        proof {
            assert(maps@ =~= before.update(w as int, grown));
            lemma_readings_sum_update(
                before,
                w as int,
                grown,
                good_prefix(lines(chunk)),
            );
            lemma_merge_tally(before[w as int]@, taken);
            assert(ledgers(maps@) =~= ledgers(before).update(
                w as int,
                merge(ledgers(before)[w as int], tally(Map::empty(), taken)),
            ));
            lemma_merge_all_update(ledgers(before), w as int, tally(Map::empty(), taken));
            lemma_split_tally(readings_of(lines(done)), taken);
            lemma_tally_concat(Map::empty(), readings_of(lines(done)), taken);
            assert forall|i: int| 0 <= i < maps.len() implies (#[trigger] maps[i]).wf() by {
                if i != w {
                    assert(maps[i] == before[i]);
                }
            }
            assert((done + chunk).len() == done.len() + chunk.len());
            assert(chunk.len() > 0);
            assert((done + chunk).last() == chunk.last());
            lemma_lines_len(done + chunk);
            done = done + chunk;
        }
        j = j + 1;
    }
    proof {
        assert(parts.skip(j as int) =~= Seq::<Seq<u8>>::empty());
        assert(done =~= source@);
        lemma_good_prefix(lines(source@));
    }
    let ghost all = ledgers(maps@);
    let ghost total = readings_sum(maps@);
    let mut global = StationMap::new();
    proof {
        lemma_merge_empty(merge_all(all));
    }
    while maps.len() > 0
        invariant
            global.wf(),
            forall|i: int| 0 <= i < maps.len() ==> (#[trigger] maps[i]).wf(),
            global.readings() + readings_sum(maps@) == total,
            total <= usize::MAX,
            merge_all(all) == merge(merge_all(ledgers(maps@)), global@),
        decreases maps.len(),
    {
        let ghost before = maps@;
        let ghost so_far = global@;
        let map = maps.pop().unwrap();
        proof {
            assert(maps@ =~= before.drop_last());
            assert(ledgers(before).drop_last() =~= ledgers(maps@));
            assert(ledgers(before).last() == map@);
            let front = merge_all(ledgers(maps@));
            lemma_merge_associative(front, map@, so_far);
            lemma_merge_commutative(map@, so_far);
        }
        global.merge_in(map);
    }
    proof {
        assert(ledgers(maps@) =~= Seq::<Ledger>::empty());
        lemma_merge_empty(global@);
    }
    Ok(summary(&mut global))
}

} // verus!
