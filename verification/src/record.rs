//! Records: lines of the form `name;value`.
//!
//! A buffer holds lines ended by a line feed; the last line may go without
//! one. A line is a record if it holds a `;`: the bytes before the first `;`
//! are the name, the bytes after it the value.

use vstd::prelude::*;
use vstd::slice::slice_subrange;
use crate::decimal::{parse_tenths, parse_value};
use crate::error::Error;
use crate::ledger::{absorb, tally, Reading};
use crate::table::StationMap;

verus! {

/// The line terminator.
pub const NEWLINE: u8 = 10;

/// The field separator `;`.
pub const SEPARATOR: u8 = 59;

/// The index of the first `b` in `s`, or the length of `s` if it holds none.
pub open spec fn index_of(s: Seq<u8>, b: u8) -> nat
    decreases s.len(),
{
    if s.len() == 0 || s[0] == b {
        0
    } else {
        1 + index_of(s.skip(1), b)
    }
}

/// `index_of` finds an occurrence, and the first one.
pub proof fn lemma_index_of(s: Seq<u8>, b: u8)
    ensures
        index_of(s, b) <= s.len(),
        index_of(s, b) < s.len() ==> s[index_of(s, b) as int] == b,
        forall|i: int| 0 <= i < index_of(s, b) ==> s[i] != b,
    decreases s.len(),
{
    if s.len() == 0 || s[0] == b {
    } else {
        lemma_index_of(s.skip(1), b);
        let k = index_of(s.skip(1), b);
        assert forall|i: int| 0 <= i < index_of(s, b) implies s[i] != b by {
            if i > 0 {
                assert(s.skip(1)[i - 1] == s[i]);
            }
        }
    }
}

/// The first occurrence is where `index_of` says.
pub proof fn lemma_index_of_is(s: Seq<u8>, b: u8, k: int)
    requires
        0 <= k <= s.len(),
        k < s.len() ==> s[k] == b,
        forall|i: int| 0 <= i < k ==> s[i] != b,
    ensures
        index_of(s, b) == k,
{
    lemma_index_of(s, b);
    let r = index_of(s, b) as int;
    if r < k {
        assert(s[r] == b);
    } else if r > k {
        assert(s[k] != b);
    }
}

/// The lines of a buffer: the stretches between line feeds. A line feed at
/// the very end opens no further line.
pub open spec fn lines(s: Seq<u8>) -> Seq<Seq<u8>>
    decreases s.len(),
{
    if s.len() == 0 {
        Seq::empty()
    } else {
        let k = index_of(s, NEWLINE) as int;
        if k >= s.len() {
            seq![s]
        } else {
            seq![s.take(k)] + lines(s.skip(k + 1))
        }
    }
}

/// Whether a buffer can be followed by more bytes without a line running
/// across the joint: it is empty or ends with a line feed.
pub open spec fn terminated(s: Seq<u8>) -> bool {
    s.len() == 0 || s.last() == NEWLINE
}

/// What a line means: a reading, or the reason why it is none.
pub open spec fn parse_line(line: Seq<u8>) -> Result<Reading, Error> {
    let k = index_of(line, SEPARATOR) as int;
    if k >= line.len() {
        Err(Error::MalformedRecord)
    } else {
        match parse_tenths(line.skip(k + 1)) {
            Some(value) => Ok(Reading { name: line.take(k), value }),
            None => Err(Error::MalformedValue),
        }
    }
}

/// How many lines there are before the first one that is no record.
pub open spec fn good_prefix(ls: Seq<Seq<u8>>) -> nat
    decreases ls.len(),
{
    if ls.len() == 0 || parse_line(ls[0]) is Err {
        0
    } else {
        1 + good_prefix(ls.skip(1))
    }
}

/// The readings of a run of lines that are all records.
pub open spec fn readings_of(ls: Seq<Seq<u8>>) -> Seq<Reading> {
    Seq::new(ls.len(), |i: int| parse_line(ls[i])->Ok_0)
}

/// What processing a run of lines returns: the error of the first line that
/// is no record, if there is one.
pub open spec fn verdict(ls: Seq<Seq<u8>>) -> Result<(), Error> {
    let n = good_prefix(ls) as int;
    if n >= ls.len() {
        Ok(())
    } else {
        Err(parse_line(ls[n])->Err_0)
    }
}

/// The first line that is no record is where `good_prefix` says.
pub proof fn lemma_good_prefix_is(ls: Seq<Seq<u8>>, n: int)
    requires
        0 <= n <= ls.len(),
        forall|i: int| 0 <= i < n ==> parse_line(#[trigger] ls[i]) is Ok,
        n < ls.len() ==> parse_line(ls[n]) is Err,
    ensures
        good_prefix(ls) == n,
    decreases n,
{
    if n > 0 {
        assert(parse_line(ls[0]) is Ok);
        assert forall|i: int| 0 <= i < n - 1 implies parse_line(#[trigger] ls.skip(1)[i]) is Ok by {
            assert(ls.skip(1)[i] == ls[i + 1]);
        }
        lemma_good_prefix_is(ls.skip(1), n - 1);
    }
}

/// Every line before `good_prefix` is a record, and the line there is none.
pub proof fn lemma_good_prefix(ls: Seq<Seq<u8>>)
    ensures
        good_prefix(ls) <= ls.len(),
        forall|i: int| 0 <= i < good_prefix(ls) ==> parse_line(#[trigger] ls[i]) is Ok,
        good_prefix(ls) < ls.len() ==> parse_line(ls[good_prefix(ls) as int]) is Err,
    decreases ls.len(),
{
    if ls.len() == 0 || parse_line(ls[0]) is Err {
    } else {
        lemma_good_prefix(ls.skip(1));
        assert forall|i: int| 0 <= i < good_prefix(ls) implies parse_line(#[trigger] ls[i]) is Ok by {
            if i > 0 {
                assert(ls.skip(1)[i - 1] == ls[i]);
            }
        }
    }
}

/// No line of a buffer runs across a joint that follows a line feed: the
/// lines of two buffers, the first of them terminated, are the lines of the
/// first followed by the lines of the second.
pub proof fn lemma_lines_concat(a: Seq<u8>, b: Seq<u8>)
    requires
        terminated(a),
    ensures
        lines(a + b) == lines(a) + lines(b),
    decreases a.len(),
{
    if a.len() == 0 {
        assert(a + b =~= b);
        assert(lines(a) + lines(b) =~= lines(b));
    } else {
        lemma_index_of(a, NEWLINE);
        let k = index_of(a, NEWLINE) as int;
        if k >= a.len() {
            assert(a[a.len() - 1] != NEWLINE);
        }
        assert(k < a.len());
        assert forall|i: int| 0 <= i < k implies (a + b)[i] != NEWLINE by {
            assert((a + b)[i] == a[i]);
        }
        lemma_index_of_is(a + b, NEWLINE, k);
        assert((a + b).take(k) =~= a.take(k));
        assert((a + b).skip(k + 1) =~= a.skip(k + 1) + b);
        let rest = a.skip(k + 1);
        if rest.len() > 0 {
            assert(rest.last() == a.last());
        }
        lemma_lines_concat(rest, b);
        assert(lines(a + b) =~= lines(a) + lines(b));
    }
}

/// A buffer has at most as many lines as bytes.
pub proof fn lemma_lines_len(s: Seq<u8>)
    ensures
        lines(s).len() <= s.len(),
    decreases s.len(),
{
    if s.len() > 0 {
        lemma_index_of(s, NEWLINE);
        let k = index_of(s, NEWLINE) as int;
        if k < s.len() {
            lemma_lines_len(s.skip(k + 1));
        }
    }
}

/// Finds the first `b` at or after `from`; returns the length of `s` if
/// there is none.
pub fn find_byte(s: &[u8], from: usize, b: u8) -> (r: usize)
    requires
        from <= s.len(),
    ensures
        r == from + index_of(s@.skip(from as int), b),
        from <= r <= s.len(),
{
    let mut i: usize = from;
    while i < s.len() && s[i] != b
        invariant
            from <= i <= s.len(),
            forall|j: int| from <= j < i ==> s@[j] != b,
        decreases s.len() - i,
    {
        i = i + 1;
    }
    proof {
        let rest = s@.skip(from as int);
        assert forall|j: int| 0 <= j < i - from implies rest[j] != b by {
            assert(rest[j] == s@[from + j]);
        }
        lemma_index_of_is(rest, b, i - from);
    }
    i
}

/// Reads one line and takes its reading into `map`. A line that is no
/// record leaves the map as it is.
pub fn process_line(line: &[u8], map: &mut StationMap) -> (r: Result<(), Error>)
    requires
        old(map).wf(),
        old(map).readings() < u64::MAX,
    ensures
        final(map).wf(),
        match parse_line(line@) {
            Ok(reading) => r is Ok && final(map)@ == absorb(
                old(map)@,
                reading.name,
                reading.value,
            ) && final(map).readings() == old(map).readings() + 1,
            Err(e) => r == Err::<(), Error>(e) && final(map)@ == old(map)@ && final(map).readings()
                == old(map).readings(),
        },
{
    let k: usize = find_byte(line, 0, SEPARATOR);
    assert(line@.skip(0) =~= line@);
    if k >= line.len() {
        return Err(Error::MalformedRecord);
    }
    let name = slice_subrange(line, 0, k);
    let field = slice_subrange(line, k + 1, line.len());
    match parse_value(field) {
        Some(value) => {
            map.record(name, value);
            Ok(())
        },
        None => Err(Error::MalformedValue),
    }
}

/// Reads a buffer line by line and takes the readings into `map`, up to the
/// first line that is no record.
pub fn process_buffer(buffer: &[u8], map: &mut StationMap) -> (r: Result<(), Error>)
    requires
        old(map).wf(),
        old(map).readings() + buffer.len() <= u64::MAX,
    ensures
        final(map).wf(),
        final(map)@ == tally(
            old(map)@,
            readings_of(lines(buffer@).take(good_prefix(lines(buffer@)) as int)),
        ),
        final(map).readings() == old(map).readings() + good_prefix(lines(buffer@)),
        r == verdict(lines(buffer@)),
{
    let n: usize = buffer.len();
    let ghost all = lines(buffer@);
    let ghost start = map@;
    let ghost start_readings = map.readings();
    let ghost done: Seq<Seq<u8>> = Seq::empty();
    let mut pos: usize = 0;
    assert(buffer@.skip(0) =~= buffer@);
    assert(readings_of(done) =~= Seq::<Reading>::empty());
    while pos < n
        invariant
            pos <= n,
            n == buffer.len(),
            all == lines(buffer@),
            all == done + lines(buffer@.skip(pos as int)),
            forall|i: int| 0 <= i < done.len() ==> parse_line(#[trigger] done[i]) is Ok,
            done.len() <= pos,
            map.wf(),
            start == old(map)@,
            start_readings == old(map).readings(),
            map@ == tally(start, readings_of(done)),
            map.readings() == start_readings + done.len(),
            start_readings + n <= u64::MAX,
        decreases n - pos,
    {
        let ghost rest = buffer@.skip(pos as int);
        let end: usize = find_byte(buffer, pos, NEWLINE);
        let line = slice_subrange(buffer, pos, end);
        let ghost k = end - pos;
        assert(line@ =~= rest.take(k));
        let next: usize = if end < n {
            end + 1
        } else {
            n
        };
        proof {
            if end < n {
                assert(rest.skip(k + 1) =~= buffer@.skip(next as int));
            } else {
                assert(rest.take(k) =~= rest);
                assert(buffer@.skip(next as int) =~= Seq::<u8>::empty());
            }
            assert(lines(rest) =~= seq![line@] + lines(buffer@.skip(next as int)));
            assert(all =~= done.push(line@) + lines(buffer@.skip(next as int)));
            assert(all[done.len() as int] == line@);
            assert(all.take(done.len() as int) =~= done);
        }
        match process_line(line, map) {
            Ok(()) => {},
            Err(e) => {
                proof {
                    assert forall|i: int| 0 <= i < done.len() implies parse_line(
                        #[trigger] all[i],
                    ) is Ok by {
                        assert(all[i] == done[i]);
                    }
                    lemma_good_prefix_is(all, done.len() as int);
                }
                return Err(e);
            },
        }
        proof {
            let grown = done.push(line@);
            assert(readings_of(grown).drop_last() =~= readings_of(done));
            assert(readings_of(grown).last() == parse_line(line@)->Ok_0);
            done = grown;
        }
        pos = next;
    }
    proof {
        assert(buffer@.skip(pos as int) =~= Seq::<u8>::empty());
        assert(all =~= done);
        lemma_good_prefix_is(all, all.len() as int);
        assert(all.take(all.len() as int) =~= all);
    }
    Ok(())
}

} // verus!
