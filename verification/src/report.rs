//! The summary line: `{ name=min/mean/max, ... }`, names in ascending order.

use vstd::prelude::*;
use crate::cursor::append;
use crate::ledger::{ledger_valid, Ledger};
use crate::station::Station;
use crate::table::{holds, StationMap};

verus! {

/// The byte `{`.
pub const OPEN: u8 = 123;

/// The byte `}`.
pub const CLOSE: u8 = 125;

/// The byte `,`.
pub const COMMA: u8 = 44;

/// A blank.
pub const SPACE: u8 = 32;

/// How many leading bytes two names have in common.
pub open spec fn mismatch(a: Seq<u8>, b: Seq<u8>) -> nat
    decreases a.len(),
{
    if a.len() == 0 || b.len() == 0 || a[0] != b[0] {
        0
    } else {
        1 + mismatch(a.skip(1), b.skip(1))
    }
}

/// The order of names: byte by byte; a name comes before every longer name
/// that starts with it.
pub open spec fn name_lt(a: Seq<u8>, b: Seq<u8>) -> bool {
    let k = mismatch(a, b) as int;
    k < b.len() && (k == a.len() || a[k] < b[k])
}

/// Names in strictly ascending order.
pub open spec fn ascending(names: Seq<Seq<u8>>) -> bool {
    forall|i: int, j: int| 0 <= i < j < names.len() ==> name_lt(#[trigger] names[i], #[trigger] names[j])
}

/// `names` lists the names of `m`, each once, in ascending order.
pub open spec fn is_listing(names: Seq<Seq<u8>>, m: Ledger) -> bool {
    &&& ascending(names)
    &&& forall|i: int| 0 <= i < names.len() ==> m.dom().contains(#[trigger] names[i])
    &&& forall|k: Seq<u8>| #[trigger] m.dom().contains(k) ==> names.contains(k)
}

/// The entries of `names`, each as `name=min/mean/max`, with `, ` between
/// them.
pub open spec fn joined(m: Ledger, names: Seq<Seq<u8>>) -> Seq<u8>
    decreases names.len(),
{
    if names.len() == 0 {
        Seq::empty()
    } else if names.len() == 1 {
        names[0] + m[names[0]].text()
    } else {
        joined(m, names.drop_last()) + seq![COMMA, SPACE] + names.last() + m[names.last()].text()
    }
}

/// The names of `m` in ascending order.
pub open spec fn listing(m: Ledger) -> Seq<Seq<u8>> {
    choose|names: Seq<Seq<u8>>| is_listing(names, m)
}

/// The summary line of a ledger: `{ `, the entries in ascending order of
/// their names, ` }`.
pub open spec fn summary_text(m: Ledger) -> Seq<u8> {
    seq![OPEN, SPACE] + joined(m, listing(m)) + seq![SPACE, CLOSE]
}

/// Where two names first differ.
pub proof fn lemma_mismatch(a: Seq<u8>, b: Seq<u8>)
    ensures
        mismatch(a, b) <= a.len(),
        mismatch(a, b) <= b.len(),
        forall|i: int| 0 <= i < mismatch(a, b) ==> a[i] == b[i],
        mismatch(a, b) < a.len() && mismatch(a, b) < b.len() ==> a[mismatch(a, b) as int]
            != b[mismatch(a, b) as int],
    decreases a.len(),
{
    if a.len() == 0 || b.len() == 0 || a[0] != b[0] {
    } else {
        lemma_mismatch(a.skip(1), b.skip(1));
        assert forall|i: int| 0 <= i < mismatch(a, b) implies a[i] == b[i] by {
            if i > 0 {
                assert(a.skip(1)[i - 1] == a[i]);
                assert(b.skip(1)[i - 1] == b[i]);
            }
        }
    }
}

/// Two names first differ where `mismatch` says.
pub proof fn lemma_mismatch_is(a: Seq<u8>, b: Seq<u8>, k: int)
    requires
        0 <= k <= a.len(),
        k <= b.len(),
        forall|i: int| 0 <= i < k ==> a[i] == b[i],
        k < a.len() && k < b.len() ==> a[k] != b[k],
    ensures
        mismatch(a, b) == k,
{
    lemma_mismatch(a, b);
    let r = mismatch(a, b) as int;
    if r < k {
        assert(a[r] == b[r]);
    } else if r > k {
        assert(a[k] == b[k]);
    }
}

/// No name comes before itself.
pub proof fn lemma_name_lt_irreflexive(a: Seq<u8>)
    ensures
        !name_lt(a, a),
{
    lemma_mismatch_is(a, a, a.len() as int);
}

/// Of two different names one comes before the other.
pub proof fn lemma_name_lt_total(a: Seq<u8>, b: Seq<u8>)
    ensures
        a == b || name_lt(a, b) || name_lt(b, a),
        !(name_lt(a, b) && name_lt(b, a)),
{
    lemma_mismatch(a, b);
    let k = mismatch(a, b) as int;
    lemma_mismatch_is(b, a, k);
    if k == a.len() && k == b.len() {
        assert(a =~= b);
    }
}

/// The order of names is transitive.
pub proof fn lemma_name_lt_transitive(a: Seq<u8>, b: Seq<u8>, c: Seq<u8>)
    requires
        name_lt(a, b),
        name_lt(b, c),
    ensures
        name_lt(a, c),
{
    lemma_mismatch(a, b);
    lemma_mismatch(b, c);
    let k1 = mismatch(a, b) as int;
    let k2 = mismatch(b, c) as int;
    let k = if k1 <= k2 {
        k1
    } else {
        k2
    };
    lemma_mismatch_is(a, c, k);
}

/// A ledger has one listing only.
pub proof fn lemma_listing_unique(m: Ledger, a: Seq<Seq<u8>>, b: Seq<Seq<u8>>)
    requires
        is_listing(a, m),
        is_listing(b, m),
    ensures
        a == b,
    decreases a.len(),
{
    if a.len() == 0 {
        if b.len() > 0 {
            assert(m.dom().contains(b[0]));
            assert(a.contains(b[0]));
        }
        assert(a =~= b);
    } else {
        assert(m.dom().contains(a[0]));
        assert(b.contains(a[0]));
        let i = choose|i: int| 0 <= i < b.len() && b[i] == a[0];
        assert(m.dom().contains(b[0]));
        assert(a.contains(b[0]));
        let j = choose|j: int| 0 <= j < a.len() && a[j] == b[0];
        lemma_name_lt_total(a[0], b[0]);
        assert(a[0] == b[0]) by {
            if i > 0 {
                assert(name_lt(b[0], b[i]));
            }
            if j > 0 {
                assert(name_lt(a[0], a[j]));
            }
        }
        let first = a[0];
        let rest = m.remove(first);
        let ta = a.skip(1);
        let tb = b.skip(1);
        assert(is_listing(ta, rest)) by {
            lemma_tail_listing(m, a);
        }
        assert(is_listing(tb, rest)) by {
            lemma_tail_listing(m, b);
        }
        lemma_listing_unique(rest, ta, tb);
        assert(a =~= seq![first] + ta);
        assert(b =~= seq![first] + tb);
    }
}

/// A listing without its first name lists the ledger without that name.
proof fn lemma_tail_listing(m: Ledger, a: Seq<Seq<u8>>)
    requires
        is_listing(a, m),
        a.len() > 0,
    ensures
        is_listing(a.skip(1), m.remove(a[0])),
{
    let t = a.skip(1);
    let rest = m.remove(a[0]);
    assert forall|i: int, j: int| 0 <= i < j < t.len() implies name_lt(
        #[trigger] t[i],
        #[trigger] t[j],
    ) by {
        assert(t[i] == a[i + 1] && t[j] == a[j + 1]);
    }
    assert forall|i: int| 0 <= i < t.len() implies rest.dom().contains(#[trigger] t[i]) by {
        assert(t[i] == a[i + 1]);
        assert(name_lt(a[0], a[i + 1]));
        lemma_name_lt_irreflexive(a[0]);
    }
    assert forall|k: Seq<u8>| #[trigger] rest.dom().contains(k) implies t.contains(k) by {
        assert(m.dom().contains(k));
        assert(a.contains(k));
        let i = choose|i: int| 0 <= i < a.len() && a[i] == k;
        assert(i > 0);
        assert(t[i - 1] == k);
    }
}

/// Whether name `a` comes before name `b`.
pub fn name_less(a: &[u8], b: &[u8]) -> (r: bool)
    ensures
        r == name_lt(a@, b@),
{
    let mut i: usize = 0;
    while i < a.len() && i < b.len() && a[i] == b[i]
        invariant
            i <= a.len(),
            i <= b.len(),
            forall|j: int| 0 <= j < i ==> a@[j] == b@[j],
        decreases a.len() - i,
    {
        i = i + 1;
    }
    proof {
        lemma_mismatch_is(a@, b@, i as int);
    }
    i < b.len() && (i == a.len() || a[i] < b[i])
}

/// The names of `entries` in the order given by `order`.
pub open spec fn names_in(entries: Seq<(Vec<u8>, Station)>, order: Seq<usize>) -> Seq<Seq<u8>> {
    Seq::new(order.len(), |i: int| entries[order[i] as int].0@)
}

/// Puts the entries in order of their names: the result holds each index of
/// `entries` once, and the names read in that order ascend.
pub fn sort_by_name(entries: &Vec<(Vec<u8>, Station)>) -> (order: Vec<usize>)
    requires
        forall|i: int, j: int|
            0 <= i < j < entries.len() ==> (#[trigger] entries[i]).0@ != (#[trigger] entries[j]).0@,
    ensures
        order.len() == entries.len(),
        forall|i: int| 0 <= i < order.len() ==> (#[trigger] order[i]) < entries.len(),
        forall|e: usize| e < entries.len() ==> order@.contains(e),
        ascending(names_in(entries@, order@)),
{
    let mut order: Vec<usize> = Vec::new();
    let mut next: usize = 0;
    while next < entries.len()
        invariant
            next <= entries.len(),
            order.len() == next,
            forall|i: int| 0 <= i < order.len() ==> (#[trigger] order[i]) < next,
            forall|e: usize| e < next ==> order@.contains(e),
            ascending(names_in(entries@, order@)),
            forall|i: int, j: int|
                0 <= i < j < entries.len() ==> (#[trigger] entries[i]).0@ != (
                #[trigger] entries[j]).0@,
        decreases entries.len() - next,
    {
        let ghost before = order@;
        let ghost names = names_in(entries@, before);
        let ghost fresh = entries[next as int].0@;
        let mut at: usize = 0;
        while at < order.len() && !name_less(
            entries[next].0.as_slice(),
            entries[order[at]].0.as_slice(),
        )
            invariant
                at <= order.len(),
                order@ == before,
                next < entries.len(),
                fresh == entries[next as int].0@,
                names == names_in(entries@, before),
                forall|i: int| 0 <= i < order.len() ==> (#[trigger] order[i]) < next,
                forall|i: int| 0 <= i < at ==> !name_lt(fresh, #[trigger] names[i]),
            decreases order.len() - at,
        {
            at = at + 1;
        }
        order.insert(at, next);
        proof {
            let after = names_in(entries@, order@);
            assert forall|i: int, j: int| 0 <= i < j < after.len() implies name_lt(
                #[trigger] after[i],
                #[trigger] after[j],
            ) by {
                let p = at as int;
                if j < p {
                    assert(after[i] == names[i] && after[j] == names[j]);
                } else if j == p {
                    assert(after[i] == names[i]);
                    assert(after[j] == fresh);
                    assert(before[i] < next);
                    assert(entries[before[i] as int].0@ != entries[next as int].0@);
                    lemma_name_lt_total(names[i], fresh);
                } else if i < p {
                    assert(after[i] == names[i] && after[j] == names[j - 1]);
                } else if i == p {
                    assert(after[i] == fresh);
                    assert(after[j] == names[j - 1]);
                    assert(name_lt(fresh, names[p]));
                    if j - 1 > p {
                        assert(name_lt(names[p], names[j - 1]));
                        lemma_name_lt_transitive(fresh, names[p], names[j - 1]);
                    }
                } else {
                    assert(after[i] == names[i - 1] && after[j] == names[j - 1]);
                }
            }
            assert forall|e: usize| e < next + 1 implies order@.contains(e) by {
                if e == next {
                    assert(order@[at as int] == next);
                } else {
                    assert(before.contains(e));
                    let q = choose|q: int| 0 <= q < before.len() && before[q] == e;
                    if q < at {
                        assert(order@[q] == before[q]);
                    } else {
                        assert(order@[q + 1] == before[q]);
                    }
                }
            }
            assert forall|i: int| 0 <= i < order.len() implies (#[trigger] order[i]) < next + 1 by {
                if i < at {
                    assert(order@[i] == before[i]);
                } else if i > at {
                    assert(order@[i] == before[i - 1]);
                }
            }
        }
        next = next + 1;
    }
    order
}

/// Writes the summary line of `map` and leaves the map empty: every name
/// with its minimum, mean and maximum, the names in ascending order.
pub fn summary(map: &mut StationMap) -> (line: Vec<u8>)
    requires
        old(map).wf(),
    ensures
        line@ == summary_text(old(map)@),
        final(map)@ == Ledger::empty(),
        final(map).readings() == 0,
        final(map).wf(),
{
    let ghost m = map@;
    let entries = map.drain();
    let order = sort_by_name(&entries);
    let ghost names = names_in(entries@, order@);
    let mut out: Vec<u8> = Vec::new();
    out.push(OPEN);
    out.push(SPACE);
    let mut i: usize = 0;
    while i < order.len()
        invariant
            i <= order.len(),
            order.len() == entries.len(),
            names == names_in(entries@, order@),
            forall|q: int| 0 <= q < order.len() ==> (#[trigger] order[q]) < entries.len(),
            holds(entries@, m),
            ledger_valid(m, old(map).readings() as nat),
            out@ == seq![OPEN, SPACE] + joined(m, names.take(i as int)),
        decreases order.len() - i,
    {
        let ghost sofar = names.take(i as int);
        let ghost grown = names.take(i + 1);
        if i > 0 {
            out.push(COMMA);
            out.push(SPACE);
        }
        let entry = &entries[order[i]];
        assert(entry.0@ == names[i as int]);
        assert(m.dom().contains(entry.0@) && m[entry.0@] == entry.1@);
        append(&mut out, entry.0.as_slice());
        entry.1.render(&mut out);
        proof {
            assert(grown.drop_last() =~= sofar);
            assert(grown.last() == names[i as int]);
            if i == 0 {
                assert(sofar =~= Seq::<Seq<u8>>::empty());
                assert(out@ =~= seq![OPEN, SPACE] + joined(m, grown));
            } else {
                assert(out@ =~= seq![OPEN, SPACE] + joined(m, grown));
            }
        }
        i = i + 1;
    }
    out.push(SPACE);
    out.push(CLOSE);
    proof {
        assert(names.take(i as int) =~= names);
        assert forall|k: Seq<u8>| #[trigger] m.dom().contains(k) implies names.contains(k) by {
            let e = choose|e: int| 0 <= e < entries.len() && (#[trigger] entries[e]).0@ == k;
            assert(order@.contains(e as usize));
            let q = choose|q: int| 0 <= q < order.len() && order[q] == e;
            assert(names[q] == k);
        }
        assert forall|q: int| 0 <= q < names.len() implies m.dom().contains(#[trigger] names[q]) by {
            assert(order[q] < entries.len());
            assert(m.dom().contains(entries[order[q] as int].0@));
        }
        assert(is_listing(names, m));
        lemma_listing_unique(m, names, listing(m));
        assert(out@ =~= summary_text(m));
    }
    out
}

} // verus!
