//! The mathematics of name-to-summary mappings.
//!
//! A [`Ledger`] is what a table of stations means: a map from a name to the
//! summary of the values recorded under it. This module defines how a ledger
//! takes in readings and other ledgers, and proves that the outcome does not
//! depend on how the readings were split up or in what order the parts
//! arrive.

use vstd::prelude::*;
use crate::station::{lemma_fold_valid, lemma_join_valid, Summary, MAX_COUNT};

verus! {

/// A map from station name to the summary of its values.
pub type Ledger = Map<Seq<u8>, Summary>;

/// One record, read: a name and a number of tenths.
pub struct Reading {
    pub name: Seq<u8>,
    pub value: int,
}

/// The ledger after one more reading: a name not seen before is seeded, a
/// known one folds the value in.
pub open spec fn absorb(m: Ledger, name: Seq<u8>, value: int) -> Ledger {
    if m.dom().contains(name) {
        m.insert(name, m[name].fold(value))
    } else {
        m.insert(name, Summary::seed(value))
    }
}

/// The ledger after a run of readings, taken in order.
pub open spec fn tally(m: Ledger, readings: Seq<Reading>) -> Ledger
    decreases readings.len(),
{
    if readings.len() == 0 {
        m
    } else {
        absorb(tally(m, readings.drop_last()), readings.last().name, readings.last().value)
    }
}

/// The union of two ledgers: a name that both know has its summaries
/// joined, any other keeps the summary it has.
pub open spec fn merge(g: Ledger, p: Ledger) -> Ledger {
    Map::new(
        |k: Seq<u8>| g.dom().contains(k) || p.dom().contains(k),
        |k: Seq<u8>|
            if g.dom().contains(k) && p.dom().contains(k) {
                g[k].join(p[k])
            } else if g.dom().contains(k) {
                g[k]
            } else {
                p[k]
            },
    )
}

/// The ledgers of `parts` merged one after the other into an empty one.
pub open spec fn merge_all(parts: Seq<Ledger>) -> Ledger
    decreases parts.len(),
{
    if parts.len() == 0 {
        Map::empty()
    } else {
        merge(merge_all(parts.drop_last()), parts.last())
    }
}

/// Every summary of the ledger is valid, non-empty, and counts at most
/// `bound` values.
pub open spec fn ledger_valid(m: Ledger, bound: nat) -> bool {
    forall|k: Seq<u8>| #[trigger]
        m.dom().contains(k) ==> m[k].valid() && 1 <= m[k].count <= bound
}

/// Merging is commutative.
pub proof fn lemma_merge_commutative(a: Ledger, b: Ledger)
    ensures
        merge(a, b) == merge(b, a),
{
    assert(merge(a, b) =~= merge(b, a));
}

/// Merging is associative.
pub proof fn lemma_merge_associative(a: Ledger, b: Ledger, c: Ledger)
    ensures
        merge(merge(a, b), c) == merge(a, merge(b, c)),
{
    assert(merge(merge(a, b), c) =~= merge(a, merge(b, c)));
}

/// The empty ledger is neutral for merging.
pub proof fn lemma_merge_empty(a: Ledger)
    ensures
        merge(a, Map::empty()) == a,
        merge(Map::empty(), a) == a,
{
    assert(merge(a, Map::empty()) =~= a);
    assert(merge(Map::empty(), a) =~= a);
}

/// Any one part can be thought of as the part that arrived last.
pub proof fn lemma_merge_all_remove(parts: Seq<Ledger>, i: int)
    requires
        0 <= i < parts.len(),
    ensures
        merge_all(parts) == merge(merge_all(parts.remove(i)), parts[i]),
    decreases parts.len(),
{
    if i == parts.len() - 1 {
        assert(parts.remove(i) =~= parts.drop_last());
    } else {
        let front = parts.drop_last();
        lemma_merge_all_remove(front, i);
        let rest = front.remove(i);
        assert(parts.remove(i).drop_last() =~= rest);
        assert(parts.remove(i).last() == parts.last());
        lemma_merge_associative(merge_all(rest), parts[i], parts.last());
        lemma_merge_commutative(parts[i], parts.last());
        lemma_merge_associative(merge_all(rest), parts.last(), parts[i]);
    }
}

/// A part that grows by `extra` makes the whole grow by `extra`.
pub proof fn lemma_merge_all_update(parts: Seq<Ledger>, i: int, extra: Ledger)
    requires
        0 <= i < parts.len(),
    ensures
        merge_all(parts.update(i, merge(parts[i], extra))) == merge(merge_all(parts), extra),
{
    let grown = parts.update(i, merge(parts[i], extra));
    lemma_merge_all_remove(parts, i);
    lemma_merge_all_remove(grown, i);
    assert(grown.remove(i) =~= parts.remove(i));
    lemma_merge_associative(merge_all(parts.remove(i)), parts[i], extra);
}

/// Order-independence: partial ledgers merged in any order of arrival give
/// the same ledger. Two arrival orders of the same parts are two sequences
/// with the same multiset of elements.
pub proof fn lemma_merge_all_any_order(s: Seq<Ledger>, t: Seq<Ledger>)
    requires
        s.to_multiset() == t.to_multiset(),
    ensures
        merge_all(s) == merge_all(t),
    decreases s.len(),
{
    s.to_multiset_ensures();
    t.to_multiset_ensures();
    if s.len() == 0 {
        assert(t.len() == 0);
    } else {
        let x = s.last();
        assert(s[s.len() - 1] == x);
        assert(s.contains(x));
        assert(s.to_multiset().count(x) > 0);
        assert(t.to_multiset().count(x) > 0);
        assert(t.contains(x));
        let i = choose|i: int| 0 <= i < t.len() && t[i] == x;
        assert(s.remove(s.len() - 1) =~= s.drop_last());
        assert(s.drop_last().to_multiset() == t.remove(i).to_multiset());
        lemma_merge_all_any_order(s.drop_last(), t.remove(i));
        lemma_merge_all_remove(t, i);
    }
}

/// A run of readings can be taken in two stretches.
pub proof fn lemma_tally_concat(m: Ledger, first: Seq<Reading>, second: Seq<Reading>)
    ensures
        tally(m, first + second) == tally(tally(m, first), second),
    decreases second.len(),
{
    if second.len() == 0 {
        assert(first + second =~= first);
    } else {
        lemma_tally_concat(m, first, second.drop_last());
        assert((first + second).drop_last() =~= first + second.drop_last());
        assert((first + second).last() == second.last());
    }
}

/// Taking a reading and merging commute.
pub proof fn lemma_merge_absorb(g: Ledger, p: Ledger, name: Seq<u8>, value: int)
    ensures
        merge(g, absorb(p, name, value)) == absorb(merge(g, p), name, value),
{
    assert(merge(g, absorb(p, name, value)) =~= absorb(merge(g, p), name, value));
}

/// Readings tallied apart and then merged in are readings tallied directly.
pub proof fn lemma_merge_tally(g: Ledger, readings: Seq<Reading>)
    ensures
        merge(g, tally(Map::empty(), readings)) == tally(g, readings),
    decreases readings.len(),
{
    if readings.len() == 0 {
        lemma_merge_empty(g);
    } else {
        lemma_merge_tally(g, readings.drop_last());
        lemma_merge_absorb(
            g,
            tally(Map::empty(), readings.drop_last()),
            readings.last().name,
            readings.last().value,
        );
    }
}

/// Partition-independence: readings split into two stretches, each tallied
/// on its own, merge into the tally of the whole run.
pub proof fn lemma_split_tally(first: Seq<Reading>, second: Seq<Reading>)
    ensures
        merge(tally(Map::empty(), first), tally(Map::empty(), second)) == tally(
            Map::empty(),
            first + second,
        ),
{
    lemma_merge_tally(tally(Map::empty(), first), second);
    lemma_tally_concat(Map::empty(), first, second);
}

/// Taking a reading keeps a ledger valid, with one more value counted.
pub proof fn lemma_absorb_valid(m: Ledger, bound: nat, name: Seq<u8>, value: int)
    requires
        ledger_valid(m, bound),
        bound < MAX_COUNT,
        i64::MIN <= value <= i64::MAX,
    ensures
        ledger_valid(absorb(m, name, value), bound + 1),
{
    let after = absorb(m, name, value);
    assert forall|k: Seq<u8>| #[trigger] after.dom().contains(k) implies after[k].valid() && 1
        <= after[k].count <= bound + 1 by {
        if k == name {
            if m.dom().contains(name) {
                lemma_fold_valid(m[name], value);
            }
        } else {
            assert(m.dom().contains(k));
        }
    }
}

/// Merging keeps ledgers valid, the bounds adding up.
pub proof fn lemma_merge_valid(g: Ledger, g_bound: nat, p: Ledger, p_bound: nat)
    requires
        ledger_valid(g, g_bound),
        ledger_valid(p, p_bound),
        g_bound + p_bound <= MAX_COUNT,
    ensures
        ledger_valid(merge(g, p), g_bound + p_bound),
{
    let after = merge(g, p);
    assert forall|k: Seq<u8>| #[trigger] after.dom().contains(k) implies after[k].valid() && 1
        <= after[k].count <= g_bound + p_bound by {
        if g.dom().contains(k) && p.dom().contains(k) {
            lemma_join_valid(g[k], p[k]);
        }
    }
}

} // verus!
