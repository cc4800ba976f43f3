//! The table of stations: a hash map from name to [`Station`].
//!
//! The hash map itself is `hashbrown::HashMap`. Verus does not read it, so
//! this module states what each of its methods does to the map's contents
//! ([`table_contents`]) and builds the verified [`StationMap`] on those
//! statements.

use vstd::prelude::*;
use vstd::slice::slice_to_vec;
use crate::ledger::{absorb, ledger_valid, lemma_absorb_valid, lemma_merge_valid, merge, Ledger};
use crate::station::{Station, MAX_COUNT};

verus! {

/// The most entries a table is asked to make room for in advance.
pub const MAX_RESERVE: usize = 65536;

/// A `hashbrown::HashMap` from name to station.
///
/// Not verified: Verus sees this type only through [`table_contents`] and the
/// functions below that speak of it.
#[verifier::external_body]
pub struct Table {
    inner: hashbrown::HashMap<Vec<u8>, Station>,
}

/// The entries that a table holds, by the bytes of the name.
pub uninterp spec fn table_contents(t: Table) -> Map<Seq<u8>, Station>;

/// `entries` lists `m`: every entry of the list is an entry of the map, no
/// name comes twice, and every name of the map is there. The order is left
/// open.
pub open spec fn lists(entries: Seq<(Vec<u8>, Station)>, m: Map<Seq<u8>, Station>) -> bool {
    &&& forall|i: int|
        0 <= i < entries.len() ==> m.dom().contains((#[trigger] entries[i]).0@) && m[entries[i].0@]
            == entries[i].1
    &&& forall|i: int, j: int|
        0 <= i < j < entries.len() ==> (#[trigger] entries[i]).0@ != (#[trigger] entries[j]).0@
    &&& forall|k: Seq<u8>| #[trigger]
        m.dom().contains(k) ==> exists|i: int| 0 <= i < entries.len() && (#[trigger] entries[i]).0@ == k
}

/// `hashbrown::HashMap::with_capacity`: a table without entries. The
/// capacity is kept small enough that sizing the table cannot overflow.
#[verifier::external_body]
fn table_with_capacity(capacity: usize) -> (r: Table)
    requires
        capacity <= MAX_RESERVE,
    ensures
        table_contents(r) =~= Map::empty(),
{
    Table { inner: hashbrown::HashMap::with_capacity(capacity) }
}

/// `hashbrown::HashMap::get`: the station stored under `key`, if there is
/// one.
#[verifier::external_body]
fn table_get<'a>(t: &'a Table, key: &[u8]) -> (r: Option<&'a Station>)
    ensures
        match r {
            Some(s) => table_contents(*t).dom().contains(key@) && *s == table_contents(*t)[key@],
            None => !table_contents(*t).dom().contains(key@),
        },
{
    t.inner.get(key)
}

/// `hashbrown::HashMap::get_mut`: the station stored under `key`, if there
/// is one, to be changed in place. No other entry changes, and none is added
/// or removed.
#[verifier::external_body]
fn table_get_mut<'a>(t: &'a mut Table, key: &[u8]) -> (r: Option<&'a mut Station>)
    ensures
        match r {
            Some(s) => table_contents(*old(t)).dom().contains(key@) && *s == table_contents(
                *old(t),
            )[key@] && table_contents(*final(t)) == table_contents(*old(t)).insert(
                key@,
                *final(s),
            ),
            None => !table_contents(*old(t)).dom().contains(key@) && table_contents(*final(t))
                == table_contents(*old(t)),
        },
{
    t.inner.get_mut(key)
}

/// `hashbrown::HashMap::insert`: stores `value` under `key`, replacing and
/// returning what was stored there before.
#[verifier::external_body]
fn table_insert(t: &mut Table, key: Vec<u8>, value: Station) -> (r: Option<Station>)
    ensures
        table_contents(*final(t)) == table_contents(*old(t)).insert(key@, value),
        match r {
            Some(s) => table_contents(*old(t)).dom().contains(key@) && s == table_contents(
                *old(t),
            )[key@],
            None => !table_contents(*old(t)).dom().contains(key@),
        },
{
    t.inner.insert(key, value)
}

/// `hashbrown::HashMap::drain`: empties the table and hands out its entries,
/// each once, in an order that is not specified.
#[verifier::external_body]
fn table_drain(t: &mut Table) -> (r: Vec<(Vec<u8>, Station)>)
    ensures
        lists(r@, table_contents(*old(t))),
        table_contents(*final(t)) =~= Map::empty(),
{
    t.inner.drain().collect()
}

/// A mapping from station name to running statistic.
///
/// Besides the entries it keeps count of all the readings it has taken in,
/// its own and those of the maps merged into it. No station can have seen
/// more values than that, which is what keeps the arithmetic in range.
pub struct StationMap {
    table: Table,
    readings: u64,
}

impl View for StationMap {
    type V = Ledger;

    closed spec fn view(&self) -> Ledger {
        Map::new(
            |k: Seq<u8>| table_contents(self.table).dom().contains(k),
            |k: Seq<u8>| table_contents(self.table)[k]@,
        )
    }
}

impl StationMap {
    pub closed spec fn spec_readings(&self) -> u64 {
        self.readings
    }

    /// The invariant of a map: every station is valid, has seen at least one
    /// value and at most as many as the map has taken in.
    pub open spec fn wf(&self) -> bool {
        ledger_valid(self@, self.readings() as nat)
    }

    /// A map without entries, with room for `capacity` names.
    pub fn with_capacity(capacity: usize) -> (m: StationMap)
        requires
            capacity <= MAX_RESERVE,
        ensures
            m@ == Ledger::empty(),
            m.readings() == 0,
            m.wf(),
    {
        let m = StationMap { table: table_with_capacity(capacity), readings: 0 };
        assert(m@ =~= Ledger::empty());
        m
    }

    /// A map without entries.
    pub fn new() -> (m: StationMap)
        ensures
            m@ == Ledger::empty(),
            m.readings() == 0,
            m.wf(),
    {
        StationMap::with_capacity(0)
    }

    /// How many readings the map has taken in.
    #[verifier::when_used_as_spec(spec_readings)]
    pub fn readings(&self) -> (r: u64)
        ensures
            r == self.readings(),
    {
        self.readings
    }

    /// The station recorded under `name`, if there is one.
    pub fn get(&self, name: &[u8]) -> (r: Option<Station>)
        ensures
            match r {
                Some(s) => self@.dom().contains(name@) && s@ == self@[name@],
                None => !self@.dom().contains(name@),
            },
    {
        match table_get(&self.table, name) {
            Some(s) => Some(*s),
            None => None,
        }
    }

    /// Takes in one reading: seeds a station for a name not seen before,
    /// folds the value into the station of a known one.
    pub fn record(&mut self, name: &[u8], value: i64)
        requires
            old(self).wf(),
            old(self).readings() < u64::MAX,
        ensures
            final(self)@ == absorb(old(self)@, name@, value as int),
            final(self).readings() == old(self).readings() + 1,
            final(self).wf(),
    {
        let ghost before = self@;
        proof {
            lemma_absorb_valid(before, self.readings as nat, name@, value as int);
        }
        match table_get_mut(&mut self.table, name) {
            Some(station) => {
                assert(before.dom().contains(name@));
                assert(station@ == before[name@]);
                station.update(value);
            },
            None => {
                table_insert(&mut self.table, slice_to_vec(name), Station::from(value));
            },
        }
        self.readings = self.readings + 1;
        assert(self@ =~= absorb(before, name@, value as int));
    }

    /// Takes in a whole other map: a name that both know has its stations
    /// joined, a name that only `partial` knows is moved over.
    pub fn merge_in(&mut self, partial: StationMap)
        requires
            old(self).wf(),
            partial.wf(),
            old(self).readings() + partial.readings() <= u64::MAX,
        ensures
            final(self)@ == merge(old(self)@, partial@),
            final(self).readings() == old(self).readings() + partial.readings(),
            final(self).wf(),
    {
        let ghost mine = self@;
        let ghost theirs = partial@;
        let ghost mine_bound = self.readings as nat;
        let ghost theirs_bound = partial.readings as nat;
        let ghost source = table_contents(partial.table);
        let mut partial = partial;
        let mut entries = table_drain(&mut partial.table);
        let ghost all = entries@;
        self.readings = self.readings + partial.readings;
        let ghost done: Set<Seq<u8>> = Set::empty();
        assert(self@ =~= merge(mine, theirs.restrict(done)));
        while entries.len() > 0
            invariant
                ledger_valid(mine, mine_bound),
                ledger_valid(theirs, theirs_bound),
                mine_bound + theirs_bound <= MAX_COUNT,
                self.readings == mine_bound + theirs_bound,
                lists(all, source),
                theirs.dom() == source.dom(),
                forall|k: Seq<u8>| #[trigger] source.dom().contains(k) ==> theirs[k] == source[k]@,
                entries@.len() <= all.len(),
                entries@ == all.take(entries@.len() as int),
                forall|k: Seq<u8>|
                    done.contains(k) <==> exists|i: int|
                        entries@.len() <= i < all.len() && (#[trigger] all[i]).0@ == k,
                self@ == merge(mine, theirs.restrict(done)),
            decreases entries.len(),
        {
            let ghost now = self@;
            let ghost at = entries@.len() - 1;
            let entry = entries.pop().unwrap();
            let name = entry.0;
            let station = entry.1;
            assert(entry == all[at]);
            assert(!done.contains(name@)) by {
                if done.contains(name@) {
                    let i = choose|i: int| at < i < all.len() && (#[trigger] all[i]).0@ == name@;
                    assert(all[at].0@ != all[i].0@);
                }
            }
            assert(source.dom().contains(name@) && source[name@] == station);
            assert(theirs[name@] == station@);
            let ghost next = done.insert(name@);
            let ghost rest = theirs.restrict(done);
            assert(!rest.dom().contains(name@));
            assert(now.dom().contains(name@) <==> mine.dom().contains(name@));
            assert(now.dom().contains(name@) ==> now[name@] == mine[name@]);
            match table_get_mut(&mut self.table, name.as_slice()) {
                Some(known) => {
                    assert(now.dom().contains(name@));
                    assert(known@ == now[name@]);
                    assert(mine.dom().contains(name@));
                    known.join(&station);
                },
                None => {
                    assert(!now.dom().contains(name@));
                    table_insert(&mut self.table, name, station);
                },
            }
            assert(self@ =~= merge(mine, theirs.restrict(next))) by {
                let after = merge(mine, theirs.restrict(next));
                assert forall|k: Seq<u8>| self@.dom().contains(k) <==> after.dom().contains(
                    k,
                ) by {
                    if k != name@ {
                        assert(now.dom().contains(k) <==> self@.dom().contains(k));
                        assert(rest.dom().contains(k) <==> theirs.restrict(next).dom().contains(k));
                    }
                }
                assert forall|k: Seq<u8>| self@.dom().contains(k) implies self@[k] == after[k] by {
                    if k != name@ {
                        assert(now.dom().contains(k));
                        assert(self@[k] == now[k]);
                        assert(rest.dom().contains(k) <==> theirs.restrict(next).dom().contains(k));
                    }
                }
            }
            proof {
                assert forall|k: Seq<u8>| next.contains(k) <==> exists|i: int|
                    at <= i < all.len() && (#[trigger] all[i]).0@ == k by {
                    if next.contains(k) {
                        if k == name@ {
                            assert(all[at].0@ == k);
                        } else {
                            let i = choose|i: int|
                                at < i < all.len() && (#[trigger] all[i]).0@ == k;
                            assert(all[i].0@ == k);
                        }
                    }
                    if exists|i: int| at <= i < all.len() && (#[trigger] all[i]).0@ == k {
                        let i = choose|i: int| at <= i < all.len() && (#[trigger] all[i]).0@ == k;
                        if i > at {
                            assert(done.contains(k));
                        }
                    }
                }
                done = next;
                assert(entries@ =~= all.take(entries@.len() as int));
            }
        }
        proof {
            assert(theirs.restrict(done) =~= theirs) by {
                assert forall|k: Seq<u8>| theirs.dom().contains(k) implies done.contains(k) by {
                    let i = choose|i: int| 0 <= i < all.len() && (#[trigger] all[i]).0@ == k;
                    assert(all[i].0@ == k);
                }
            }
            lemma_merge_valid(mine, mine_bound, theirs, theirs_bound);
        }
    }

    /// Empties the map and hands out its entries, each name once, in no
    /// particular order.
    pub fn drain(&mut self) -> (entries: Vec<(Vec<u8>, Station)>)
        ensures
            final(self)@ == Ledger::empty(),
            final(self).readings() == 0,
            final(self).wf(),
            holds(entries@, old(self)@),
    {
        let entries = table_drain(&mut self.table);
        self.readings = 0;
        assert(self@ =~= Ledger::empty());
        entries
    }
}

/// `entries` holds `m`: every entry of the list is an entry of the ledger,
/// no name comes twice, and every name of the ledger is there.
pub open spec fn holds(entries: Seq<(Vec<u8>, Station)>, m: Ledger) -> bool {
    &&& forall|i: int|
        0 <= i < entries.len() ==> m.dom().contains((#[trigger] entries[i]).0@) && m[entries[i].0@]
            == entries[i].1@
    &&& forall|i: int, j: int|
        0 <= i < j < entries.len() ==> (#[trigger] entries[i]).0@ != (#[trigger] entries[j]).0@
    &&& forall|k: Seq<u8>| #[trigger]
        m.dom().contains(k) ==> exists|i: int| 0 <= i < entries.len() && (#[trigger] entries[i]).0@ == k
}

} // verus!
