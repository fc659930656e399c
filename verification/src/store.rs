//! The Cache Store model: the warm key/value store that the bootstrap
//! protocol populates and the resolver consults.
//!
//! The store holds string values under `(table, key)` pairs, counts the
//! keys of a table, applies a batched bulk write, and answers the
//! geospatial queries of the resolver. A store constructed unreachable
//! refuses every operation with `StoreUnavailable` and never changes,
//! which is how callers and tests exercise the fallback paths. Each
//! verified operation pins its effect on the store's contents, viewed
//! as a map from `(table, key)` to the stored value.

use vstd::prelude::*;
use vstd::string::*;
use crate::codec::quote_value;
use crate::codec::spec_quote;
use crate::coords::Coordinate;
use crate::coords::coord_of_string;
use crate::coords::parse_coordinate_string;
use crate::errors::ResolveError;
use crate::keys::POSTCODE_TABLE_NAME;
use crate::text::str_eq;

verus! {

/// One stored value under its table and key.
struct StoreEntry {
    table: String,
    key: String,
    value: String,
}

/// The Cache Store: a reachability flag, the stored entries, and a
/// count of the batched bulk writes it has applied.
pub struct CacheStore {
    reachable: bool,
    entries: Vec<StoreEntry>,
    bulk_writes: u64,
}

/// Whether the entry stores under this table and key.
spec fn entry_matches(e: StoreEntry, t: Seq<char>, k: Seq<char>) -> bool {
    e.table@ == t && e.key@ == k
}

/// Index of the first entry at or after `i` under `(t, k)`, or
/// `es.len()` when there is none.
spec fn find_entry_from(es: Seq<StoreEntry>, t: Seq<char>, k: Seq<char>, i: int) -> int
    decreases es.len() - i,
    when 0 <= i <= es.len()
{
    if i >= es.len() {
        es.len() as int
    } else if entry_matches(es[i], t, k) {
        i
    } else {
        find_entry_from(es, t, k, i + 1)
    }
}

spec fn find_entry(es: Seq<StoreEntry>, t: Seq<char>, k: Seq<char>) -> int {
    find_entry_from(es, t, k, 0)
}

spec fn has_entry(es: Seq<StoreEntry>, t: Seq<char>, k: Seq<char>) -> bool {
    find_entry(es, t, k) < es.len()
}

spec fn entry_value(es: Seq<StoreEntry>, t: Seq<char>, k: Seq<char>) -> Seq<char> {
    es[find_entry(es, t, k)].value@
}

/// How many entries store under table `t`.
spec fn count_entries(es: Seq<StoreEntry>, t: Seq<char>) -> int
    decreases es.len(),
{
    if es.len() == 0 {
        0
    } else {
        count_entries(es.drop_last(), t) + if es.last().table@ == t {
            1int
        } else {
            0int
        }
    }
}

/// No two entries share a table and key.
spec fn entries_wf(es: Seq<StoreEntry>) -> bool {
    forall|i: int, j: int|
        0 <= i < j < es.len() ==> !(#[trigger] es[i].table@ == #[trigger] es[j].table@ && es[i].key@
            == es[j].key@)
}

proof fn lemma_find_entry_from_props(es: Seq<StoreEntry>, t: Seq<char>, k: Seq<char>, i: int)
    requires
        0 <= i <= es.len(),
    ensures
        i <= find_entry_from(es, t, k, i) <= es.len(),
        forall|j: int| i <= j < find_entry_from(es, t, k, i) ==> !entry_matches(#[trigger] es[j], t, k),
        find_entry_from(es, t, k, i) < es.len() ==> entry_matches(
            es[find_entry_from(es, t, k, i)],
            t,
            k,
        ),
    decreases es.len() - i,
{
    if i < es.len() && !entry_matches(es[i], t, k) {
        lemma_find_entry_from_props(es, t, k, i + 1);
    }
}

proof fn lemma_find_entry_from_unique(
    es: Seq<StoreEntry>,
    t: Seq<char>,
    k: Seq<char>,
    lo: int,
    j: int,
)
    requires
        0 <= lo <= j <= es.len(),
        forall|m: int| lo <= m < j ==> !entry_matches(#[trigger] es[m], t, k),
        j < es.len() ==> entry_matches(es[j], t, k),
    ensures
        find_entry_from(es, t, k, lo) == j,
    decreases j - lo,
{
    if lo < j {
        lemma_find_entry_from_unique(es, t, k, lo + 1, j);
    }
}

/// Under well-formedness, any matching index is the found one, so the
/// looked-up value is the value at any witness.
proof fn lemma_match_is_find(es: Seq<StoreEntry>, t: Seq<char>, k: Seq<char>, j: int)
    requires
        entries_wf(es),
        0 <= j < es.len(),
        entry_matches(es[j], t, k),
    ensures
        find_entry(es, t, k) == j,
        has_entry(es, t, k),
        entry_value(es, t, k) == es[j].value@,
{
    lemma_find_entry_from_props(es, t, k, 0);
    let f = find_entry(es, t, k);
    if f < j {
        assert(entry_matches(es[f], t, k));
        assert(false);
    }
    lemma_find_entry_from_unique(es, t, k, 0, j);
}

impl CacheStore {
    /// The store's contents: the map from `(table, key)` to the stored
    /// value.
    pub closed spec fn contents(self) -> Map<(Seq<char>, Seq<char>), Seq<char>> {
        Map::new(
            |p: (Seq<char>, Seq<char>)| has_entry(self.entries@, p.0, p.1),
            |p: (Seq<char>, Seq<char>)| entry_value(self.entries@, p.0, p.1),
        )
    }

    /// Whether the store answers at all; an unreachable store refuses
    /// every operation and never changes.
    pub closed spec fn spec_reachable(self) -> bool {
        self.reachable
    }

    /// How many batched bulk writes the store has applied.
    pub closed spec fn spec_bulk_writes(self) -> int {
        self.bulk_writes as int
    }

    /// How many keys the table holds.
    pub closed spec fn spec_count(self, t: Seq<char>) -> int {
        count_entries(self.entries@, t)
    }

    /// Internal well-formedness: no duplicated `(table, key)` pair.
    pub closed spec fn wf(self) -> bool {
        entries_wf(self.entries@)
    }

    /// A fresh store with nothing in it. Constructing it unreachable
    /// gives the store that every operation fails against.
    pub fn new(reachable: bool) -> (s: CacheStore)
        ensures
            s.wf(),
            s.spec_reachable() == reachable,
            s.spec_bulk_writes() == 0,
            s.contents() == Map::<(Seq<char>, Seq<char>), Seq<char>>::empty(),
            forall|t: Seq<char>| s.spec_count(t) == 0,
    {
        let s = CacheStore { reachable, entries: Vec::new(), bulk_writes: 0 };
        proof {
            assert(s.contents() =~= Map::<(Seq<char>, Seq<char>), Seq<char>>::empty());
        }
        s
    }

    /// Index of the entry under `(table, key)`, if any.
    fn find_index(&self, table: &str, key: &str) -> (r: Option<usize>)
        ensures
            match r {
                Some(i) => i < self.entries@.len() && entry_matches(
                    self.entries@[i as int],
                    table@,
                    key@,
                ) && find_entry(self.entries@, table@, key@) == i,
                None => find_entry(self.entries@, table@, key@) == self.entries@.len(),
            },
    {
        let ghost es = self.entries@;
        let mut i: usize = 0;
        while i < self.entries.len()
            invariant
                i <= self.entries@.len(),
                es == self.entries@,
                forall|j: int| 0 <= j < i ==> !entry_matches(#[trigger] es[j], table@, key@),
            decreases self.entries@.len() - i,
        {
            let e = &self.entries[i];
            if str_eq(e.table.as_str(), table) && str_eq(e.key.as_str(), key) {
                proof {
                    lemma_find_entry_from_unique(es, table@, key@, 0, i as int);
                }
                return Some(i);
            }
            i += 1;
        }
        proof {
            lemma_find_entry_from_unique(es, table@, key@, 0, es.len() as int);
        }
        None
    }

    /// Point lookup: the raw stored value under `(table, key)`.
    pub fn hget(&self, table: &str, key: &str) -> (r: Result<String, ResolveError>)
        ensures
            !self.spec_reachable() ==> r == Err::<String, ResolveError>(
                ResolveError::StoreUnavailable,
            ),
            self.spec_reachable() ==> match r {
                Ok(v) => self.contents().contains_key((table@, key@)) && v@ == self.contents()[
                    (table@, key@)
                ],
                Err(e) => e == ResolveError::NotFound && !self.contents().contains_key(
                    (table@, key@),
                ),
            },
    {
        if !self.reachable {
            return Err(ResolveError::StoreUnavailable);
        }
        match self.find_index(table, key) {
            Some(i) => {
                let e = &self.entries[i];
                Ok(e.value.clone())
            },
            None => Err(ResolveError::NotFound),
        }
    }

    /// Write `value` under `(table, key)`, replacing any prior value.
    /// Returns how many new keys the write created: one when the key
    /// was absent, zero when it overwrote.
    pub fn hset(&mut self, table: &str, key: &str, value: String) -> (r: Result<
        u64,
        ResolveError,
    >)
        requires
            old(self).wf(),
        ensures
            final(self).wf(),
            final(self).spec_reachable() == old(self).spec_reachable(),
            final(self).spec_bulk_writes() == old(self).spec_bulk_writes(),
            !old(self).spec_reachable() ==> r == Err::<u64, ResolveError>(
                ResolveError::StoreUnavailable,
            ) && final(self).contents() == old(self).contents() && forall|t: Seq<char>|
                final(self).spec_count(t) == old(self).spec_count(t),
            old(self).spec_reachable() ==> {
                &&& final(self).contents() == old(self).contents().insert((table@, key@), value@)
                &&& r == Ok::<u64, ResolveError>(
                    if old(self).contents().contains_key((table@, key@)) {
                        0u64
                    } else {
                        1u64
                    },
                )
                &&& forall|t: Seq<char>|
                    final(self).spec_count(t) == old(self).spec_count(t) + (
                    if t == table@ && !old(self).contents().contains_key((table@, key@)) {
                        1int
                    } else {
                        0int
                    })
            },
    {
        if !self.reachable {
            return Err(ResolveError::StoreUnavailable);
        }
        let existed = self.remove_pair(table, key);
        let ghost mid = self.entries@;
        let e = StoreEntry { table: table.to_owned(), key: key.to_owned(), value };
        self.entries.push(e);
        proof {
            lemma_push_entry(mid, self.entries@[mid.len() as int], table@, key@);
            lemma_count_push(mid, self.entries@[mid.len() as int]);
            let m_old = old(self).contents();
            let m_new = self.contents();
            let goal = m_old.insert((table@, key@), value@);
            assert forall|p: (Seq<char>, Seq<char>)| #[trigger]
                m_new.dom().contains(p) == goal.dom().contains(p) by {
                if p != (table@, key@) {
                    assert(has_entry(self.entries@, p.0, p.1) == has_entry(mid, p.0, p.1));
                    assert(has_entry(mid, p.0, p.1) == old(self).contents().remove(
                        (table@, key@),
                    ).dom().contains(p));
                }
            }
            assert forall|p: (Seq<char>, Seq<char>)|
                goal.dom().contains(p) implies #[trigger] m_new[p] == goal[p] by {
                if p != (table@, key@) {
                    assert(p == (p.0, p.1));
                    assert(!(p.0 == table@ && p.1 == key@));
                    assert(m_old.dom().contains(p));
                    assert(m_old.remove((table@, key@)).dom().contains(p));
                    assert(has_entry(mid, p.0, p.1));
                    assert(entry_value(self.entries@, p.0, p.1) == entry_value(mid, p.0, p.1));
                    assert(entry_value(mid, p.0, p.1) == old(self).contents().remove(
                        (table@, key@),
                    )[p]);
                }
            }
            assert(m_new =~= goal);
            assert forall|t: Seq<char>|
                self.spec_count(t) == old(self).spec_count(t) + (
                if t == table@ && !old(self).contents().contains_key((table@, key@)) {
                    1int
                } else {
                    0int
                }) by {
                assert(count_entries(self.entries@, t) == count_entries(mid, t) + (
                if t == table@ {
                    1int
                } else {
                    0int
                }));
                assert(count_entries(mid, t) == count_entries(old(self).entries@, t) - (
                if t == table@ && old(self).contents().contains_key((table@, key@)) {
                    1int
                } else {
                    0int
                }));
            }
        }
        if existed {
            Ok(0)
        } else {
            Ok(1)
        }
    }

    /// Remove the entry under `(table, key)` if it exists; report
    /// whether it did. The shared removal step of `hset` and `hdel`.
    fn remove_pair(&mut self, table: &str, key: &str) -> (existed: bool)
        requires
            old(self).wf(),
        ensures
            final(self).wf(),
            final(self).reachable == old(self).reachable,
            final(self).bulk_writes == old(self).bulk_writes,
            existed == old(self).contents().contains_key((table@, key@)),
            final(self).contents() == old(self).contents().remove((table@, key@)),
            !has_entry(final(self).entries@, table@, key@),
            forall|t: Seq<char>|
                final(self).spec_count(t) == old(self).spec_count(t) - (
                if t == table@ && old(self).contents().contains_key((table@, key@)) {
                    1int
                } else {
                    0int
                }),
            forall|t: Seq<char>| #[trigger]
                count_entries(final(self).entries@, t) == count_entries(old(self).entries@, t) - (
                if t == table@ && old(self).contents().contains_key((table@, key@)) {
                    1int
                } else {
                    0int
                }),
    {
        let ghost es = self.entries@;
        match self.find_index(table, key) {
            Some(i) => {
                self.entries.remove(i);
                proof {
                    lemma_remove_entry(es, i as int);
                    lemma_count_remove(es, table@, i as int);
                    assert forall|t: Seq<char>| #[trigger]
                        count_entries(self.entries@, t) == count_entries(es, t) - (
                        if t == table@ {
                            1int
                        } else {
                            0int
                        }) by {
                        lemma_count_remove(es, t, i as int);
                    }
                    assert(self.contents() =~= old(self).contents().remove((table@, key@)));
                }
                true
            },
            None => {
                proof {
                    lemma_find_entry_from_props(es, table@, key@, 0);
                    assert(self.contents() =~= old(self).contents().remove((table@, key@)));
                }
                false
            },
        }
    }

    /// Delete the key under `(table, key)`.  Returns how many entries
    /// went away.
    pub fn hdel(&mut self, table: &str, key: &str) -> (r: Result<u64, ResolveError>)
        requires
            old(self).wf(),
        ensures
            final(self).wf(),
            final(self).spec_reachable() == old(self).spec_reachable(),
            final(self).spec_bulk_writes() == old(self).spec_bulk_writes(),
            !old(self).spec_reachable() ==> r == Err::<u64, ResolveError>(
                ResolveError::StoreUnavailable,
            ) && final(self).contents() == old(self).contents() && forall|t: Seq<char>|
                final(self).spec_count(t) == old(self).spec_count(t),
            old(self).spec_reachable() ==> {
                &&& final(self).contents() == old(self).contents().remove((table@, key@))
                &&& r == Ok::<u64, ResolveError>(
                    if old(self).contents().contains_key((table@, key@)) {
                        1u64
                    } else {
                        0u64
                    },
                )
                &&& forall|t: Seq<char>|
                    final(self).spec_count(t) == old(self).spec_count(t) - (
                    if t == table@ && old(self).contents().contains_key((table@, key@)) {
                        1int
                    } else {
                        0int
                    })
            },
    {
        if !self.reachable {
            return Err(ResolveError::StoreUnavailable);
        }
        let existed = self.remove_pair(table, key);
        if existed {
            Ok(1)
        } else {
            Ok(0)
        }
    }

    /// Write a value through the generic table interface: the value is
    /// serialized by the store's codec, and a report of the write comes
    /// back, `None` when the store could not be written.
    pub fn set(&mut self, table: &str, key: &str, value: &str) -> (r: Option<String>)
        requires
            old(self).wf(),
        ensures
            final(self).wf(),
            final(self).spec_reachable() == old(self).spec_reachable(),
            final(self).spec_bulk_writes() == old(self).spec_bulk_writes(),
            !old(self).spec_reachable() ==> r is None && final(self).contents() == old(
                self,
            ).contents() && forall|t: Seq<char>|
                final(self).spec_count(t) == old(self).spec_count(t),
            old(self).spec_reachable() ==> {
                &&& final(self).contents() == old(self).contents().insert(
                    (table@, key@),
                    spec_quote(value@),
                )
                &&& forall|t: Seq<char>|
                    final(self).spec_count(t) == old(self).spec_count(t) + (
                    if t == table@ && !old(self).contents().contains_key((table@, key@)) {
                        1int
                    } else {
                        0int
                    })
                &&& r is Some
                &&& r->Some_0@ == "Wrote "@ + value@ + " to table: "@ + table@ + " with key "@
                    + key@ + " and result "@ + (
                if old(self).contents().contains_key((table@, key@)) {
                    "0"@
                } else {
                    "1"@
                })
            },
    {
        let quoted = quote_value(value);
        match self.hset(table, key, quoted) {
            Err(_) => None,
            Ok(n) => {
                let mut msg = String::from_str("Wrote ");
                msg.append(value);
                msg.append(" to table: ");
                msg.append(table);
                msg.append(" with key ");
                msg.append(key);
                msg.append(" and result ");
                if n == 1 {
                    msg.append("1");
                } else {
                    msg.append("0");
                }
                Some(msg)
            },
        }
    }

    /// Read a value written through the generic table interface,
    /// decoding the stored serialization; a stored value that is not in
    /// the codec's form fails with `RecordParseError`.
    pub fn get(&self, table: &str, key: &str) -> (r: Result<String, ResolveError>)
        ensures
            !self.spec_reachable() ==> r == Err::<String, ResolveError>(
                ResolveError::StoreUnavailable,
            ),
            self.spec_reachable() ==> match r {
                Ok(v) => self.contents().contains_key((table@, key@)) && Some(v@)
                    == crate::codec::spec_unquote(self.contents()[(table@, key@)]),
                Err(e) => (e == ResolveError::NotFound && !self.contents().contains_key(
                    (table@, key@),
                )) || (e == ResolveError::RecordParseError && self.contents().contains_key(
                    (table@, key@),
                ) && crate::codec::spec_unquote(self.contents()[(table@, key@)]) is None),
            },
    {
        match self.hget(table, key) {
            Err(e) => Err(e),
            Ok(raw) => {
                match crate::codec::unquote_value(raw.as_str()) {
                    Some(v) => Ok(v),
                    None => Err(ResolveError::RecordParseError),
                }
            },
        }
    }

    /// Point lookup in the postcode table: the raw stored coordinate
    /// string for a cache key.
    pub fn get_coordinates(&self, postcode: &str) -> (r: Result<String, ResolveError>)
        ensures
            !self.spec_reachable() ==> r == Err::<String, ResolveError>(
                ResolveError::StoreUnavailable,
            ),
            self.spec_reachable() ==> match r {
                Ok(v) => self.contents().contains_key((POSTCODE_TABLE_NAME@, postcode@)) && v@
                    == self.contents()[(POSTCODE_TABLE_NAME@, postcode@)],
                Err(e) => e == ResolveError::NotFound && !self.contents().contains_key(
                    (POSTCODE_TABLE_NAME@, postcode@),
                ),
            },
    {
        self.hget(POSTCODE_TABLE_NAME, postcode)
    }

    /// Geospatial point query: the coordinate pair stored for a cache
    /// key, through the Sentinel Filter.
    pub fn get_geo_pos(&self, key: &str) -> (r: Result<Coordinate, ResolveError>)
        ensures
            !self.spec_reachable() ==> r == Err::<Coordinate, ResolveError>(
                ResolveError::StoreUnavailable,
            ),
            self.spec_reachable() ==> match r {
                Ok(c) => {
                    &&& self.contents().contains_key((POSTCODE_TABLE_NAME@, key@))
                    &&& coord_of_string(self.contents()[(POSTCODE_TABLE_NAME@, key@)]) == Some(c)
                    &&& !c.spec_is_sentinel()
                },
                Err(e) => {
                    ||| (e == ResolveError::NotFound && !self.contents().contains_key(
                        (POSTCODE_TABLE_NAME@, key@),
                    ))
                    ||| (e == ResolveError::RecordParseError && self.contents().contains_key(
                        (POSTCODE_TABLE_NAME@, key@),
                    ) && coord_of_string(self.contents()[(POSTCODE_TABLE_NAME@, key@)]) is None)
                    ||| (e == ResolveError::InvalidLocation && self.contents().contains_key(
                        (POSTCODE_TABLE_NAME@, key@),
                    ) && match coord_of_string(self.contents()[(POSTCODE_TABLE_NAME@, key@)]) {
                        Some(c) => c.spec_is_sentinel(),
                        None => false,
                    })
                },
            },
    {
        match self.hget(POSTCODE_TABLE_NAME, key) {
            Err(e) => Err(e),
            Ok(raw) => {
                match parse_coordinate_string(raw.as_str()) {
                    None => Err(ResolveError::RecordParseError),
                    Some(c) => {
                        if c.is_valid() {
                            Ok(c)
                        } else {
                            Err(ResolveError::InvalidLocation)
                        }
                    },
                }
            },
        }
    }

    /// Reverse geospatial query: a cache key of the postcode table
    /// whose stored string denotes exactly the queried pair.
    pub fn get_postcode(&self, coordinates: &Coordinate) -> (r: Result<String, ResolveError>)
        requires
            self.wf(),
        ensures
            !self.spec_reachable() ==> r == Err::<String, ResolveError>(
                ResolveError::StoreUnavailable,
            ),
            self.spec_reachable() ==> match r {
                Ok(s) => self.contents().contains_key((POSTCODE_TABLE_NAME@, s@))
                    && coord_of_string(self.contents()[(POSTCODE_TABLE_NAME@, s@)]) == Some(
                    *coordinates,
                ),
                Err(e) => e == ResolveError::NotFound && forall|k: Seq<char>|
                    self.contents().contains_key((POSTCODE_TABLE_NAME@, k))
                        ==> coord_of_string(#[trigger] self.contents()[(POSTCODE_TABLE_NAME@, k)])
                        != Some(*coordinates),
            },
    {
        if !self.reachable {
            return Err(ResolveError::StoreUnavailable);
        }
        let ghost es = self.entries@;
        let mut i: usize = 0;
        while i < self.entries.len()
            invariant
                i <= self.entries@.len(),
                es == self.entries@,
                self.wf(),
                self.reachable,
                forall|j: int|
                    0 <= j < i ==> !((#[trigger] es[j]).table@ == POSTCODE_TABLE_NAME@
                        && coord_of_string(es[j].value@) == Some(*coordinates)),
            decreases self.entries@.len() - i,
        {
            let e = &self.entries[i];
            if str_eq(e.table.as_str(), POSTCODE_TABLE_NAME) {
                match parse_coordinate_string(e.value.as_str()) {
                    Some(c) => {
                        if c.lat_micro == coordinates.lat_micro && c.lon_micro
                            == coordinates.lon_micro {
                            proof {
                                lemma_match_is_find(es, e.table@, e.key@, i as int);
                            }
                            return Ok(e.key.clone());
                        }
                    },
                    None => {},
                }
            }
            i += 1;
        }
        proof {
            assert forall|k: Seq<char>|
                self.contents().contains_key((POSTCODE_TABLE_NAME@, k)) implies coord_of_string(
                #[trigger] self.contents()[(POSTCODE_TABLE_NAME@, k)],
            ) != Some(*coordinates) by {
                lemma_find_entry_from_props(es, POSTCODE_TABLE_NAME@, k, 0);
            }
        }
        Err(ResolveError::NotFound)
    }

    /// Delete a whole table: every entry stored under this key goes
    /// away. Returns how many entries were dropped.
    pub fn del(&mut self, key: &str) -> (r: Result<u64, ResolveError>)
        requires
            old(self).wf(),
        ensures
            final(self).wf(),
            final(self).spec_reachable() == old(self).spec_reachable(),
            final(self).spec_bulk_writes() == old(self).spec_bulk_writes(),
            !old(self).spec_reachable() ==> r == Err::<u64, ResolveError>(
                ResolveError::StoreUnavailable,
            ) && final(self).contents() == old(self).contents() && forall|t: Seq<char>|
                final(self).spec_count(t) == old(self).spec_count(t),
            old(self).spec_reachable() ==> {
                &&& r is Ok
                &&& final(self).contents() == old(self).contents().remove_keys(
                    Set::new(|p: (Seq<char>, Seq<char>)| p.0 == key@),
                )
                &&& final(self).spec_count(key@) == 0
                &&& forall|t: Seq<char>|
                    t != key@ ==> final(self).spec_count(t) == old(self).spec_count(t)
            },
    {
        if !self.reachable {
            return Err(ResolveError::StoreUnavailable);
        }
        let ghost dropped = Set::new(|p: (Seq<char>, Seq<char>)| p.0 == key@);
        let mut removed: u64 = 0;
        proof {
            lemma_count_nonneg(self.entries@, key@);
        }
        loop
            invariant
                self.wf(),
                self.reachable,
                old(self).spec_reachable(),
                self.bulk_writes == old(self).bulk_writes,
                self.contents().remove_keys(dropped) == old(self).contents().remove_keys(dropped),
                dropped == Set::new(|p: (Seq<char>, Seq<char>)| p.0 == key@),
                forall|t: Seq<char>|
                    t != key@ ==> self.spec_count(t) == old(self).spec_count(t),
                self.spec_count(key@) >= 0,
                removed <= u64::MAX,
            decreases self.spec_count(key@),
        {
            match self.find_table_index(key) {
                None => {
                    proof {
                        let es = self.entries@;
                        assert forall|p: (Seq<char>, Seq<char>)|
                            self.contents().dom().contains(p) implies !dropped.contains(p) by {
                            lemma_find_entry_from_props(es, p.0, p.1, 0);
                        }
                        assert(self.contents().remove_keys(dropped) =~= self.contents());
                        lemma_count_zero(self.entries@, key@);
                    }
                    return Ok(removed);
                },
                Some(i) => {
                    let ghost es = self.entries@;
                    let k2 = self.entries[i].key.clone();
                    proof {
                        lemma_match_is_find(es, key@, k2@, i as int);
                    }
                    let ghost before = self.contents();
                    let existed = self.remove_pair(key, k2.as_str());
                    proof {
                        assert(dropped.contains((key@, k2@)));
                        assert(self.contents().remove_keys(dropped) =~= before.remove(
                            (key@, k2@),
                        ).remove_keys(dropped));
                        assert(before.remove((key@, k2@)).remove_keys(dropped) =~= before.remove_keys(
                            dropped,
                        ));
                    }
                    if removed < u64::MAX {
                        removed += 1;
                    }
                    proof {
                        lemma_count_nonneg(self.entries@, key@);
                    }
                },
            }
        }
    }

    /// Index of some entry of the table, if the table has any.
    fn find_table_index(&self, table: &str) -> (r: Option<usize>)
        ensures
            match r {
                Some(i) => i < self.entries@.len() && self.entries@[i as int].table@ == table@,
                None => forall|j: int|
                    0 <= j < self.entries@.len() ==> (#[trigger] self.entries@[j]).table@ != table@,
            },
    {
        let mut i: usize = 0;
        while i < self.entries.len()
            invariant
                i <= self.entries@.len(),
                forall|j: int| 0 <= j < i ==> (#[trigger] self.entries@[j]).table@ != table@,
            decreases self.entries@.len() - i,
        {
            let e = &self.entries[i];
            if str_eq(e.table.as_str(), table) {
                return Some(i);
            }
            i += 1;
        }
        None
    }

    /// The batched bulk write of the bootstrap protocol: apply every
    /// `(key, value)` pair of the batch to the table, in order, as one
    /// pipelined operation, and count the batch as one bulk write.
    pub fn bulk_set(&mut self, table: &str, pairs: &Vec<(String, String)>) -> (r: Option<()>)
        requires
            old(self).wf(),
        ensures
            final(self).wf(),
            final(self).spec_reachable() == old(self).spec_reachable(),
            !old(self).spec_reachable() ==> r is None && final(self).contents() == old(
                self,
            ).contents() && final(self).spec_bulk_writes() == old(self).spec_bulk_writes() && forall|
                t: Seq<char>,
            |
                final(self).spec_count(t) == old(self).spec_count(t),
            old(self).spec_reachable() ==> {
                &&& r is Some
                &&& final(self).contents() == spec_apply_bulk(
                    old(self).contents(),
                    table@,
                    pairs.deep_view(),
                )
                &&& final(self).spec_bulk_writes() == (
                if old(self).spec_bulk_writes() < u64::MAX {
                    old(self).spec_bulk_writes() + 1
                } else {
                    old(self).spec_bulk_writes()
                })
                &&& forall|t: Seq<char>|
                    t != table@ ==> final(self).spec_count(t) == old(self).spec_count(t)
            },
    {
        if !self.reachable {
            return None;
        }
        let ghost dv = pairs.deep_view();
        let ghost m0 = self.contents();
        let mut i: usize = 0;
        proof {
            assert(dv.skip(0) =~= dv);
        }
        while i < pairs.len()
            invariant
                i <= pairs@.len(),
                dv == pairs.deep_view(),
                self.wf(),
                self.reachable,
                self.bulk_writes == old(self).bulk_writes,
                spec_apply_bulk(self.contents(), table@, dv.skip(i as int)) == spec_apply_bulk(
                    m0,
                    table@,
                    dv,
                ),
                forall|t: Seq<char>|
                    t != table@ ==> self.spec_count(t) == old(self).spec_count(t),
            decreases pairs@.len() - i,
        {
            let p = &pairs[i];
            let ghost before = self.contents();
            let _ = self.hset(table, p.0.as_str(), p.1.clone());
            proof {
                assert(dv.skip(i as int)[0] == dv[i as int]);
                assert(dv.skip(i as int).drop_first() =~= dv.skip(i as int + 1));
                assert(self.contents() == before.insert((table@, dv[i as int].0), dv[i as int].1));
            }
            i += 1;
        }
        proof {
            assert(dv.skip(pairs@.len() as int) =~= Seq::<(Seq<char>, Seq<char>)>::empty());
        }
        if self.bulk_writes < u64::MAX {
            self.bulk_writes = self.bulk_writes + 1;
        }
        Some(())
    }

    /// How many batched bulk writes this store has applied: the
    /// statistic by which callers observe that a bootstrap ran at most
    /// once.
    pub fn bulk_write_count(&self) -> (r: u64)
        ensures
            r == self.spec_bulk_writes(),
    {
        self.bulk_writes
    }

    /// Count the keys of a table.
    pub fn count(&self, table: &str) -> (r: Result<usize, ResolveError>)
        ensures
            !self.spec_reachable() ==> r == Err::<usize, ResolveError>(
                ResolveError::StoreUnavailable,
            ),
            self.spec_reachable() ==> r == Ok::<usize, ResolveError>(
                self.spec_count(table@) as usize,
            ) && 0 <= self.spec_count(table@) <= usize::MAX,
    {
        if !self.reachable {
            return Err(ResolveError::StoreUnavailable);
        }
        proof {
            lemma_count_nonneg(self.entries@, table@);
            lemma_count_le_len(self.entries@, table@);
        }
        let ghost es = self.entries@;
        let mut n: usize = 0;
        let mut i: usize = 0;
        while i < self.entries.len()
            invariant
                i <= self.entries@.len(),
                es == self.entries@,
                n == count_entries(es.subrange(0, i as int), table@),
                n <= i,
            decreases self.entries@.len() - i,
        {
            let e = &self.entries[i];
            proof {
                assert(es.subrange(0, i + 1).drop_last() =~= es.subrange(0, i as int));
                assert(es.subrange(0, i + 1).last() == es[i as int]);
            }
            if str_eq(e.table.as_str(), table) {
                n += 1;
            }
            i += 1;
        }
        proof {
            assert(es.subrange(0, es.len() as int) =~= es);
        }
        Ok(n)
    }
}

/// The effect of a batched bulk write on the store's contents: the
/// pairs of the batch inserted into the table in order, later pairs
/// overwriting earlier ones under the same key.
pub open spec fn spec_apply_bulk(
    m: Map<(Seq<char>, Seq<char>), Seq<char>>,
    t: Seq<char>,
    pairs: Seq<(Seq<char>, Seq<char>)>,
) -> Map<(Seq<char>, Seq<char>), Seq<char>>
    decreases pairs.len(),
{
    if pairs.len() == 0 {
        m
    } else {
        spec_apply_bulk(m.insert((t, pairs[0].0), pairs[0].1), t, pairs.drop_first())
    }
}

/// A bulk write leaves keys it does not carry alone, in every table.
pub proof fn lemma_apply_bulk_untouched(
    m: Map<(Seq<char>, Seq<char>), Seq<char>>,
    t: Seq<char>,
    pairs: Seq<(Seq<char>, Seq<char>)>,
    p: (Seq<char>, Seq<char>),
)
    requires
        p.0 != t || forall|j: int| 0 <= j < pairs.len() ==> (#[trigger] pairs[j]).0 != p.1,
    ensures
        spec_apply_bulk(m, t, pairs).contains_key(p) == m.contains_key(p),
        m.contains_key(p) ==> spec_apply_bulk(m, t, pairs)[p] == m[p],
    decreases pairs.len(),
{
    if pairs.len() > 0 {
        let m1 = m.insert((t, pairs[0].0), pairs[0].1);
        assert(forall|j: int|
            0 <= j < pairs.drop_first().len() ==> (#[trigger] pairs.drop_first()[j]).0 == pairs[
                j + 1
            ].0);
        lemma_apply_bulk_untouched(m1, t, pairs.drop_first(), p);
        assert((t, pairs[0].0) != p);
    }
}

/// Every entry a bulk write leaves in the store either survived from
/// before the write or is one of the batch's pairs, key and value.
pub proof fn lemma_apply_bulk_values(
    m: Map<(Seq<char>, Seq<char>), Seq<char>>,
    t: Seq<char>,
    pairs: Seq<(Seq<char>, Seq<char>)>,
    p: (Seq<char>, Seq<char>),
)
    requires
        spec_apply_bulk(m, t, pairs).contains_key(p),
    ensures
        (m.contains_key(p) && spec_apply_bulk(m, t, pairs)[p] == m[p]) || (p.0 == t && exists|
            j: int,
        |
            0 <= j < pairs.len() && #[trigger] pairs[j] == (p.1, spec_apply_bulk(m, t, pairs)[p])),
    decreases pairs.len(),
{
    if pairs.len() > 0 {
        let m1 = m.insert((t, pairs[0].0), pairs[0].1);
        lemma_apply_bulk_values(m1, t, pairs.drop_first(), p);
        if m1.contains_key(p) && spec_apply_bulk(m1, t, pairs.drop_first())[p] == m1[p] {
            if p == (t, pairs[0].0) {
                assert(pairs[0] == (p.1, spec_apply_bulk(m, t, pairs)[p]));
            }
        } else if !(m.contains_key(p) && spec_apply_bulk(m, t, pairs)[p] == m[p]) {
            let j = choose|j: int|
                0 <= j < pairs.drop_first().len() && #[trigger] pairs.drop_first()[j] == (
                    p.1,
                    spec_apply_bulk(m1, t, pairs.drop_first())[p],
                );
            assert(pairs[j + 1] == (p.1, spec_apply_bulk(m, t, pairs)[p]));
        }
    }
}

/// A key count is never negative.
proof fn lemma_count_nonneg(es: Seq<StoreEntry>, t: Seq<char>)
    ensures
        count_entries(es, t) >= 0,
    decreases es.len(),
{
    if es.len() > 0 {
        lemma_count_nonneg(es.drop_last(), t);
    }
}

/// A key count never exceeds the number of entries.
proof fn lemma_count_le_len(es: Seq<StoreEntry>, t: Seq<char>)
    ensures
        count_entries(es, t) <= es.len(),
    decreases es.len(),
{
    if es.len() > 0 {
        lemma_count_le_len(es.drop_last(), t);
    }
}

/// A table none of whose entries exist counts zero keys.
proof fn lemma_count_zero(es: Seq<StoreEntry>, t: Seq<char>)
    requires
        forall|j: int| 0 <= j < es.len() ==> (#[trigger] es[j]).table@ != t,
    ensures
        count_entries(es, t) == 0,
    decreases es.len(),
{
    if es.len() > 0 {
        assert(forall|j: int|
            0 <= j < es.drop_last().len() ==> (#[trigger] es.drop_last()[j]).table@ != t);
        lemma_count_zero(es.drop_last(), t);
    }
}

/// Removing the entry at `i` from a well-formed entry sequence removes
/// exactly its pair from the contents.
proof fn lemma_remove_entry(es: Seq<StoreEntry>, i: int)
    requires
        entries_wf(es),
        0 <= i < es.len(),
    ensures
        entries_wf(es.remove(i)),
        !has_entry(es.remove(i), es[i].table@, es[i].key@),
        forall|t: Seq<char>, k: Seq<char>|
            !(t == es[i].table@ && k == es[i].key@) ==> #[trigger] has_entry(es.remove(i), t, k)
                == has_entry(es, t, k),
        forall|t: Seq<char>, k: Seq<char>|
            !(t == es[i].table@ && k == es[i].key@) && has_entry(es, t, k)
                ==> #[trigger] entry_value(es.remove(i), t, k) == entry_value(es, t, k),
{
    let ns = es.remove(i);
    es.remove_ensures(i);
    lemma_remove_entry_wf(es, i);
    if has_entry(ns, es[i].table@, es[i].key@) {
        lemma_find_entry_from_props(ns, es[i].table@, es[i].key@, 0);
        let f = find_entry(ns, es[i].table@, es[i].key@);
        let f0 = if f < i {
            f
        } else {
            f + 1
        };
        assert(ns[f] == es[f0]);
        assert(entry_matches(es[f0], es[i].table@, es[i].key@));
        assert(false);
    }
    assert forall|t: Seq<char>, k: Seq<char>|
        !(t == es[i].table@ && k == es[i].key@) implies #[trigger] has_entry(es.remove(i), t, k)
        == has_entry(es, t, k) by {
        lemma_remove_entry_pointwise(es, i, t, k);
    }
    assert forall|t: Seq<char>, k: Seq<char>|
        !(t == es[i].table@ && k == es[i].key@) && has_entry(es, t, k) implies #[trigger] entry_value(
        es.remove(i),
        t,
        k,
    ) == entry_value(es, t, k) by {
        lemma_remove_entry_pointwise(es, i, t, k);
    }
}

/// One `(table, key)` pair other than the removed entry's: membership
/// and value survive the removal.
proof fn lemma_remove_entry_pointwise(es: Seq<StoreEntry>, i: int, t: Seq<char>, k: Seq<char>)
    requires
        entries_wf(es),
        0 <= i < es.len(),
        !(t == es[i].table@ && k == es[i].key@),
    ensures
        has_entry(es.remove(i), t, k) == has_entry(es, t, k),
        has_entry(es, t, k) ==> entry_value(es.remove(i), t, k) == entry_value(es, t, k),
{
    let ns = es.remove(i);
    es.remove_ensures(i);
    lemma_remove_entry_wf(es, i);
    lemma_find_entry_from_props(es, t, k, 0);
    lemma_find_entry_from_props(ns, t, k, 0);
    if has_entry(es, t, k) {
        let j = find_entry(es, t, k);
        assert(j != i);
        let jn = if j < i {
            j
        } else {
            j - 1
        };
        assert(ns[jn] == es[j]);
        lemma_match_is_find(ns, t, k, jn);
    } else {
        if has_entry(ns, t, k) {
            let f = find_entry(ns, t, k);
            let f0 = if f < i {
                f
            } else {
                f + 1
            };
            assert(ns[f] == es[f0]);
            lemma_match_is_find(es, t, k, f0);
            assert(false);
        }
    }
}

/// Removal keeps the entries well formed.
proof fn lemma_remove_entry_wf(es: Seq<StoreEntry>, i: int)
    requires
        entries_wf(es),
        0 <= i < es.len(),
    ensures
        entries_wf(es.remove(i)),
{
    let ns = es.remove(i);
    es.remove_ensures(i);
    assert forall|a: int, b: int| 0 <= a < b < ns.len() implies !(#[trigger] ns[a].table@
        == #[trigger] ns[b].table@ && ns[a].key@ == ns[b].key@) by {
        let a0 = if a < i {
            a
        } else {
            a + 1
        };
        let b0 = if b < i {
            b
        } else {
            b + 1
        };
        assert(ns[a] == es[a0]);
        assert(ns[b] == es[b0]);
    }
}

/// Appending an entry whose pair is absent adds exactly that pair to
/// the contents.
proof fn lemma_push_entry(es: Seq<StoreEntry>, e: StoreEntry, t: Seq<char>, k: Seq<char>)
    requires
        entries_wf(es),
        !has_entry(es, t, k),
        e.table@ == t,
        e.key@ == k,
    ensures
        entries_wf(es.push(e)),
        has_entry(es.push(e), t, k),
        entry_value(es.push(e), t, k) == e.value@,
        forall|t2: Seq<char>, k2: Seq<char>|
            !(t2 == t && k2 == k) ==> #[trigger] has_entry(es.push(e), t2, k2) == has_entry(
                es,
                t2,
                k2,
            ),
        forall|t2: Seq<char>, k2: Seq<char>|
            !(t2 == t && k2 == k) && has_entry(es, t2, k2) ==> #[trigger] entry_value(
                es.push(e),
                t2,
                k2,
            ) == entry_value(es, t2, k2),
{
    let ns = es.push(e);
    lemma_find_entry_from_props(es, t, k, 0);
    assert forall|a: int, b: int| 0 <= a < b < ns.len() implies !(#[trigger] ns[a].table@
        == #[trigger] ns[b].table@ && ns[a].key@ == ns[b].key@) by {
        if b < es.len() {
            assert(ns[a] == es[a]);
            assert(ns[b] == es[b]);
        } else {
            assert(ns[b] == e);
            assert(ns[a] == es[a]);
            assert(!entry_matches(es[a], t, k));
        }
    }
    assert(ns[es.len() as int] == e);
    lemma_match_is_find(ns, t, k, es.len() as int);
    assert forall|t2: Seq<char>, k2: Seq<char>|
        !(t2 == t && k2 == k) implies #[trigger] has_entry(es.push(e), t2, k2) == has_entry(
        es,
        t2,
        k2,
    ) by {
        lemma_push_entry_pointwise(es, e, t, k, t2, k2);
    }
    assert forall|t2: Seq<char>, k2: Seq<char>|
        !(t2 == t && k2 == k) && has_entry(es, t2, k2) implies #[trigger] entry_value(
        es.push(e),
        t2,
        k2,
    ) == entry_value(es, t2, k2) by {
        lemma_push_entry_pointwise(es, e, t, k, t2, k2);
    }
}

/// One `(table, key)` pair other than the appended entry's: membership
/// and value survive the append.
proof fn lemma_push_entry_pointwise(
    es: Seq<StoreEntry>,
    e: StoreEntry,
    t: Seq<char>,
    k: Seq<char>,
    t2: Seq<char>,
    k2: Seq<char>,
)
    requires
        entries_wf(es),
        !has_entry(es, t, k),
        e.table@ == t,
        e.key@ == k,
        !(t2 == t && k2 == k),
    ensures
        has_entry(es.push(e), t2, k2) == has_entry(es, t2, k2),
        has_entry(es, t2, k2) ==> entry_value(es.push(e), t2, k2) == entry_value(es, t2, k2),
{
    let ns = es.push(e);
    lemma_push_entry_wf(es, e, t, k);
    lemma_find_entry_from_props(es, t2, k2, 0);
    lemma_find_entry_from_props(ns, t2, k2, 0);
    if has_entry(es, t2, k2) {
        let j = find_entry(es, t2, k2);
        assert(ns[j] == es[j]);
        lemma_match_is_find(ns, t2, k2, j);
    } else {
        if has_entry(ns, t2, k2) {
            let f = find_entry(ns, t2, k2);
            if f < es.len() {
                assert(ns[f] == es[f]);
                lemma_match_is_find(es, t2, k2, f);
                assert(false);
            } else {
                assert(ns[f] == e);
                assert(false);
            }
        }
    }
}

/// Appending an absent pair keeps the entries well formed.
proof fn lemma_push_entry_wf(es: Seq<StoreEntry>, e: StoreEntry, t: Seq<char>, k: Seq<char>)
    requires
        entries_wf(es),
        !has_entry(es, t, k),
        e.table@ == t,
        e.key@ == k,
    ensures
        entries_wf(es.push(e)),
{
    let ns = es.push(e);
    lemma_find_entry_from_props(es, t, k, 0);
    assert forall|a: int, b: int| 0 <= a < b < ns.len() implies !(#[trigger] ns[a].table@
        == #[trigger] ns[b].table@ && ns[a].key@ == ns[b].key@) by {
        if b < es.len() {
            assert(ns[a] == es[a]);
            assert(ns[b] == es[b]);
        } else {
            assert(ns[b] == e);
            assert(ns[a] == es[a]);
            assert(!entry_matches(es[a], t, k));
        }
    }
}

/// Counts after removing the entry at `i`.
proof fn lemma_count_remove(es: Seq<StoreEntry>, t: Seq<char>, i: int)
    requires
        0 <= i < es.len(),
    ensures
        count_entries(es.remove(i), t) == count_entries(es, t) - (
        if es[i].table@ == t {
            1int
        } else {
            0int
        }),
    decreases es.len(),
{
    if i == es.len() - 1 {
        assert(es.remove(i) =~= es.drop_last());
    } else {
        assert(es.remove(i).drop_last() =~= es.drop_last().remove(i));
        assert(es.remove(i).last() == es.last());
        lemma_count_remove(es.drop_last(), t, i);
        assert(es.drop_last()[i] == es[i]);
    }
}

/// Counts after appending an entry.
proof fn lemma_count_push(es: Seq<StoreEntry>, e: StoreEntry)
    ensures
        forall|t: Seq<char>| #[trigger]
            count_entries(es.push(e), t) == count_entries(es, t) + (
            if e.table@ == t {
                1int
            } else {
                0int
            }),
{
    assert forall|t: Seq<char>| #[trigger]
        count_entries(es.push(e), t) == count_entries(es, t) + (
        if e.table@ == t {
            1int
        } else {
            0int
        }) by {
        assert(es.push(e).drop_last() =~= es);
        assert(es.push(e).last() == e);
    }
}

} // verus!
