//! The resolution engine: the Bootstrap Coordinator and the Resolver.
//!
//! The engine owns the dataset lines, the Cache Store and the memoized
//! bootstrap state. Resolution consults the store once the coordinator
//! has seen it populated, and falls back to the dataset scan while the
//! store is unreachable; both paths run their result through the
//! Sentinel Filter.

use vstd::prelude::*;
use vstd::string::*;
use crate::coords::Coordinate;
use crate::coords::check_coordinate_string;
use crate::coords::coord_of_string;
use crate::coords::coordinate_string_status;
use crate::dataset::forward_search_file;
use crate::dataset::reverse_search_file;
use crate::dataset::build_bulk_entries;
use crate::dataset::count_valid_records;
use crate::dataset::spec_bulk_entries;
use crate::dataset::spec_count_valid_records;
use crate::dataset::spec_forward_search_file;
use crate::dataset::spec_reverse_search_file;
use crate::errors::ResolveError;
use crate::keys::POSTCODE_TABLE_NAME;
use crate::keys::build_cache_key;
use crate::keys::normalize_key;
use crate::store::CacheStore;
use crate::store::spec_apply_bulk;

verus! {

/// The memoized state of the Bootstrap Coordinator. `Unknown` is
/// initial; `Bootstrapping` is held while a bulk load runs;
/// `Bootstrapped` is terminal.
#[derive(Clone, Copy, Debug, PartialEq, Eq, Structural)]
pub enum BootstrapState {
    Unknown,
    Bootstrapping,
    Bootstrapped,
}

/// The geocoding engine: dataset, store, and bootstrap state.
pub struct Geocoder {
    store: CacheStore,
    dataset: Vec<String>,
    state: BootstrapState,
}

impl Geocoder {
    /// The engine's store.
    pub closed spec fn spec_store(self) -> CacheStore {
        self.store
    }

    /// The engine's dataset, as its lines.
    pub closed spec fn spec_dataset(self) -> Seq<Seq<char>> {
        self.dataset.deep_view()
    }

    /// The coordinator's memoized state.
    pub closed spec fn spec_state(self) -> BootstrapState {
        self.state
    }

    /// The engine is well formed when its store is.
    pub open spec fn wf(self) -> bool {
        self.spec_store().wf()
    }

    /// A fresh engine over a dataset and a store, with the coordinator
    /// in its initial state.
    pub fn new(dataset: Vec<String>, store: CacheStore) -> (g: Geocoder)
        requires
            store.wf(),
        ensures
            g.wf(),
            g.spec_store() == store,
            g.spec_dataset() == dataset.deep_view(),
            g.spec_state() == BootstrapState::Unknown,
    {
        Geocoder { store, dataset, state: BootstrapState::Unknown }
    }
}

/// Whether `ensure_bootstrapped` reports success: always, except when
/// the coordinator has not yet finished and the store is unreachable.
pub open spec fn spec_bootstrap_ok(g: Geocoder) -> bool {
    g.spec_state() is Bootstrapped || g.spec_store().spec_reachable()
}

/// Whether the count reconciliation finds the store already populated:
/// its record count reaches the dataset's valid-record count.
pub open spec fn spec_store_populated(g: Geocoder) -> bool {
    g.spec_store().spec_count(POSTCODE_TABLE_NAME@) >= spec_count_valid_records(g.spec_dataset())
}

/// The coordinator's state after `ensure_bootstrapped`.
pub open spec fn spec_state_after_bootstrap(g: Geocoder) -> BootstrapState {
    if g.spec_state() is Bootstrapped {
        BootstrapState::Bootstrapped
    } else if g.spec_store().spec_reachable() {
        BootstrapState::Bootstrapped
    } else {
        BootstrapState::Unknown
    }
}

/// The store's contents after `ensure_bootstrapped`: unchanged unless
/// the coordinator had to run the bulk load, which applies the
/// dataset's batch to the postcode table.
pub open spec fn spec_contents_after_bootstrap(g: Geocoder) -> Map<
    (Seq<char>, Seq<char>),
    Seq<char>,
> {
    if g.spec_state() is Bootstrapped || !g.spec_store().spec_reachable()
        || spec_store_populated(g) {
        g.spec_store().contents()
    } else {
        spec_apply_bulk(
            g.spec_store().contents(),
            POSTCODE_TABLE_NAME@,
            spec_bulk_entries(g.spec_dataset()),
        )
    }
}

/// The store's bulk-write count after `ensure_bootstrapped`: one more
/// exactly when the coordinator had to run the bulk load.
pub open spec fn spec_bulk_writes_after_bootstrap(g: Geocoder) -> int {
    if g.spec_state() is Bootstrapped || !g.spec_store().spec_reachable()
        || spec_store_populated(g) {
        g.spec_store().spec_bulk_writes()
    } else if g.spec_store().spec_bulk_writes() < u64::MAX {
        g.spec_store().spec_bulk_writes() + 1
    } else {
        g.spec_store().spec_bulk_writes()
    }
}

impl Geocoder {
    /// The Bootstrap Coordinator. In the terminal state it reports
    /// true at once, with no store round-trip. Otherwise it compares
    /// the store's record count against the dataset's valid-record
    /// count, runs the one-time bulk load when the store falls short,
    /// and memoizes the terminal state; if the store is unreachable it
    /// stays in the initial state and reports false, which sends the
    /// resolver down the fallback scan.
    pub fn ensure_bootstrapped(&mut self) -> (r: bool)
        requires
            old(self).wf(),
        ensures
            final(self).wf(),
            r == spec_bootstrap_ok(*old(self)),
            final(self).spec_dataset() == old(self).spec_dataset(),
            final(self).spec_store().spec_reachable() == old(self).spec_store().spec_reachable(),
            final(self).spec_state() == spec_state_after_bootstrap(*old(self)),
            final(self).spec_store().contents() == spec_contents_after_bootstrap(*old(self)),
            final(self).spec_store().spec_bulk_writes() == spec_bulk_writes_after_bootstrap(
                *old(self),
            ),
            forall|t: Seq<char>|
                t != POSTCODE_TABLE_NAME@ ==> final(self).spec_store().spec_count(t) == old(
                    self,
                ).spec_store().spec_count(t),
    {
        match self.state {
            BootstrapState::Bootstrapped => true,
            _ => {
                let expected = count_valid_records(&self.dataset);
                match self.store.count(POSTCODE_TABLE_NAME) {
                    Err(_) => {
                        self.state = BootstrapState::Unknown;
                        false
                    },
                    Ok(c) => {
                        if c >= expected {
                            self.state = BootstrapState::Bootstrapped;
                            true
                        } else {
                            self.state = BootstrapState::Bootstrapping;
                            let entries = build_bulk_entries(&self.dataset);
                            let _ = self.store.bulk_set(POSTCODE_TABLE_NAME, &entries);
                            self.state = BootstrapState::Bootstrapped;
                            true
                        }
                    },
                }
            },
        }
    }

    /// How many bulk loads the engine's store has applied.
    pub fn store_bulk_writes(&self) -> (r: u64)
        ensures
            r == self.spec_store().spec_bulk_writes(),
    {
        self.store.bulk_write_count()
    }

    /// Count the records the engine's store holds for a table.
    pub fn store_record_count(&self, table: &str) -> (r: Result<usize, ResolveError>)
        ensures
            !self.spec_store().spec_reachable() ==> r == Err::<usize, ResolveError>(
                ResolveError::StoreUnavailable,
            ),
            self.spec_store().spec_reachable() ==> r == Ok::<usize, ResolveError>(
                self.spec_store().spec_count(table@) as usize,
            ),
    {
        self.store.count(table)
    }

    /// The coordinator keyed by table name, as the cache exposes it: a
    /// table other than the postcode table has no bootstrap and reports
    /// false.
    pub fn bootstrap_cache(&mut self, table: &str) -> (r: bool)
        requires
            old(self).wf(),
        ensures
            final(self).wf(),
            table@ == POSTCODE_TABLE_NAME@ ==> {
                &&& r == spec_bootstrap_ok(*old(self))
                &&& final(self).spec_state() == spec_state_after_bootstrap(*old(self))
                &&& final(self).spec_store().contents() == spec_contents_after_bootstrap(
                    *old(self),
                )
                &&& final(self).spec_store().spec_bulk_writes() == spec_bulk_writes_after_bootstrap(
                    *old(self),
                )
            },
            table@ != POSTCODE_TABLE_NAME@ ==> !r && *final(self) == *old(self),
            final(self).spec_dataset() == old(self).spec_dataset(),
            final(self).spec_store().spec_reachable() == old(self).spec_store().spec_reachable(),
    {
        if crate::text::str_eq(table, POSTCODE_TABLE_NAME) {
            self.ensure_bootstrapped()
        } else {
            false
        }
    }

    /// Whether the postcode cache is ready, driving the bootstrap if
    /// it has not run yet.
    pub fn is_bootstrapped(&mut self) -> (r: bool)
        requires
            old(self).wf(),
        ensures
            final(self).wf(),
            r == spec_bootstrap_ok(*old(self)),
            final(self).spec_dataset() == old(self).spec_dataset(),
            final(self).spec_store().spec_reachable() == old(self).spec_store().spec_reachable(),
            final(self).spec_state() == spec_state_after_bootstrap(*old(self)),
            final(self).spec_store().contents() == spec_contents_after_bootstrap(*old(self)),
            final(self).spec_store().spec_bulk_writes() == spec_bulk_writes_after_bootstrap(
                *old(self),
            ),
    {
        self.ensure_bootstrapped()
    }
}

/// A resolved coordinate string after the Sentinel Filter: the string
/// itself, `InvalidLocation` for the sentinel placeholder, or
/// `RecordParseError` for a value that is no coordinate string.
pub open spec fn spec_checked_coordinates(s: Seq<char>) -> Result<Seq<char>, ResolveError> {
    match coordinate_string_status(s) {
        None => Ok(s),
        Some(e) => Err(e),
    }
}

/// What `reverse_search` returns, as a function of the engine and the
/// query. With a reachable store the resolver uses the cache, after
/// driving the bootstrap; otherwise it scans the dataset. Either way
/// the raw coordinate string passes through the Sentinel Filter.
pub open spec fn spec_reverse_search(g: Geocoder, q: Seq<char>) -> Result<Seq<char>, ResolveError> {
    if g.spec_store().spec_reachable() {
        let c = spec_contents_after_bootstrap(g);
        let key = (POSTCODE_TABLE_NAME@, normalize_key(q));
        if c.contains_key(key) {
            spec_checked_coordinates(c[key])
        } else {
            Err(ResolveError::NotFound)
        }
    } else {
        match spec_reverse_search_file(g.spec_dataset(), q) {
            Ok(s) => spec_checked_coordinates(s),
            Err(e) => Err(e),
        }
    }
}

/// What `get_location_from_postcode` returns: the reverse resolution
/// read as a coordinate pair.
pub open spec fn spec_locate(g: Geocoder, q: Seq<char>) -> Result<Coordinate, ResolveError> {
    match spec_reverse_search(g, q) {
        Err(e) => Err(e),
        Ok(s) => match coord_of_string(s) {
            None => Err(ResolveError::RecordParseError),
            Some(c) => Ok(c),
        },
    }
}

/// Bootstrap idempotence: once a call of `ensure_bootstrapped` has
/// succeeded the coordinator is in its terminal state, and in the
/// terminal state a further call reports true, touches nothing in the
/// store, and performs no further bulk load.
pub proof fn lemma_bootstrap_idempotent(g: Geocoder)
    requires
        spec_bootstrap_ok(g),
    ensures
        spec_state_after_bootstrap(g) is Bootstrapped,
        forall|g2: Geocoder|
            (#[trigger] g2.spec_state()) is Bootstrapped ==> spec_bootstrap_ok(g2)
                && spec_state_after_bootstrap(g2) is Bootstrapped && spec_contents_after_bootstrap(
                g2,
            ) == g2.spec_store().contents() && spec_bulk_writes_after_bootstrap(g2)
                == g2.spec_store().spec_bulk_writes(),
{
}

/// Sentinel exclusion at the resolver: whatever the engine's state,
/// a reverse resolution never hands back the sentinel placeholder,
/// nor any string that is not a coordinate string.
pub proof fn lemma_reverse_never_sentinel(g: Geocoder, q: Seq<char>)
    ensures
        spec_reverse_search(g, q) matches Ok(s) ==> {
            &&& coord_of_string(s) is Some
            &&& !coord_of_string(s)->Some_0.spec_is_sentinel()
        },
{
}

/// Fallback correctness: while the store is unreachable, reverse
/// resolution is exactly the dataset scan followed by the Sentinel
/// Filter — the unreachable store is invisible to the caller.
pub proof fn lemma_fallback_reverse(g: Geocoder, q: Seq<char>)
    requires
        !g.spec_store().spec_reachable(),
    ensures
        spec_reverse_search(g, q) == (match spec_reverse_search_file(g.spec_dataset(), q) {
            Ok(s) => spec_checked_coordinates(s),
            Err(e) => Err(e),
        }),
{
}

/// Round trip over the fallback path: with the store unreachable, a
/// loadable record that is the first answer for its own postcode and
/// coordinates resolves in both directions — `reverse_search` returns
/// its coordinate string, `get_location_from_postcode` its exact pair,
/// and the forward scan returns its own postcode, which normalizes
/// equal to the queried one.
pub proof fn lemma_round_trip_fallback(g: Geocoder, i: int)
    requires
        !g.spec_store().spec_reachable(),
        1 <= i < g.spec_dataset().len(),
        crate::dataset::row_is_loadable(g.spec_dataset()[i]),
        crate::dataset::first_postcode_match(
            g.spec_dataset(),
            crate::dataset::row_postcode(g.spec_dataset()[i]),
            1,
        ) == i,
        crate::dataset::first_coordinate_match(
            g.spec_dataset(),
            crate::dataset::row_coordinate(g.spec_dataset()[i]),
            1,
        ) == i,
    ensures
        spec_reverse_search(g, crate::dataset::row_postcode(g.spec_dataset()[i])) == Ok::<
            Seq<char>,
            ResolveError,
        >(crate::dataset::row_coordinate_string(g.spec_dataset()[i])),
        spec_locate(g, crate::dataset::row_postcode(g.spec_dataset()[i])) == Ok::<
            Coordinate,
            ResolveError,
        >(crate::dataset::row_coordinate(g.spec_dataset()[i])),
        spec_forward_search_file(g.spec_dataset(), crate::dataset::row_coordinate(g.spec_dataset()[i]))
            == Ok::<Seq<char>, ResolveError>(crate::dataset::row_postcode(g.spec_dataset()[i])),
{
    crate::dataset::lemma_dataset_round_trip(g.spec_dataset(), i);
}

/// Round trip over the cache path: with a reachable store that the
/// coordinator has not yet settled and that the count reconciliation
/// finds unpopulated, resolving a loadable record whose normalized
/// postcode no other loadable record shares drives the bulk load and
/// then answers from the cache with exactly that record's coordinate
/// string and pair.
pub proof fn lemma_round_trip_cached(g: Geocoder, i: int)
    requires
        g.spec_store().spec_reachable(),
        !(g.spec_state() is Bootstrapped),
        !spec_store_populated(g),
        1 <= i < g.spec_dataset().len(),
        crate::dataset::row_is_loadable(g.spec_dataset()[i]),
        forall|r: int|
            1 <= r < g.spec_dataset().len() && r != i && crate::dataset::row_is_loadable(
                #[trigger] g.spec_dataset()[r],
            ) ==> normalize_key(crate::dataset::row_postcode(g.spec_dataset()[r]))
                != normalize_key(crate::dataset::row_postcode(g.spec_dataset()[i])),
    ensures
        spec_reverse_search(g, crate::dataset::row_postcode(g.spec_dataset()[i])) == Ok::<
            Seq<char>,
            ResolveError,
        >(crate::dataset::row_coordinate_string(g.spec_dataset()[i])),
        spec_locate(g, crate::dataset::row_postcode(g.spec_dataset()[i])) == Ok::<
            Coordinate,
            ResolveError,
        >(crate::dataset::row_coordinate(g.spec_dataset()[i])),
{
    let lines = g.spec_dataset();
    let p = crate::dataset::row_postcode(lines[i]);
    crate::dataset::lemma_bulk_load_resolves_row(
        g.spec_store().contents(),
        POSTCODE_TABLE_NAME@,
        lines,
        1,
        i,
    );
    crate::keys::lemma_normalize_idempotent(p);
    crate::dataset::lemma_row_coordinate_string_parses(lines[i]);
}

/// Round trip, forward direction over the cache: after bootstrapping
/// a fresh store, any postcode key the forward lookup can return for a
/// record's pair — any key whose stored value denotes that pair — is
/// the record's own cache key, so it normalizes equal to the record's
/// postcode. The record's pair must be its own: no other loadable
/// record may carry the same coordinates.
pub proof fn lemma_forward_cached_normalizes(g: Geocoder, i: int, s: Seq<char>)
    requires
        g.spec_store().spec_reachable(),
        !(g.spec_state() is Bootstrapped),
        !spec_store_populated(g),
        g.spec_store().contents() == Map::<(Seq<char>, Seq<char>), Seq<char>>::empty(),
        1 <= i < g.spec_dataset().len(),
        crate::dataset::row_is_loadable(g.spec_dataset()[i]),
        forall|r: int|
            1 <= r < g.spec_dataset().len() && r != i && crate::dataset::row_is_loadable(
                #[trigger] g.spec_dataset()[r],
            ) ==> crate::dataset::row_coordinate(g.spec_dataset()[r])
                != crate::dataset::row_coordinate(g.spec_dataset()[i]),
        spec_contents_after_bootstrap(g).contains_key((POSTCODE_TABLE_NAME@, s)),
        coord_of_string(spec_contents_after_bootstrap(g)[(POSTCODE_TABLE_NAME@, s)]) == Some(
            crate::dataset::row_coordinate(g.spec_dataset()[i]),
        ),
    ensures
        normalize_key(s) == normalize_key(crate::dataset::row_postcode(g.spec_dataset()[i])),
{
    let lines = g.spec_dataset();
    let cafter = spec_contents_after_bootstrap(g);
    let entries = spec_bulk_entries(lines);
    let p = (POSTCODE_TABLE_NAME@, s);
    crate::store::lemma_apply_bulk_values(
        g.spec_store().contents(),
        POSTCODE_TABLE_NAME@,
        entries,
        p,
    );
    let j = choose|j: int| 0 <= j < entries.len() && #[trigger] entries[j] == (p.1, cafter[p]);
    crate::dataset::lemma_bulk_entry_source(lines, 1, j);
    let r = crate::dataset::bulk_entry_source(lines, 1, j);
    crate::dataset::lemma_row_coordinate_string_parses(lines[r]);
    assert(r == i);
    crate::keys::lemma_normalize_idempotent(crate::dataset::row_postcode(lines[i]));
}

impl Geocoder {
    /// Reverse resolution: postcode to raw `"lat;lon"` coordinate
    /// string. Consults the cache under the normalized key once
    /// bootstrapped, falls back to the dataset scan while the store is
    /// unreachable, and never returns the sentinel placeholder.
    pub fn reverse_search(&mut self, query: &str) -> (r: Result<String, ResolveError>)
        requires
            old(self).wf(),
        ensures
            final(self).wf(),
            final(self).spec_dataset() == old(self).spec_dataset(),
            final(self).spec_store().spec_reachable() == old(self).spec_store().spec_reachable(),
            final(self).spec_state() == spec_state_after_bootstrap(*old(self)),
            final(self).spec_store().contents() == spec_contents_after_bootstrap(*old(self)),
            final(self).spec_store().spec_bulk_writes() == spec_bulk_writes_after_bootstrap(
                *old(self),
            ),
            match r {
                Ok(s) => spec_reverse_search(*old(self), query@) == Ok::<Seq<char>, ResolveError>(
                    s@,
                ),
                Err(e) => spec_reverse_search(*old(self), query@) == Err::<Seq<char>, ResolveError>(
                    e,
                ),
            },
    {
        let bootstrapped = self.ensure_bootstrapped();
        let key = build_cache_key(query);
        if bootstrapped {
            match self.store.get_coordinates(key.as_str()) {
                Ok(v) => check_coordinate_string(v),
                Err(ResolveError::StoreUnavailable) => self.reverse_search_via_file(query),
                Err(_) => Err(ResolveError::NotFound),
            }
        } else {
            self.reverse_search_via_file(query)
        }
    }

    /// The fallback arm of `reverse_search`: scan the dataset and run
    /// the matching record through the Sentinel Filter.
    fn reverse_search_via_file(&self, query: &str) -> (r: Result<String, ResolveError>)
        ensures
            match r {
                Ok(s) => (match spec_reverse_search_file(self.spec_dataset(), query@) {
                    Ok(v) => spec_checked_coordinates(v),
                    Err(e) => Err(e),
                }) == Ok::<Seq<char>, ResolveError>(s@),
                Err(e) => (match spec_reverse_search_file(self.spec_dataset(), query@) {
                    Ok(v) => spec_checked_coordinates(v),
                    Err(e2) => Err(e2),
                }) == Err::<Seq<char>, ResolveError>(e),
            },
    {
        match reverse_search_file(&self.dataset, query) {
            Ok(s) => check_coordinate_string(s),
            Err(e) => Err(e),
        }
    }

    /// Reverse point lookup against the warm cache alone: the raw
    /// stored coordinate string for a postcode key, with no fallback
    /// and no Sentinel Filter.
    pub fn reverse_search_cache_table(&self, postcode: &str) -> (r: Result<String, ResolveError>)
        ensures
            !self.spec_store().spec_reachable() ==> r == Err::<String, ResolveError>(
                ResolveError::StoreUnavailable,
            ),
            self.spec_store().spec_reachable() ==> match r {
                Ok(v) => self.spec_store().contents().contains_key(
                    (POSTCODE_TABLE_NAME@, postcode@),
                ) && v@ == self.spec_store().contents()[(POSTCODE_TABLE_NAME@, postcode@)],
                Err(e) => e == ResolveError::NotFound && !self.spec_store().contents().contains_key(
                    (POSTCODE_TABLE_NAME@, postcode@),
                ),
            },
    {
        self.store.get_coordinates(postcode)
    }

    /// Forward point lookup against the warm cache alone: a postcode
    /// key whose stored value denotes the queried pair.
    pub fn forward_search_cache_table(&self, coordinates: &Coordinate) -> (r: Result<
        String,
        ResolveError,
    >)
        requires
            self.wf(),
        ensures
            !self.spec_store().spec_reachable() ==> r == Err::<String, ResolveError>(
                ResolveError::StoreUnavailable,
            ),
            self.spec_store().spec_reachable() ==> match r {
                Ok(s) => self.spec_store().contents().contains_key((POSTCODE_TABLE_NAME@, s@))
                    && coord_of_string(self.spec_store().contents()[(POSTCODE_TABLE_NAME@, s@)])
                    == Some(*coordinates),
                Err(e) => e == ResolveError::NotFound && forall|k: Seq<char>|
                    self.spec_store().contents().contains_key((POSTCODE_TABLE_NAME@, k))
                        ==> coord_of_string(
                        #[trigger] self.spec_store().contents()[(POSTCODE_TABLE_NAME@, k)],
                    ) != Some(*coordinates),
            },
    {
        self.store.get_postcode(coordinates)
    }

    /// Forward resolution: coordinate pair to postcode. The sentinel
    /// placeholder is refused outright; a reachable store answers from
    /// the cache after driving the bootstrap, an unreachable one sends
    /// the resolver down the dataset scan.
    pub fn forward_search(&mut self, coordinates: &Coordinate) -> (r: Result<String, ResolveError>)
        requires
            old(self).wf(),
        ensures
            final(self).wf(),
            final(self).spec_dataset() == old(self).spec_dataset(),
            final(self).spec_store().spec_reachable() == old(self).spec_store().spec_reachable(),
            coordinates.spec_is_sentinel() ==> r == Err::<String, ResolveError>(
                ResolveError::InvalidLocation,
            ) && *final(self) == *old(self),
            !coordinates.spec_is_sentinel() ==> {
                &&& final(self).spec_state() == spec_state_after_bootstrap(*old(self))
                &&& final(self).spec_store().contents() == spec_contents_after_bootstrap(
                    *old(self),
                )
                &&& final(self).spec_store().spec_bulk_writes() == spec_bulk_writes_after_bootstrap(
                    *old(self),
                )
                &&& (old(self).spec_store().spec_reachable() ==> match r {
                    Ok(s) => spec_contents_after_bootstrap(*old(self)).contains_key(
                        (POSTCODE_TABLE_NAME@, s@),
                    ) && coord_of_string(
                        spec_contents_after_bootstrap(*old(self))[(POSTCODE_TABLE_NAME@, s@)],
                    ) == Some(*coordinates),
                    Err(e) => e == ResolveError::NotFound && forall|k: Seq<char>|
                        spec_contents_after_bootstrap(*old(self)).contains_key(
                            (POSTCODE_TABLE_NAME@, k),
                        ) ==> coord_of_string(
                            #[trigger] spec_contents_after_bootstrap(*old(self))[
                                (POSTCODE_TABLE_NAME@, k)
                            ],
                        ) != Some(*coordinates),
                })
                &&& (!old(self).spec_store().spec_reachable() ==> match r {
                    Ok(s) => spec_forward_search_file(old(self).spec_dataset(), *coordinates)
                        == Ok::<Seq<char>, ResolveError>(s@),
                    Err(e) => spec_forward_search_file(old(self).spec_dataset(), *coordinates)
                        == Err::<Seq<char>, ResolveError>(e),
                })
            },
    {
        if !coordinates.is_valid() {
            return Err(ResolveError::InvalidLocation);
        }
        let bootstrapped = self.ensure_bootstrapped();
        if bootstrapped {
            match self.store.get_postcode(coordinates) {
                Err(ResolveError::StoreUnavailable) => forward_search_file(
                    &self.dataset,
                    coordinates,
                ),
                other => other,
            }
        } else {
            forward_search_file(&self.dataset, coordinates)
        }
    }

    /// Resolve a postcode to its coordinate pair: the reverse
    /// resolution read as exact micro-degrees.
    pub fn get_location_from_postcode(&mut self, query: &str) -> (r: Result<
        Coordinate,
        ResolveError,
    >)
        requires
            old(self).wf(),
        ensures
            final(self).wf(),
            final(self).spec_dataset() == old(self).spec_dataset(),
            final(self).spec_store().spec_reachable() == old(self).spec_store().spec_reachable(),
            final(self).spec_state() == spec_state_after_bootstrap(*old(self)),
            final(self).spec_store().contents() == spec_contents_after_bootstrap(*old(self)),
            final(self).spec_store().spec_bulk_writes() == spec_bulk_writes_after_bootstrap(
                *old(self),
            ),
            r == spec_locate(*old(self), query@),
    {
        match self.reverse_search(query) {
            Err(e) => Err(e),
            Ok(s) => {
                match crate::coords::parse_coordinate_string(s.as_str()) {
                    None => Err(ResolveError::RecordParseError),
                    Some(c) => Ok(c),
                }
            },
        }
    }
}

} // verus!
