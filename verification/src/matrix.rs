//! The Matrix Assembler: batch resolution of job and vehicle postcodes
//! into the ordered coordinate list handed to the external Matrix
//! Provider, and the mapping of the provider's response into the
//! distance/time matrix shape the routing solver consumes.

use vstd::prelude::*;
use vstd::string::*;
use crate::coords::Coordinate;
use crate::errors::MatrixError;
use crate::geocoding::Geocoder;
use crate::geocoding::spec_bulk_writes_after_bootstrap;
use crate::geocoding::spec_contents_after_bootstrap;
use crate::geocoding::spec_locate;
use crate::geocoding::spec_state_after_bootstrap;
use crate::text::str_eq;

verus! {

/// The coordinates of the batch entries that resolve, in batch order.
pub open spec fn spec_batch_resolved(g: Geocoder, qs: Seq<Seq<char>>) -> Seq<Coordinate>
    decreases qs.len(),
{
    if qs.len() == 0 {
        Seq::empty()
    } else {
        (match spec_locate(g, qs[0]) {
            Ok(c) => seq![c],
            Err(_) => Seq::empty(),
        }) + spec_batch_resolved(g, qs.drop_first())
    }
}

/// The batch entries that fail to resolve, in batch order.
pub open spec fn spec_batch_unresolved(g: Geocoder, qs: Seq<Seq<char>>) -> Seq<Seq<char>>
    decreases qs.len(),
{
    if qs.len() == 0 {
        Seq::empty()
    } else {
        (match spec_locate(g, qs[0]) {
            Ok(_) => Seq::empty(),
            Err(_) => seq![qs[0]],
        }) + spec_batch_unresolved(g, qs.drop_first())
    }
}

/// Partial batch resolution drops nothing: every entry of a batch is
/// either resolved or reported, so the two output lists partition the
/// input.
pub proof fn lemma_batch_partition(g: Geocoder, qs: Seq<Seq<char>>)
    ensures
        spec_batch_resolved(g, qs).len() + spec_batch_unresolved(g, qs).len() == qs.len(),
    decreases qs.len(),
{
    if qs.len() > 0 {
        lemma_batch_partition(g, qs.drop_first());
    }
}

impl Geocoder {
    /// Resolve a batch of postcodes, collecting per-entry failures
    /// instead of aborting: the resolved coordinates come back in
    /// input order beside the postcodes that failed, also in input
    /// order.
    pub fn resolve_postcodes(&mut self, postcodes: &Vec<String>) -> (r: (
        Vec<Coordinate>,
        Vec<String>,
    ))
        requires
            old(self).wf(),
        ensures
            final(self).wf(),
            final(self).spec_dataset() == old(self).spec_dataset(),
            final(self).spec_store().spec_reachable() == old(self).spec_store().spec_reachable(),
            final(self).spec_state() == spec_state_after_bootstrap(*old(self)),
            final(self).spec_store().contents() == spec_contents_after_bootstrap(*old(self)),
            final(self).spec_store().spec_bulk_writes() == spec_bulk_writes_after_bootstrap(
                *old(self),
            ),
            r.0@ == spec_batch_resolved(*old(self), postcodes.deep_view()),
            r.1.deep_view() == spec_batch_unresolved(*old(self), postcodes.deep_view()),
            r.0@.len() + r.1@.len() == postcodes@.len(),
    {
        let ghost g0 = *old(self);
        let ghost qs = postcodes.deep_view();
        let _ = self.ensure_bootstrapped();
        let mut resolved: Vec<Coordinate> = Vec::new();
        let mut unresolved: Vec<String> = Vec::new();
        let mut i: usize = 0;
        proof {
            assert(qs.skip(0) =~= qs);
        }
        while i < postcodes.len()
            invariant
                i <= postcodes@.len(),
                qs == postcodes.deep_view(),
                self.wf(),
                self.spec_dataset() == g0.spec_dataset(),
                self.spec_store().spec_reachable() == g0.spec_store().spec_reachable(),
                self.spec_state() == spec_state_after_bootstrap(g0),
                self.spec_store().contents() == spec_contents_after_bootstrap(g0),
                self.spec_store().spec_bulk_writes() == spec_bulk_writes_after_bootstrap(g0),
                resolved@ + spec_batch_resolved(g0, qs.skip(i as int)) == spec_batch_resolved(
                    g0,
                    qs,
                ),
                unresolved.deep_view() + spec_batch_unresolved(g0, qs.skip(i as int))
                    == spec_batch_unresolved(g0, qs),
                resolved@.len() + unresolved@.len() == i,
            decreases postcodes@.len() - i,
        {
            let ghost pre = *self;
            proof {
                lemma_locate_stable(g0, pre);
                assert(qs.skip(i as int)[0] == qs[i as int]);
                assert(qs.skip(i as int).drop_first() =~= qs.skip(i as int + 1));
            }
            let q = &postcodes[i];
            match self.get_location_from_postcode(q.as_str()) {
                Ok(c) => {
                    resolved.push(c);
                },
                Err(_) => {
                    unresolved.push(q.clone());
                },
            }
            proof {
                lemma_after_bootstrap_stable(g0, pre);
                assert(resolved@ + spec_batch_resolved(g0, qs.skip(i as int + 1))
                    =~= spec_batch_resolved(g0, qs));
                assert(unresolved.deep_view() + spec_batch_unresolved(g0, qs.skip(i as int + 1))
                    =~= spec_batch_unresolved(g0, qs));
            }
            i += 1;
        }
        proof {
            assert(qs.skip(postcodes@.len() as int) =~= Seq::<Seq<char>>::empty());
            assert(resolved@ =~= spec_batch_resolved(g0, qs));
            assert(unresolved.deep_view() =~= spec_batch_unresolved(g0, qs));
        }
        (resolved, unresolved)
    }
}

/// A state the coordinator has already settled resolves queries
/// exactly as the state it settled from: the bootstrap step changes
/// where answers come from, never what they are.
pub proof fn lemma_locate_stable(g0: Geocoder, g1: Geocoder)
    requires
        g1.spec_dataset() == g0.spec_dataset(),
        g1.spec_store().spec_reachable() == g0.spec_store().spec_reachable(),
        g1.spec_state() == spec_state_after_bootstrap(g0),
        g1.spec_store().contents() == spec_contents_after_bootstrap(g0),
    ensures
        forall|q: Seq<char>| #[trigger] spec_locate(g1, q) == spec_locate(g0, q),
{
}

/// The bootstrap transforms are identities on a settled state.
pub proof fn lemma_after_bootstrap_stable(g0: Geocoder, g1: Geocoder)
    requires
        g1.spec_dataset() == g0.spec_dataset(),
        g1.spec_store().spec_reachable() == g0.spec_store().spec_reachable(),
        g1.spec_state() == spec_state_after_bootstrap(g0),
        g1.spec_store().contents() == spec_contents_after_bootstrap(g0),
        g1.spec_store().spec_bulk_writes() == spec_bulk_writes_after_bootstrap(g0),
    ensures
        spec_state_after_bootstrap(g1) == g1.spec_state(),
        spec_contents_after_bootstrap(g1) == g1.spec_store().contents(),
        spec_bulk_writes_after_bootstrap(g1) == g1.spec_store().spec_bulk_writes(),
{
}

/// What the Matrix Assembler hands onward: the resolved coordinates in
/// the canonical job-then-vehicle order, and the postcodes that failed
/// to resolve, reported rather than dropped.
#[derive(Debug)]
pub struct MatrixRequest {
    pub coordinates: Vec<Coordinate>,
    pub unresolved: Vec<String>,
}

impl Geocoder {
    /// Assemble the Matrix Provider request for a trip: resolve every
    /// job postcode, then every vehicle postcode, and concatenate the
    /// resolved coordinates in exactly that order. Per-entry failures
    /// are collected beside the request; only a batch in which nothing
    /// resolved at all fails, with `AllUnresolved`.
    pub fn build_matrix_request(
        &mut self,
        job_postcodes: &Vec<String>,
        vehicle_postcodes: &Vec<String>,
    ) -> (r: Result<MatrixRequest, MatrixError>)
        requires
            old(self).wf(),
        ensures
            final(self).wf(),
            final(self).spec_dataset() == old(self).spec_dataset(),
            final(self).spec_store().spec_reachable() == old(self).spec_store().spec_reachable(),
            match r {
                Ok(req) => {
                    &&& req.coordinates@ == spec_batch_resolved(
                        *old(self),
                        job_postcodes.deep_view(),
                    ) + spec_batch_resolved(*old(self), vehicle_postcodes.deep_view())
                    &&& req.unresolved.deep_view() == spec_batch_unresolved(
                        *old(self),
                        job_postcodes.deep_view(),
                    ) + spec_batch_unresolved(*old(self), vehicle_postcodes.deep_view())
                    &&& req.coordinates@.len() > 0 || job_postcodes@.len() + vehicle_postcodes@.len()
                        == 0
                },
                Err(e) => {
                    &&& e == MatrixError::AllUnresolved
                    &&& job_postcodes@.len() + vehicle_postcodes@.len() > 0
                    &&& spec_batch_resolved(*old(self), job_postcodes.deep_view()).len()
                        + spec_batch_resolved(*old(self), vehicle_postcodes.deep_view()).len() == 0
                },
            },
    {
        let ghost g0 = *old(self);
        let ghost pre_vehicles = *self;
        let (mut job_coords, mut job_failed) = self.resolve_postcodes(job_postcodes);
        let ghost mid = *self;
        let (mut vehicle_coords, mut vehicle_failed) = self.resolve_postcodes(vehicle_postcodes);
        proof {
            lemma_batch_seqs_stable(g0, mid, vehicle_postcodes.deep_view());
        }
        let any_input = job_postcodes.len() > 0 || vehicle_postcodes.len() > 0;
        let mut coordinates = job_coords;
        coordinates.append(&mut vehicle_coords);
        let mut unresolved = job_failed;
        unresolved.append(&mut vehicle_failed);
        proof {
            assert(unresolved.deep_view() =~= spec_batch_unresolved(g0, job_postcodes.deep_view())
                + spec_batch_unresolved(g0, vehicle_postcodes.deep_view()));
        }
        if coordinates.len() == 0 && any_input {
            return Err(MatrixError::AllUnresolved);
        }
        Ok(MatrixRequest { coordinates, unresolved })
    }
}

/// Batch resolution over a settled state agrees with the state it
/// settled from.
pub proof fn lemma_batch_seqs_stable(g0: Geocoder, g1: Geocoder, qs: Seq<Seq<char>>)
    requires
        g1.spec_dataset() == g0.spec_dataset(),
        g1.spec_store().spec_reachable() == g0.spec_store().spec_reachable(),
        g1.spec_state() == spec_state_after_bootstrap(g0),
        g1.spec_store().contents() == spec_contents_after_bootstrap(g0),
    ensures
        spec_batch_resolved(g1, qs) == spec_batch_resolved(g0, qs),
        spec_batch_unresolved(g1, qs) == spec_batch_unresolved(g0, qs),
    decreases qs.len(),
{
    lemma_locate_stable(g0, g1);
    if qs.len() > 0 {
        lemma_batch_seqs_stable(g0, g1, qs.drop_first());
    }
}

/// The distance/time matrix the routing solver consumes: the pairwise
/// travel durations and distances over the request's coordinates,
/// flattened row by row.
#[derive(Debug)]
pub struct Matrix {
    pub travel_times: Vec<i64>,
    pub distances: Vec<i64>,
    pub size: usize,
}

/// Rows flattened into one sequence, row by row.
pub open spec fn spec_flatten(rows: Seq<Seq<i64>>) -> Seq<i64>
    decreases rows.len(),
{
    if rows.len() == 0 {
        Seq::empty()
    } else {
        rows[0] + spec_flatten(rows.drop_first())
    }
}

/// Every row has this length.
pub open spec fn spec_uniform_rows(rows: Seq<Seq<i64>>, n: int) -> bool {
    forall|i: int| 0 <= i < rows.len() ==> (#[trigger] rows[i]).len() == n
}

impl Matrix {
    /// A well-formed matrix is square over the request size.
    pub open spec fn wf(self) -> bool {
        &&& self.travel_times@.len() == self.size * self.size
        &&& self.distances@.len() == self.size * self.size
    }
}

/// Map the Matrix Provider's response into the solver's matrix shape.
/// A non-success status code, or a response whose duration or distance
/// table is not square over the request's coordinate count, fails with
/// `MatrixProviderError`: a partial matrix is unusable. On success the
/// flattened tables keep the provider's row order, so indexes keep the
/// job-then-vehicle correspondence of the request.
pub fn get_matrix(
    code: &str,
    durations: &Vec<Vec<i64>>,
    distances: &Vec<Vec<i64>>,
    size: usize,
) -> (r: Result<Matrix, MatrixError>)
    ensures
        r is Ok <==> (code@ == "Ok"@ && durations.deep_view().len() == size && distances.deep_view().len()
            == size && spec_uniform_rows(durations.deep_view(), size as int) && spec_uniform_rows(
            distances.deep_view(),
            size as int,
        )),
        r is Err ==> r->Err_0 == MatrixError::MatrixProviderError,
        r is Ok ==> {
            &&& r->Ok_0.size == size
            &&& r->Ok_0.travel_times@ == spec_flatten(durations.deep_view())
            &&& r->Ok_0.distances@ == spec_flatten(distances.deep_view())
            &&& r->Ok_0.wf()
        },
{
    if !str_eq(code, "Ok") {
        return Err(MatrixError::MatrixProviderError);
    }
    let travel_times = match flatten_square(durations, size) {
        Some(v) => v,
        None => {
            return Err(MatrixError::MatrixProviderError);
        },
    };
    let distances_flat = match flatten_square(distances, size) {
        Some(v) => v,
        None => {
            return Err(MatrixError::MatrixProviderError);
        },
    };
    Ok(Matrix { travel_times, distances: distances_flat, size })
}

/// Flatten a table row by row, insisting that it is square over `n`.
fn flatten_square(rows: &Vec<Vec<i64>>, n: usize) -> (r: Option<Vec<i64>>)
    ensures
        r is Some <==> (rows.deep_view().len() == n && spec_uniform_rows(
            rows.deep_view(),
            n as int,
        )),
        r is Some ==> r->Some_0@ == spec_flatten(rows.deep_view()) && r->Some_0@.len() == n * n,
{
    let ghost dv = rows.deep_view();
    if rows.len() != n {
        return None;
    }
    let mut out: Vec<i64> = Vec::new();
    let mut i: usize = 0;
    proof {
        assert(dv.take(0) =~= Seq::<Seq<i64>>::empty());
    }
    while i < n
        invariant
            i <= n,
            dv == rows.deep_view(),
            dv.len() == n,
            out@ == spec_flatten(dv.take(i as int)),
            out@.len() == i * n,
            spec_uniform_rows(dv.take(i as int), n as int),
        decreases n - i,
    {
        let row = &rows[i];
        if row.len() != n {
            proof {
                assert(dv[i as int] == row@);
                assert(!spec_uniform_rows(dv, n as int));
            }
            return None;
        }
        let mut j: usize = 0;
        while j < n
            invariant
                j <= n,
                i < n,
                dv == rows.deep_view(),
                dv.len() == n,
                row@ == dv[i as int],
                row@.len() == n,
                out@ == spec_flatten(dv.take(i as int)) + dv[i as int].take(j as int),
                out@.len() == i * n + j,
                spec_uniform_rows(dv.take(i as int), n as int),
            decreases n - j,
        {
            out.push(row[j]);
            proof {
                assert(dv[i as int].take(j as int + 1) =~= dv[i as int].take(j as int).push(
                    dv[i as int][j as int],
                ));
                assert(out@ =~= spec_flatten(dv.take(i as int)) + dv[i as int].take(j as int + 1));
            }
            j += 1;
        }
        proof {
            assert(dv[i as int].take(n as int) =~= dv[i as int]);
            lemma_flatten_snoc(dv.take(i as int + 1));
            assert(dv.take(i as int + 1).drop_last() =~= dv.take(i as int));
            assert(dv.take(i as int + 1).last() == dv[i as int]);
            assert(out@ =~= spec_flatten(dv.take(i as int + 1)));
            assert((i as int + 1) * n == i as int * n + n) by (nonlinear_arith);
            assert forall|k: int|
                0 <= k < dv.take(i as int + 1).len() implies (#[trigger] dv.take(i as int + 1)[k]).len()
                == n as int by {
                if k < i {
                    assert(dv.take(i as int + 1)[k] == dv.take(i as int)[k]);
                }
            }
        }
        i += 1;
    }
    proof {
        assert(dv.take(n as int) =~= dv);
        assert(spec_uniform_rows(dv, n as int));
    }
    Some(out)
}

/// Flattening a sequence of rows ends with its last row.
proof fn lemma_flatten_snoc(rows: Seq<Seq<i64>>)
    requires
        rows.len() > 0,
    ensures
        spec_flatten(rows) == spec_flatten(rows.drop_last()) + rows.last(),
    decreases rows.len(),
{
    if rows.len() == 1 {
        assert(rows.drop_first() =~= Seq::<Seq<i64>>::empty());
        assert(rows.drop_last() =~= Seq::<Seq<i64>>::empty());
        assert(spec_flatten(rows.drop_last()) + rows.last() =~= rows[0]);
        assert(spec_flatten(rows) =~= rows[0]);
    } else {
        lemma_flatten_snoc(rows.drop_first());
        assert(rows.drop_first().drop_last() =~= rows.drop_last().drop_first());
        assert(rows.drop_first().last() == rows.last());
        assert(rows.drop_last()[0] == rows[0]);
        assert(spec_flatten(rows) == rows[0] + spec_flatten(rows.drop_first()));
        assert(rows[0] + (spec_flatten(rows.drop_first().drop_last()) + rows.last()) =~= (rows[0]
            + spec_flatten(rows.drop_last().drop_first())) + rows.last());
    }
}

} // verus!
