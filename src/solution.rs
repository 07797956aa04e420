//! The packing engine's one operation: from packages and ULDs to placement
//! rows and a load sequence.
use vstd::prelude::*;

use crate::genetic::{GeneticSolver, PROB_SCALE};
use crate::loading::{dep_cycle, depends_on, distinct, loaded_before, LoadOrderError, PackageManager};
use crate::model::{is_placed, valid_placement, Package, PlacementRecord, ULD};
use crate::placer::Config;

verus! {

/// One placed package: its id, its ULD's id, and its box in ULD coordinates.
#[derive(Clone, Debug, PartialEq, Eq)]
pub struct SolutionRow {
    pub pack_id: String,
    pub uld_id: String,
    pub x1: i32,
    pub x2: i32,
    pub y1: i32,
    pub y2: i32,
    pub z1: i32,
    pub z2: i32,
}

/// A placed box as a visualization export lists it, with numeric ids.
#[derive(Clone, Copy, Debug, PartialEq, Eq, Structural)]
pub struct PackageData {
    pub uld_id: i32,
    pub pack_id: i32,
    pub x1: i32,
    pub y1: i32,
    pub z1: i32,
    pub x2: i32,
    pub y2: i32,
    pub z2: i32,
}

/// Why an input was refused.
#[derive(Clone, Copy, Debug, PartialEq, Eq, Structural)]
pub enum InputError {
    /// Package `i` has a dimension that is not positive.
    PackageDimension(usize),
    /// Package `i` has a negative weight or cost.
    PackageWeightOrCost(usize),
    /// ULD `i` has a dimension that is not positive, or a negative capacity.
    UldDimension(usize),
    /// Package `i` has an empty id.
    MissingPackageId(usize),
    /// ULD `i` has an empty id.
    MissingUldId(usize),
    /// Package `i` has the id of an earlier package.
    DuplicatePackageId(usize),
    /// ULD `i` has the id of an earlier ULD.
    DuplicateUldId(usize),
}

/// Why no solution was produced.
#[derive(Clone, Copy, Debug, PartialEq, Eq, Structural)]
pub enum SolveError {
    InvalidInput(InputError),
    LoadOrder(LoadOrderError),
}

pub open spec fn package_ids_ok(pkgs: Seq<Package>) -> bool {
    &&& forall|i: int| 0 <= i < pkgs.len() ==> (#[trigger] pkgs[i]).id@.len() > 0
    &&& forall|i: int, j: int|
        0 <= i < j < pkgs.len() ==> (#[trigger] pkgs[i]).id@ != (#[trigger] pkgs[j]).id@
}

pub open spec fn uld_ids_ok(ulds: Seq<ULD>) -> bool {
    &&& forall|i: int| 0 <= i < ulds.len() ==> (#[trigger] ulds[i]).id@.len() > 0
    &&& forall|i: int, j: int|
        0 <= i < j < ulds.len() ==> (#[trigger] ulds[i]).id@ != (#[trigger] ulds[j]).id@
}

/// Inputs the engine accepts: positive dimensions, weights, costs and
/// capacities not negative, ids present and unique.
pub open spec fn valid_input(pkgs: Seq<Package>, ulds: Seq<ULD>) -> bool {
    &&& crate::model::valid_packages(pkgs)
    &&& crate::model::valid_ulds(ulds)
    &&& package_ids_ok(pkgs)
    &&& uld_ids_ok(ulds)
}

/// The row of record `r`.
pub open spec fn row_of(pkgs: Seq<Package>, ulds: Seq<ULD>, row: SolutionRow, r: PlacementRecord) -> bool {
    &&& row.pack_id@ == pkgs[r.pkg as int].id@
    &&& row.uld_id@ == ulds[r.uld as int].id@
    &&& row.x1 == r.x1 && row.x2 == r.x2
    &&& row.y1 == r.y1 && row.y2 == r.y2
    &&& row.z1 == r.z1 && row.z2 == r.z2
}

/// The outcome of a run: the placement records, their rows, the load
/// sequence as package indices and as package ids.
pub struct PackingResult {
    pub records: Vec<PlacementRecord>,
    pub rows: Vec<SolutionRow>,
    pub order: Vec<usize>,
    pub loading_order: Vec<String>,
}

/// Checks the input; the first problem found is reported.
pub fn validate_input(pkgs: &Vec<Package>, ulds: &Vec<ULD>) -> (r: Result<(), InputError>)
    ensures
        r is Ok <==> valid_input(pkgs@, ulds@),
        r matches Err(InputError::PackageDimension(i)) ==> i < pkgs@.len() && !(pkgs@[i as int].length
            > 0 && pkgs@[i as int].width > 0 && pkgs@[i as int].height > 0),
        r matches Err(InputError::PackageWeightOrCost(i)) ==> i < pkgs@.len() && !(
        pkgs@[i as int].weight >= 0 && pkgs@[i as int].cost >= 0),
        r matches Err(InputError::UldDimension(i)) ==> i < ulds@.len() && !ulds@[i as int].valid(),
        r matches Err(InputError::MissingPackageId(i)) ==> i < pkgs@.len() && pkgs@[i as int].id@.len()
            == 0,
        r matches Err(InputError::MissingUldId(i)) ==> i < ulds@.len() && ulds@[i as int].id@.len()
            == 0,
        r matches Err(InputError::DuplicatePackageId(i)) ==> i < pkgs@.len() && exists|j: int|
            0 <= j < i && #[trigger] pkgs@[j].id@ == pkgs@[i as int].id@,
        r matches Err(InputError::DuplicateUldId(i)) ==> i < ulds@.len() && exists|j: int|
            0 <= j < i && #[trigger] ulds@[j].id@ == ulds@[i as int].id@,
{
    let n = pkgs.len();
    for i in 0..n
        invariant
            n == pkgs@.len(),
            forall|k: int| 0 <= k < i ==> (#[trigger] pkgs@[k]).valid() && pkgs@[k].id@.len() > 0,
            forall|k: int, j: int|
                0 <= k < j < i ==> (#[trigger] pkgs@[k]).id@ != (#[trigger] pkgs@[j]).id@,
    {
        let p = &pkgs[i];
        if !(p.length > 0 && p.width > 0 && p.height > 0) {
            return Err(InputError::PackageDimension(i));
        }
        if !(p.weight >= 0 && p.cost >= 0) {
            return Err(InputError::PackageWeightOrCost(i));
        }
        if p.id.as_str().unicode_len() == 0 {
            return Err(InputError::MissingPackageId(i));
        }
        for j in 0..i
            invariant
                n == pkgs@.len(),
                i < n,
                forall|k: int| 0 <= k < j ==> (#[trigger] pkgs@[k]).id@ != pkgs@[i as int].id@,
        {
            if pkgs[j].id == pkgs[i].id {
                return Err(InputError::DuplicatePackageId(i));
            }
        }
    }
    let m = ulds.len();
    for i in 0..m
        invariant
            m == ulds@.len(),
            n == pkgs@.len(),
            crate::model::valid_packages(pkgs@),
            package_ids_ok(pkgs@),
            forall|k: int| 0 <= k < i ==> (#[trigger] ulds@[k]).valid() && ulds@[k].id@.len() > 0,
            forall|k: int, j: int|
                0 <= k < j < i ==> (#[trigger] ulds@[k]).id@ != (#[trigger] ulds@[j]).id@,
    {
        let u = &ulds[i];
        if !(u.length > 0 && u.width > 0 && u.height > 0 && u.weight >= 0) {
            return Err(InputError::UldDimension(i));
        }
        if u.id.as_str().unicode_len() == 0 {
            return Err(InputError::MissingUldId(i));
        }
        for j in 0..i
            invariant
                m == ulds@.len(),
                i < m,
                forall|k: int| 0 <= k < j ==> (#[trigger] ulds@[k]).id@ != ulds@[i as int].id@,
        {
            if ulds[j].id == ulds[i].id {
                return Err(InputError::DuplicateUldId(i));
            }
        }
    }
    Ok(())
}

/// The population size of the default configuration.
pub const POP_SIZE: usize = 2;

/// The number of generations of the default configuration.
pub const GENERATIONS: usize = 500;

/// The number of elites of the default configuration.
pub const ELITES: usize = 1;

/// The elite inheritance probability of the default configuration, in
/// millionths (0.8).
pub const ELITE_PROB: u64 = 800_000;

/// What a successful run promises: the records are a valid placement of
/// `pkgs` in `ulds`, the rows are the records with their ids, and the load
/// sequence holds each placed package once, after every package it depends on.
pub open spec fn result_ok(pkgs: Seq<Package>, ulds: Seq<ULD>, res: PackingResult) -> bool {
    let recs = res.records@;
    let order = res.order@;
    &&& valid_placement(pkgs, ulds, recs)
    &&& res.rows@.len() == recs.len()
    &&& forall|k: int| 0 <= k < recs.len() ==> row_of(pkgs, ulds, #[trigger] res.rows@[k], recs[k])
    &&& distinct(order)
    &&& forall|k: int| 0 <= k < order.len() ==> is_placed(recs, #[trigger] order[k] as int)
    &&& forall|i: int| 0 <= i < recs.len() ==> order.contains(#[trigger] recs[i].pkg)
    &&& forall|a: int, i: int, q: usize|
        0 <= a < order.len() && 0 <= i < recs.len() && recs[i].pkg == #[trigger] order[a]
            && #[trigger] depends_on(recs, i, q as int) ==> loaded_before(order, a, q)
    &&& res.loading_order@.len() == order.len()
    &&& forall|k: int|
        0 <= k < order.len() ==> (#[trigger] res.loading_order@[k])@ == pkgs[order[k] as int].id@
}

/// Packs `pkgs` into `ulds` with a search of `pop_size` chromosomes over
/// `generations` generations, `elites` elites and an elite inheritance
/// probability of `elite_prob` millionths, drawing random numbers from
/// `seed`. Refuses invalid input; fails only if the dependency graph of the
/// placement found has a cycle.
pub fn solve(
    pkgs: Vec<Package>,
    ulds: Vec<ULD>,
    pop_size: usize,
    generations: usize,
    elites: usize,
    elite_prob: u64,
    seed: u64,
) -> (r: Result<PackingResult, SolveError>)
    requires
        1 <= elites < pop_size,
        elite_prob <= PROB_SCALE,
    ensures
        !valid_input(pkgs@, ulds@) <==> r matches Err(SolveError::InvalidInput(_)),
        r matches Ok(res) ==> result_ok(pkgs@, ulds@, res),
        r matches Ok(res) ==> exists|c: Config|
            #[trigger] c.evaluated_ok(pkgs@, ulds@) && res.records@ == c.resultant_data@,
        r matches Err(SolveError::LoadOrder(_)) ==> exists|recs: Seq<PlacementRecord>|
            valid_placement(pkgs@, ulds@, recs) && exists|c: Seq<usize>| #[trigger] dep_cycle(recs, c),
{
    match validate_input(&pkgs, &ulds) {
        Err(e) => {
            return Err(SolveError::InvalidInput(e));
        },
        Ok(()) => {},
    }
    let np = pkgs.len();
    let nu = ulds.len();
    let ghost pv = pkgs@;
    let ghost uv = ulds@;
    let mut solver = GeneticSolver::new(pkgs, ulds, pop_size, generations, elites, elite_prob, seed);
    let found = solver.run();
    let best = found.best;
    let recs = best.resultant_data.clone();
    assert(recs@ == best.resultant_data@);
    proof {
        assert forall|i: int| 0 <= i < recs@.len() implies crate::model::record_fits(
            pv,
            uv,
            #[trigger] recs@[i],
        ) by {}
    }
    let mut mng = PackageManager::new(np, nu, best.resultant_data.clone());
    assert(mng.sol@ == recs@);
    proof {
        assert forall|i: int| 0 <= i < mng.sol@.len() implies {
            let r = #[trigger] mng.sol@[i];
            &&& r.pkg < mng.num_of_total_pkgs
            &&& r.uld < mng.num_of_ulds
            &&& 0 <= r.x1 < r.x2
            &&& 0 <= r.y1 < r.y2
            &&& 0 <= r.z1 < r.z2
        } by {
            assert(crate::model::record_fits(pv, uv, recs@[i]));
        }
    }
    let order = match mng.get_results() {
        Ok(o) => o,
        Err(e) => {
            assert(valid_placement(pv, uv, recs@));
            return Err(SolveError::LoadOrder(e));
        },
    };
    let all_pkgs = &solver.org_pkgs;
    let all_ulds = &solver.org_ulds;
    let n = recs.len();
    let mut rows: Vec<SolutionRow> = Vec::new();
    for k in 0..n
        invariant
            n == recs@.len(),
            all_pkgs@ == pv,
            all_ulds@ == uv,
            valid_placement(pv, uv, recs@),
            rows@.len() == k,
            forall|j: int| 0 <= j < k ==> row_of(pv, uv, #[trigger] rows@[j], recs@[j]),
    {
        let r = recs[k];
        proof {
            assert(crate::model::record_fits(pv, uv, recs@[k as int]));
        }
        rows.push(
            SolutionRow {
                pack_id: all_pkgs[r.pkg].id.clone(),
                uld_id: all_ulds[r.uld].id.clone(),
                x1: r.x1,
                x2: r.x2,
                y1: r.y1,
                y2: r.y2,
                z1: r.z1,
                z2: r.z2,
            },
        );
    }
    let m = order.len();
    let mut loading_order: Vec<String> = Vec::new();
    for k in 0..m
        invariant
            m == order@.len(),
            all_pkgs@ == pv,
            forall|j: int| 0 <= j < order@.len() ==> #[trigger] order@[j] < pv.len(),
            loading_order@.len() == k,
            forall|j: int|
                0 <= j < k ==> (#[trigger] loading_order@[j])@ == pv[order@[j] as int].id@,
    {
        loading_order.push(all_pkgs[order[k]].id.clone());
    }
    assert(best.evaluated_ok(pv, uv) && recs@ == best.resultant_data@);
    Ok(PackingResult { records: recs, rows, order, loading_order })
}

/// Packs `pkgs` into `ulds` with the default search configuration
/// (population 2, 500 generations, 1 elite, inheritance probability 0.8),
/// drawing random numbers from `seed`.
pub fn generate_solution(pkgs: Vec<Package>, ulds: Vec<ULD>, seed: u64) -> (r: Result<
    PackingResult,
    SolveError,
>)
    ensures
        !valid_input(pkgs@, ulds@) <==> r matches Err(SolveError::InvalidInput(_)),
        r matches Ok(res) ==> result_ok(pkgs@, ulds@, res),
        r matches Ok(res) ==> exists|c: Config|
            #[trigger] c.evaluated_ok(pkgs@, ulds@) && res.records@ == c.resultant_data@,
        r matches Err(SolveError::LoadOrder(_)) ==> exists|recs: Seq<PlacementRecord>|
            valid_placement(pkgs@, ulds@, recs) && exists|c: Seq<usize>| #[trigger] dep_cycle(recs, c),
{
    solve(pkgs, ulds, POP_SIZE, GENERATIONS, ELITES, ELITE_PROB, seed)
}

} // verus!
