use uld_packing::chromosome::KEY_SPAN;
use uld_packing::cushion::{nearest_gap, uld_cushion, uld_pack_volume, Face};
use uld_packing::genetic::GeneticSolver;
use uld_packing::geometry::{anchored_corner, check_intersection_cuboids, orientations};
use uld_packing::loading::{Axis, LoadOrderError, PackageManager};
use uld_packing::model::{Package, PlacementRecord, ULD};
use uld_packing::ordering::sort_indices;
use uld_packing::placer::Config;
use uld_packing::solution::{validate_input, InputError, PackageData, SolveError};

fn pkg(id: &str, l: i32, w: i32, h: i32, weight: i32, cost: i32, priority: bool) -> Package {
    Package { id: id.to_string(), length: l, width: w, height: h, weight, cost, priority }
}

fn uld(id: &str, l: i32, w: i32, h: i32, cap: i32) -> ULD {
    ULD { id: id.to_string(), length: l, width: w, height: h, weight: cap }
}

fn rec(pkg: usize, uld: usize, lo: (i32, i32, i32), hi: (i32, i32, i32)) -> PlacementRecord {
    PlacementRecord { pkg, uld, x1: lo.0, y1: lo.1, z1: lo.2, x2: hi.0, y2: hi.1, z2: hi.2 }
}

#[test]
fn touching_faces_do_not_intersect() {
    assert!(!check_intersection_cuboids([0, 0, 0], [2, 2, 2], [2, 0, 0], [4, 2, 2]));
    assert!(check_intersection_cuboids([0, 0, 0], [2, 2, 2], [1, 1, 1], [3, 3, 3]));
    assert!(!check_intersection_cuboids([0, 0, 0], [2, 2, 2], [0, 0, 2], [2, 2, 3]));
}

#[test]
fn six_orientations_in_order() {
    let o = orientations(1, 2, 3);
    assert_eq!(o, vec![[1, 2, 3], [1, 3, 2], [2, 1, 3], [2, 3, 1], [3, 1, 2], [3, 2, 1]]);
}

#[test]
fn corner_tags_grow_into_their_octant() {
    assert_eq!(anchored_corner(10, 10, 10, 1, 2, 3, 4), (10, 10, 10));
    assert_eq!(anchored_corner(10, 10, 10, 4, 2, 3, 4), (8, 7, 10));
    assert_eq!(anchored_corner(10, 10, 10, 8, 2, 3, 4), (8, 7, 6));
    assert_eq!(anchored_corner(10, 10, 10, 6, 2, 3, 4), (10, 7, 6));
}

#[test]
fn stable_sort_keeps_index_order_on_ties() {
    let keys = vec![(3, 0, 0), (1, 0, 0), (3, 0, 0), (0, 5, 0), (1, 0, 0)];
    assert_eq!(sort_indices(&keys), vec![3, 1, 4, 0, 2]);
}

#[test]
fn decode_orders_by_key() {
    let pkgs = vec![
        pkg("a", 1, 1, 1, 1, 1, true),
        pkg("b", 1, 1, 1, 1, 1, false),
        pkg("c", 1, 1, 1, 1, 1, true),
        pkg("d", 1, 1, 1, 1, 1, true),
    ];
    let ulds = vec![uld("U", 5, 5, 5, 10)];
    let mut c = Config::new(&pkgs, &ulds);
    assert_eq!(c.priority_idx, vec![0, 2, 3]);
    assert_eq!(c.non_priority_idx, vec![1]);
    c.enc_priority_ord = vec![30, 10, 20];
    c.enc_non_priority_ord = vec![5];
    c.decode();
    assert_eq!(c.priority_order, vec![2, 3, 0]);
    assert_eq!(c.non_priority_order, vec![1]);
}

#[test]
fn random_keys_stay_below_span() {
    let pkgs: Vec<Package> = (0..6).map(|i| pkg(&format!("p{}", i), 1, 1, 1, 1, 1, i % 2 == 0)).collect();
    let ulds = vec![uld("U", 5, 5, 5, 10)];
    let mut solver = GeneticSolver::new(pkgs.clone(), ulds.clone(), 3, 2, 1, 500_000, 9);
    let mut c = Config::new(&pkgs, &ulds);
    c.initialize(&mut solver.rng);
    assert_eq!(c.enc_priority_ord.len(), 3);
    assert_eq!(c.enc_non_priority_ord.len(), 3);
    assert!(c.enc_priority_ord.iter().chain(c.enc_non_priority_ord.iter()).all(|&k| k < KEY_SPAN));
    let distinct: std::collections::HashSet<u64> = c.enc_priority_ord.iter().copied().collect();
    assert!(distinct.len() > 1);
}

fn config_with(pkgs: &Vec<Package>, ulds: &Vec<ULD>, recs: Vec<PlacementRecord>) -> Config {
    let mut c = Config::new(pkgs, ulds);
    for r in &recs {
        c.uld_wts[r.uld] += pkgs[r.pkg].weight as i64;
    }
    c.resultant_data = recs;
    c
}

#[test]
fn compactor_slides_toward_low_x() {
    let pkgs = vec![pkg("a", 2, 2, 2, 1, 1, true), pkg("b", 2, 2, 2, 1, 1, true), pkg("c", 2, 2, 2, 1, 1, true)];
    let ulds = vec![uld("U", 10, 10, 10, 100)];
    let mut c = config_with(
        &pkgs,
        &ulds,
        vec![rec(0, 0, (5, 0, 0), (7, 2, 2)), rec(1, 0, (0, 0, 0), (2, 2, 2)), rec(2, 0, (6, 4, 0), (8, 6, 2))],
    );
    c.push_to_side_face_first(&pkgs, &ulds, 1);
    assert_eq!(
        c.resultant_data,
        vec![rec(1, 0, (0, 0, 0), (2, 2, 2)), rec(0, 0, (2, 0, 0), (4, 2, 2)), rec(2, 0, (0, 4, 0), (2, 6, 2))]
    );
}

#[test]
fn compactor_other_faces_change_nothing() {
    let pkgs = vec![pkg("a", 2, 2, 2, 1, 1, true)];
    let ulds = vec![uld("U", 10, 10, 10, 100)];
    let mut c = config_with(&pkgs, &ulds, vec![rec(0, 0, (5, 0, 0), (7, 2, 2))]);
    c.push_to_side_face_first(&pkgs, &ulds, 4);
    assert_eq!(c.resultant_data, vec![rec(0, 0, (5, 0, 0), (7, 2, 2))]);
}

#[test]
fn fitness_formula_single_priority_box() {
    let pkgs = vec![pkg("P1", 2, 3, 4, 5, 100, true)];
    let ulds = vec![uld("U1", 10, 10, 10, 1000)];
    let mut solver = GeneticSolver::new(pkgs, ulds, 2, 3, 1, 800_000, 1);
    let s = solver.run();
    assert_eq!(s.best.fitness_score, 100 - 10_000_000 + 5_000);
    assert_eq!(s.best.priority_packed, 1);
    assert_eq!(s.best.ulds_used_for_priority, 1);
}

#[test]
fn fitness_counts_economy_revenue() {
    let pkgs = vec![pkg("P", 10, 10, 5, 1, 1, true), pkg("E", 10, 10, 5, 1, 1000, false)];
    let ulds = vec![uld("U1", 10, 10, 10, 1000)];
    let mut c = Config::new(&pkgs, &ulds);
    c.enc_priority_ord = vec![1];
    c.enc_non_priority_ord = vec![1];
    let f = c.find_fitness(&pkgs, &ulds);
    assert_eq!(f, 1001 - 1000 - 10_000_000 + 5_000);
    assert!(c.evaluated);
    assert_eq!(c.resultant_data.len(), 2);
    assert_eq!(c.find_fitness(&pkgs, &ulds), f);
}

#[test]
fn best_fitness_never_increases() {
    let pkgs: Vec<Package> = (0..8)
        .map(|i| pkg(&format!("p{}", i), 2 + i % 3, 3, 2 + i % 2, 1, 10 * i, i % 2 == 0))
        .collect();
    let ulds = vec![uld("A", 6, 6, 6, 100), uld("B", 5, 5, 5, 100)];
    let mut solver = GeneticSolver::new(pkgs, ulds, 4, 15, 1, 800_000, 77);
    let s = solver.run();
    assert_eq!(s.history.len(), 16);
    for w in s.history.windows(2) {
        assert!(w[1] <= w[0]);
    }
    assert_eq!(*s.history.last().unwrap(), s.best.fitness_score);
}

#[test]
fn dependencies_found_by_sweeps() {
    let recs = vec![
        rec(0, 0, (0, 0, 0), (2, 2, 2)),
        rec(1, 0, (3, 0, 0), (5, 2, 2)),
        rec(2, 0, (3, 0, 2), (5, 2, 4)),
        rec(3, 1, (0, 0, 0), (2, 2, 2)),
    ];
    let m = PackageManager::new(4, 2, recs);
    assert_eq!(m.find_dependencies([3, 0, 0], [2, 2, 2], 1, 0, Axis::X), vec![0]);
    assert_eq!(m.find_dependencies([3, 0, 2], [2, 2, 2], 2, 0, Axis::Z), vec![1]);
    assert_eq!(m.find_dependencies([3, 0, 2], [2, 2, 2], 2, 0, Axis::X), Vec::<usize>::new());
    assert_eq!(m.find_dependencies([0, 0, 0], [2, 2, 2], 0, 0, Axis::X), Vec::<usize>::new());
}

#[test]
fn load_sequence_puts_supports_first() {
    let recs = vec![
        rec(2, 0, (3, 0, 2), (5, 2, 4)),
        rec(0, 0, (0, 0, 0), (2, 2, 2)),
        rec(1, 0, (3, 0, 0), (5, 2, 2)),
    ];
    let mut m = PackageManager::new(4, 1, recs);
    let order = m.get_results().unwrap();
    assert_eq!(order, vec![0, 1, 2]);
}

#[test]
fn load_order_error_is_comparable() {
    assert_eq!(LoadOrderError::Cycle, LoadOrderError::Cycle);
    let e = SolveError::LoadOrder(LoadOrderError::Cycle);
    assert_ne!(e, SolveError::InvalidInput(InputError::MissingUldId(0)));
}

#[test]
fn each_input_error_is_reported() {
    let good_u = vec![uld("U", 5, 5, 5, 5)];
    let good_p = vec![pkg("a", 1, 1, 1, 1, 1, true)];
    assert_eq!(validate_input(&good_p, &good_u), Ok(()));
    assert_eq!(
        validate_input(&vec![pkg("a", 1, -1, 1, 1, 1, true)], &good_u),
        Err(InputError::PackageDimension(0))
    );
    assert_eq!(
        validate_input(&vec![pkg("a", 1, 1, 1, -1, 1, true)], &good_u),
        Err(InputError::PackageWeightOrCost(0))
    );
    assert_eq!(
        validate_input(&vec![pkg("a", 1, 1, 1, 1, -3, true)], &good_u),
        Err(InputError::PackageWeightOrCost(0))
    );
    assert_eq!(validate_input(&good_p, &vec![uld("U", 5, 0, 5, 5)]), Err(InputError::UldDimension(0)));
    assert_eq!(validate_input(&good_p, &vec![uld("U", 5, 5, 5, -1)]), Err(InputError::UldDimension(0)));
    assert_eq!(
        validate_input(&vec![pkg("", 1, 1, 1, 1, 1, true)], &good_u),
        Err(InputError::MissingPackageId(0))
    );
    assert_eq!(validate_input(&good_p, &vec![uld("", 5, 5, 5, 5)]), Err(InputError::MissingUldId(0)));
    assert_eq!(
        validate_input(&vec![pkg("a", 1, 1, 1, 1, 1, true), pkg("a", 1, 1, 1, 1, 1, false)], &good_u),
        Err(InputError::DuplicatePackageId(1))
    );
    assert_eq!(
        validate_input(&good_p, &vec![uld("U", 5, 5, 5, 5), uld("V", 5, 5, 5, 5), uld("U", 1, 1, 1, 1)]),
        Err(InputError::DuplicateUldId(2))
    );
}

#[test]
fn empty_input_places_nothing() {
    let r = uld_packing::solution::solve(vec![], vec![uld("U", 5, 5, 5, 5)], 2, 3, 1, 800_000, 1).unwrap();
    assert!(r.rows.is_empty());
    assert!(r.loading_order.is_empty());
}

#[test]
fn package_data_holds_fields() {
    let d = PackageData { uld_id: 1, pack_id: 2, x1: 0, y1: 0, z1: 0, x2: 1, y2: 1, z2: 1 };
    assert_eq!(d.pack_id, 2);
}

#[test]
fn uld_capacity_is_its_weight() {
    assert_eq!(uld("U", 1, 1, 1, 42).capacity(), 42);
}

fn boxrow(uld_id: i32, pack_id: i32, lo: (i32, i32, i32), hi: (i32, i32, i32)) -> PackageData {
    PackageData { uld_id, pack_id, x1: lo.0, y1: lo.1, z1: lo.2, x2: hi.0, y2: hi.1, z2: hi.2 }
}

#[test]
fn cushion_counts_gaps_from_both_sides() {
    let rows = vec![
        boxrow(1, 1, (0, 0, 0), (1, 1, 1)),
        boxrow(1, 2, (3, 0, 0), (4, 1, 1)),
        boxrow(2, 3, (10, 0, 0), (11, 1, 1)),
    ];
    // Box 2 sees box 1 across its -x face at distance 2 on all 4 lattice points.
    assert_eq!(nearest_gap(&rows, &rows[1], Face::LowX, 0, 0), Some(2));
    assert_eq!(nearest_gap(&rows, &rows[1], Face::HighX, 0, 0), None);
    assert_eq!(nearest_gap(&rows, &rows[0], Face::HighX, 1, 1), Some(2));
    assert_eq!(uld_cushion(&rows, 1), Some(16));
    assert_eq!(uld_cushion(&rows, 2), Some(0));
    assert_eq!(uld_pack_volume(&rows, 1), Some(2));
    assert_eq!(uld_pack_volume(&rows, 3), Some(0));
}

#[test]
fn overlapping_records_form_a_cycle() {
    let recs = vec![rec(0, 0, (1, 0, 0), (3, 1, 1)), rec(1, 0, (1, 0, 0), (3, 1, 1))];
    let mut m = PackageManager::new(2, 1, recs);
    assert_eq!(m.get_results(), Err(LoadOrderError::Cycle));
}

#[test]
fn equal_keys_evaluate_alike() {
    let pkgs: Vec<Package> = (0..6)
        .map(|i| pkg(&format!("p{}", i), 2 + i % 3, 2, 1 + i % 2, 1, 5 * i, i % 2 == 1))
        .collect();
    let ulds = vec![uld("A", 5, 4, 3, 100), uld("B", 4, 4, 4, 100)];
    let mut a = Config::new(&pkgs, &ulds);
    let mut b = Config::new(&pkgs, &ulds);
    for c in [&mut a, &mut b] {
        c.enc_priority_ord = vec![7, 3, 5];
        c.enc_non_priority_ord = vec![2, 9, 2];
    }
    let fa = a.find_fitness(&pkgs, &ulds);
    let fb = b.find_fitness(&pkgs, &ulds);
    assert_eq!(fa, fb);
    assert_eq!(a.resultant_data, b.resultant_data);
    assert_eq!(a.priority_order, vec![3, 5, 1]);
    assert_eq!(a.non_priority_order, vec![0, 4, 2]);
}

fn small_problem() -> (Vec<Package>, Vec<ULD>) {
    let pkgs: Vec<Package> = (0..5)
        .map(|i| pkg(&format!("p{}", i), 2 + i % 2, 2, 2, 1, 10 + i, i % 2 == 0))
        .collect();
    (pkgs, vec![uld("A", 5, 5, 5, 100)])
}

fn keyed_config(solver: &GeneticSolver, p: Vec<u64>, e: Vec<u64>) -> Config {
    solver.evaluated_with(p, e)
}

#[test]
fn crossover_with_certain_inheritance_copies_the_elite() {
    let (pkgs, ulds) = small_problem();
    let mut always = GeneticSolver::new(pkgs.clone(), ulds.clone(), 3, 1, 1, 1_000_000, 5);
    let elite = keyed_config(&always, vec![1, 2, 3], vec![4, 5]);
    let other = keyed_config(&always, vec![9, 8, 7], vec![6, 0]);
    let child = always.crossover(&elite, &other);
    assert_eq!(child.enc_priority_ord, vec![1, 2, 3]);
    assert_eq!(child.enc_non_priority_ord, vec![4, 5]);
    let mut never = GeneticSolver::new(pkgs, ulds, 3, 1, 1, 0, 5);
    let child = never.crossover(&elite, &other);
    assert_eq!(child.enc_priority_ord, vec![9, 8, 7]);
    assert_eq!(child.enc_non_priority_ord, vec![6, 0]);
}

#[test]
fn inherit_keys_follows_the_coins() {
    let r = uld_packing::genetic::inherit_keys(&vec![1, 2, 3], &vec![7, 8, 9], &vec![true, false, true]);
    assert_eq!(r, vec![1, 8, 3]);
}

#[test]
fn generation_from_given_draws() {
    let (pkgs, ulds) = small_problem();
    let solver = GeneticSolver::new(pkgs, ulds, 4, 1, 1, 800_000, 5);
    let mut pop = vec![
        keyed_config(&solver, vec![1, 2, 3], vec![4, 5]),
        keyed_config(&solver, vec![3, 2, 1], vec![5, 4]),
        keyed_config(&solver, vec![2, 3, 1], vec![4, 4]),
        keyed_config(&solver, vec![1, 1, 1], vec![2, 2]),
    ];
    pop = solver.sort_population(pop);
    let best = pop[0].fitness_score;
    let elite_keys = (pop[0].enc_priority_ord.clone(), pop[0].enc_non_priority_ord.clone());
    let other_keys = (pop[2].enc_priority_ord.clone(), pop[2].enc_non_priority_ord.clone());
    let next = solver.assemble_generation(
        &pop,
        0,
        2,
        &vec![true, false, true],
        &vec![false, true],
        &vec![vec![5, 6, 7], vec![7, 6, 5]],
        &vec![vec![1, 2], vec![2, 1]],
    );
    assert_eq!(next.len(), 4);
    assert!(next[0].fitness_score <= best);
    assert!(next.windows(2).all(|w| w[0].fitness_score <= w[1].fitness_score));
    assert!(next.iter().any(|c| c.enc_priority_ord == elite_keys.0 && c.enc_non_priority_ord == elite_keys.1));
    let child_p = vec![elite_keys.0[0], other_keys.0[1], elite_keys.0[2]];
    let child_e = vec![other_keys.1[0], elite_keys.1[1]];
    assert!(next.iter().any(|c| c.enc_priority_ord == child_p && c.enc_non_priority_ord == child_e));
    assert!(next.iter().any(|c| c.enc_priority_ord == vec![5, 6, 7] && c.enc_non_priority_ord == vec![1, 2]));
    assert!(next.iter().any(|c| c.enc_priority_ord == vec![7, 6, 5] && c.enc_non_priority_ord == vec![2, 1]));
}

#[test]
fn run_returns_the_best_of_the_last_population() {
    let (pkgs, ulds) = small_problem();
    let mut solver = GeneticSolver::new(pkgs, ulds, 4, 5, 1, 800_000, 21);
    let s = solver.run();
    assert_eq!(s.population.len(), 4);
    assert!(s.population.iter().all(|c| s.best.fitness_score <= c.fitness_score));
    assert_eq!(s.best.priority_order.len(), 3);
}
