use uld_packing::model::{Package, PlacementRecord, ULD};
use uld_packing::solution::{generate_solution, solve, PackingResult, SolutionRow};

fn pkg(id: &str, l: i32, w: i32, h: i32, weight: i32, cost: i32, priority: bool) -> Package {
    Package { id: id.to_string(), length: l, width: w, height: h, weight, cost, priority }
}

fn uld(id: &str, l: i32, w: i32, h: i32, cap: i32) -> ULD {
    ULD { id: id.to_string(), length: l, width: w, height: h, weight: cap }
}

fn run_small(pkgs: Vec<Package>, ulds: Vec<ULD>, seed: u64) -> PackingResult {
    match solve(pkgs, ulds, 4, 20, 1, 800_000, seed) {
        Ok(r) => r,
        Err(e) => panic!("solver failed: {:?}", e),
    }
}

fn row_for<'a>(res: &'a PackingResult, id: &str) -> Option<&'a SolutionRow> {
    res.rows.iter().find(|r| r.pack_id == id)
}

#[test]
fn single_uld_single_box() {
    let res = generate_solution(
        vec![pkg("P1", 2, 3, 4, 5, 100, true)],
        vec![uld("U1", 10, 10, 10, 1000)],
        7,
    )
    .unwrap();
    assert_eq!(res.rows.len(), 1);
    let r = &res.rows[0];
    assert_eq!(r.pack_id, "P1");
    assert_eq!(r.uld_id, "U1");
    assert_eq!((r.x1, r.y1, r.z1, r.x2, r.y2, r.z2), (0, 0, 0, 2, 3, 4));
    assert_eq!(res.loading_order, vec!["P1".to_string()]);
}

#[test]
fn overflow_places_one() {
    let res = run_small(
        vec![pkg("A", 4, 4, 4, 1, 100, true), pkg("B", 4, 4, 4, 1, 100, true)],
        vec![uld("U1", 5, 5, 5, 1000)],
        1,
    );
    assert_eq!(res.rows.len(), 1);
    assert_eq!(res.loading_order.len(), 1);
}

#[test]
fn weight_cap_places_one() {
    let res = run_small(
        vec![pkg("A", 2, 2, 2, 6, 100, true), pkg("B", 2, 2, 2, 6, 100, true)],
        vec![uld("U1", 10, 10, 10, 10)],
        2,
    );
    assert_eq!(res.rows.len(), 1);
}

#[test]
fn stacking_and_loading_order() {
    let res = run_small(
        vec![pkg("BOTTOM", 10, 10, 2, 1, 100, true), pkg("TOP", 10, 10, 2, 1, 100, true)],
        vec![uld("U1", 10, 10, 10, 1000)],
        3,
    );
    assert_eq!(res.rows.len(), 2);
    let mut zs: Vec<(i32, i32, String)> =
        res.rows.iter().map(|r| (r.z1, r.z2, r.pack_id.clone())).collect();
    zs.sort();
    assert_eq!((zs[0].0, zs[0].1), (0, 2));
    assert_eq!((zs[1].0, zs[1].1), (2, 4));
    let lower = zs[0].2.clone();
    let upper = zs[1].2.clone();
    assert_eq!(res.loading_order, vec![lower, upper]);
}

#[test]
fn priority_consolidation() {
    let res = run_small(
        (0..4).map(|i| pkg(&format!("P{}", i), 5, 5, 5, 1, 100, true)).collect(),
        vec![uld("U1", 10, 10, 10, 100), uld("U2", 10, 10, 10, 100)],
        4,
    );
    assert_eq!(res.rows.len(), 4);
    let first = res.rows[0].uld_id.clone();
    assert!(res.rows.iter().all(|r| r.uld_id == first));
}

#[test]
fn economy_revenue_both_placed() {
    let res = run_small(
        vec![pkg("PRIO", 10, 10, 5, 1, 1, true), pkg("ECON", 10, 10, 5, 1, 1000, false)],
        vec![uld("U1", 10, 10, 10, 1000)],
        5,
    );
    assert_eq!(res.rows.len(), 2);
    assert!(row_for(&res, "PRIO").is_some());
    assert!(row_for(&res, "ECON").is_some());
}

#[test]
fn fixed_seed_gives_identical_placement() {
    let make = || {
        (
            vec![
                pkg("a", 3, 4, 5, 2, 10, true),
                pkg("b", 6, 2, 2, 3, 50, false),
                pkg("c", 4, 4, 4, 1, 70, false),
                pkg("d", 2, 7, 3, 4, 20, true),
                pkg("e", 5, 5, 2, 2, 90, false),
            ],
            vec![uld("U1", 8, 8, 8, 100), uld("U2", 6, 6, 6, 100)],
        )
    };
    let (p1, u1) = make();
    let (p2, u2) = make();
    let a = run_small(p1, u1, 42);
    let b = run_small(p2, u2, 42);
    assert_eq!(a.rows, b.rows);
    assert_eq!(a.loading_order, b.loading_order);
}

fn mixed_input() -> (Vec<Package>, Vec<ULD>) {
    let mut pkgs = Vec::new();
    for i in 0..12 {
        let l = 2 + (i * 3) % 5;
        let w = 2 + (i * 7) % 4;
        let h = 1 + (i * 5) % 6;
        pkgs.push(pkg(&format!("p{}", i), l, w, h, 1 + i % 4, 10 * (i + 1), i % 3 == 0));
    }
    (pkgs, vec![uld("A", 8, 7, 6, 12), uld("B", 9, 5, 5, 15)])
}

fn intersects(a: &PlacementRecord, b: &PlacementRecord) -> bool {
    a.x1.max(b.x1) < a.x2.min(b.x2) && a.y1.max(b.y1) < a.y2.min(b.y2) && a.z1.max(b.z1) < a.z2.min(b.z2)
}

#[test]
fn placement_invariants_hold_on_mixed_input() {
    let (pkgs, ulds) = mixed_input();
    let res = run_small(pkgs.clone(), ulds.clone(), 11);
    assert!(!res.records.is_empty());
    for (i, a) in res.records.iter().enumerate() {
        for (j, b) in res.records.iter().enumerate() {
            if i != j {
                assert_ne!(a.pkg, b.pkg);
                if a.uld == b.uld {
                    assert!(!intersects(a, b));
                }
            }
        }
        let u = &ulds[a.uld];
        assert!(0 <= a.x1 && a.x1 < a.x2 && a.x2 <= u.length);
        assert!(0 <= a.y1 && a.y1 < a.y2 && a.y2 <= u.width);
        assert!(0 <= a.z1 && a.z1 < a.z2 && a.z2 <= u.height);
        let p = &pkgs[a.pkg];
        let mut want = vec![p.length, p.width, p.height];
        let mut got = vec![a.x2 - a.x1, a.y2 - a.y1, a.z2 - a.z1];
        want.sort();
        got.sort();
        assert_eq!(want, got);
    }
    for (k, u) in ulds.iter().enumerate() {
        let load: i32 = res.records.iter().filter(|r| r.uld == k).map(|r| pkgs[r.pkg].weight).sum();
        assert!(load <= u.weight);
    }
    assert_eq!(res.order.len(), res.records.len());
}

#[test]
fn loading_order_respects_support_on_mixed_input() {
    let (pkgs, ulds) = mixed_input();
    let res = run_small(pkgs, ulds, 12);
    let pos = |p: usize| res.order.iter().position(|&q| q == p).unwrap();
    for a in &res.records {
        for b in &res.records {
            if a.pkg == b.pkg || a.uld != b.uld {
                continue;
            }
            let overlap_y = a.y1.max(b.y1) < a.y2.min(b.y2);
            let overlap_z = a.z1.max(b.z1) < a.z2.min(b.z2);
            let overlap_x = a.x1.max(b.x1) < a.x2.min(b.x2);
            let behind_x = b.x2 <= a.x1 && overlap_y && overlap_z;
            let below_z = b.z2 <= a.z1 && overlap_x && overlap_y;
            if behind_x || below_z {
                assert!(pos(b.pkg) < pos(a.pkg));
            }
        }
    }
}

#[test]
fn invalid_input_is_refused() {
    let r = generate_solution(vec![pkg("a", 0, 1, 1, 1, 1, true)], vec![uld("U", 5, 5, 5, 5)], 1);
    assert!(r.is_err());
}
