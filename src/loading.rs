//! The loading-order graph: which boxes a box rests on or abuts from behind,
//! and a load sequence in which each box comes after all of them.
use vstd::prelude::*;

use crate::geometry::{cuboids_intersect, triple};
use crate::model::{at_most_once, PlacementRecord};
use crate::ordering::{sort_indices, sort_spec, stably_sorted};

verus! {

/// The two sweep directions: toward −x and toward −z.
#[derive(Clone, Copy, Debug, PartialEq, Eq, Structural)]
pub enum Axis {
    X,
    Z,
}

/// The box of size `d` whose minimum corner is `c` with its coordinate on
/// `axis` set to `pos`.
pub open spec fn swept_lo(c: (int, int, int), axis: Axis, pos: int) -> (int, int, int) {
    if axis == Axis::X {
        (pos, c.1, c.2)
    } else {
        (c.0, c.1, pos)
    }
}

pub open spec fn axis_start(c: (int, int, int), axis: Axis) -> int {
    if axis == Axis::X {
        c.0
    } else {
        c.2
    }
}

/// The box of size `d` moved along `axis` to `pos` meets record `j` of ULD
/// `uid`, which holds a package other than `pid`.
pub open spec fn sweep_hits(
    sol: Seq<PlacementRecord>,
    pid: int,
    uid: int,
    c: (int, int, int),
    d: (int, int, int),
    axis: Axis,
    pos: int,
    j: int,
) -> bool {
    let lo = swept_lo(c, axis, pos);
    &&& 0 <= j < sol.len()
    &&& sol[j].uld == uid
    &&& sol[j].pkg != pid
    &&& cuboids_intersect(lo, (lo.0 + d.0, lo.1 + d.1, lo.2 + d.2), sol[j].lo(), sol[j].hi())
}

/// Package `q` is met when the box sweeps along `axis` over the positions
/// `lo..hi`.
pub open spec fn swept_between(
    sol: Seq<PlacementRecord>,
    pid: int,
    uid: int,
    c: (int, int, int),
    d: (int, int, int),
    axis: Axis,
    lo: int,
    hi: int,
    q: int,
) -> bool {
    exists|pos: int, j: int|
        lo <= pos < hi && #[trigger] sweep_hits(sol, pid, uid, c, d, axis, pos, j) && sol[j].pkg
            == q
}

/// Package `q` lies behind the box of package `pid` at `c` along `axis`:
/// sliding the box from `c` toward 0 along that axis runs into it.
pub open spec fn swept(
    sol: Seq<PlacementRecord>,
    pid: int,
    uid: int,
    c: (int, int, int),
    d: (int, int, int),
    axis: Axis,
    q: int,
) -> bool {
    swept_between(sol, pid, uid, c, d, axis, 0, axis_start(c, axis), q)
}

/// Record `i`'s package depends on package `q`: `q` must be loaded first.
pub open spec fn depends_on(sol: Seq<PlacementRecord>, i: int, q: int) -> bool {
    let r = sol[i];
    ||| swept(sol, r.pkg as int, r.uld as int, r.lo(), r.size(), Axis::X, q)
    ||| swept(sol, r.pkg as int, r.uld as int, r.lo(), r.size(), Axis::Z, q)
}

/// `f` is the index, below `n`, of the record of package `p` among the
/// first `n` records, or `None` if none of them holds `p`.
pub open spec fn pack_index_ok(sol: Seq<PlacementRecord>, f: Option<usize>, p: int, n: int) -> bool {
    match f {
        Some(i) => i < n && sol[i as int].pkg == p,
        None => forall|i: int| 0 <= i < n ==> #[trigger] sol[i].pkg != p,
    }
}

fn contains_usize(v: &Vec<usize>, x: usize) -> (r: bool)
    ensures
        r == v@.contains(x),
{
    let n = v.len();
    for k in 0..n
        invariant
            n == v@.len(),
            forall|j: int| 0 <= j < k ==> #[trigger] v@[j] != x,
    {
        if v[k] == x {
            return true;
        }
    }
    false
}

/// The dependency graph of a placement and the load sequence built from it.
pub struct PackageManager {
    pub num_of_total_pkgs: usize,
    pub num_of_ulds: usize,
    pub sol: Vec<PlacementRecord>,
    pub adj_lis: Vec<Vec<usize>>,
    pub find_pack: Vec<Option<usize>>,
    pub in_deg: Vec<usize>,
    pub visited: Vec<bool>,
    pub done: Vec<bool>,
    pub final_order: Vec<usize>,
}

impl PackageManager {
    /// The records are for packages below `num_of_total_pkgs` and ULDs below
    /// `num_of_ulds`, with no package twice, and boxes of positive extent at
    /// coordinates not negative.
    pub open spec fn records_ok(&self) -> bool {
        &&& at_most_once(self.sol@)
        &&& forall|i: int|
            0 <= i < self.sol@.len() ==> {
                let r = #[trigger] self.sol@[i];
                &&& r.pkg < self.num_of_total_pkgs
                &&& r.uld < self.num_of_ulds
                &&& 0 <= r.x1 < r.x2
                &&& 0 <= r.y1 < r.y2
                &&& 0 <= r.z1 < r.z2
            }
    }

    /// `find_pack[p]` is the index of the record of package `p`, if any.
    pub open spec fn index_ok(&self) -> bool {
        &&& self.find_pack@.len() == self.num_of_total_pkgs
        &&& forall|p: int|
            0 <= p < self.num_of_total_pkgs ==> pack_index_ok(
                self.sol@,
                #[trigger] self.find_pack@[p],
                p,
                self.sol@.len() as int,
            )
    }

    /// A manager for the placement `sol` of `num_of_total_pkgs` packages in
    /// `num_of_ulds` ULDs, with no graph built yet.
    pub fn new(num_of_total_pkgs: usize, num_of_ulds: usize, sol: Vec<PlacementRecord>) -> (r:
        Self)
        ensures
            r.num_of_total_pkgs == num_of_total_pkgs,
            r.num_of_ulds == num_of_ulds,
            r.sol@ == sol@,
            r.adj_lis@.len() == num_of_total_pkgs,
            forall|p: int| 0 <= p < num_of_total_pkgs ==> (#[trigger] r.adj_lis@[p])@.len() == 0,
            r.final_order@.len() == 0,
            r.visited@ == Seq::new(num_of_total_pkgs as nat, |p: int| false),
            r.done@ == Seq::new(num_of_total_pkgs as nat, |p: int| false),
            r.find_pack@ == Seq::new(num_of_total_pkgs as nat, |p: int| None::<usize>),
            r.in_deg@ == Seq::new(num_of_total_pkgs as nat, |p: int| 0usize),
    {
        let mut adj_lis: Vec<Vec<usize>> = Vec::new();
        let mut visited: Vec<bool> = Vec::new();
        let mut done: Vec<bool> = Vec::new();
        let mut find_pack: Vec<Option<usize>> = Vec::new();
        let mut in_deg: Vec<usize> = Vec::new();
        for p in 0..num_of_total_pkgs
            invariant
                adj_lis@.len() == p,
                forall|q: int| 0 <= q < p ==> (#[trigger] adj_lis@[q])@.len() == 0,
                visited@ == Seq::new(p as nat, |q: int| false),
                done@ == Seq::new(p as nat, |q: int| false),
                find_pack@ == Seq::new(p as nat, |q: int| None::<usize>),
                in_deg@ == Seq::new(p as nat, |q: int| 0usize),
        {
            adj_lis.push(Vec::new());
            visited.push(false);
            done.push(false);
            find_pack.push(None);
            in_deg.push(0);
            assert(visited@ =~= Seq::new((p + 1) as nat, |q: int| false));
            assert(done@ =~= Seq::new((p + 1) as nat, |q: int| false));
            assert(find_pack@ =~= Seq::new((p + 1) as nat, |q: int| None::<usize>));
            assert(in_deg@ =~= Seq::new((p + 1) as nat, |q: int| 0usize));
        }
        PackageManager {
            num_of_total_pkgs,
            num_of_ulds,
            sol,
            adj_lis,
            find_pack,
            in_deg,
            visited,
            done,
            final_order: Vec::new(),
        }
    }

    /// Indexes the records by package.
    pub fn group_packages_by_uld(&mut self)
        requires
            old(self).records_ok(),
            old(self).find_pack@ == Seq::new(
                old(self).num_of_total_pkgs as nat,
                |p: int| None::<usize>,
            ),
        ensures
            final(self).index_ok(),
            final(self).records_ok(),
            final(self).sol == old(self).sol,
            final(self).num_of_total_pkgs == old(self).num_of_total_pkgs,
            final(self).num_of_ulds == old(self).num_of_ulds,
            final(self).adj_lis == old(self).adj_lis,
            final(self).in_deg == old(self).in_deg,
            final(self).visited == old(self).visited,
            final(self).done == old(self).done,
            final(self).final_order == old(self).final_order,
    {
        let n = self.sol.len();
        let ghost sol = self.sol@;
        let np = self.num_of_total_pkgs;
        let mut fp: Vec<Option<usize>> = self.find_pack.clone();
        assert(fp@ =~= Seq::new(np as nat, |p: int| None::<usize>));
        proof {
            assert forall|p: int| 0 <= p < np implies pack_index_ok(sol, #[trigger] fp@[p], p, 0) by {
                assert(fp@[p] is None);
            }
        }
        for k in 0..n
            invariant
                n == sol.len(),
                sol == self.sol@,
                self.records_ok(),
                np == self.num_of_total_pkgs,
                fp@.len() == np,
                forall|p: int| 0 <= p < np ==> pack_index_ok(sol, #[trigger] fp@[p], p, k as int),
        {
            let e = self.sol[k];
            proof {
                assert(sol[k as int].pkg < np);
            }
            let ghost before = fp@;
            fp.set(e.pkg, Some(k));
            proof {
                assert forall|p: int| 0 <= p < np implies pack_index_ok(
                    sol,
                    #[trigger] fp@[p],
                    p,
                    k + 1,
                ) by {
                    if p != e.pkg {
                        assert(fp@[p] == before[p]);
                        assert(pack_index_ok(sol, before[p], p, k as int));
                        assert(sol[k as int].pkg != p);
                    }
                }
            }
        }
        self.find_pack = fp;
    }

    /// Whether the open interiors of two cuboids meet: on no axis does one
    /// end at or before the other begins.
    pub fn check_intersection_cuboids(
        &self,
        cuboid1_min: [i32; 3],
        cuboid1_max: [i32; 3],
        cuboid2_min: [i32; 3],
        cuboid2_max: [i32; 3],
    ) -> (r: bool)
        requires
            forall|k: int| 0 <= k < 3 ==> cuboid1_min[k] < cuboid1_max[k] && cuboid2_min[k] < cuboid2_max[k],
        ensures
            r == cuboids_intersect(
                triple(cuboid1_min),
                triple(cuboid1_max),
                triple(cuboid2_min),
                triple(cuboid2_max),
            ),
    {
        for i in 0..3usize
            invariant
                forall|k: int|
                    0 <= k < i ==> !(cuboid1_max[k] <= cuboid2_min[k] || cuboid2_max[k] <= cuboid1_min[k]),
        {
            if cuboid1_max[i] <= cuboid2_min[i] || cuboid2_max[i] <= cuboid1_min[i] {
                return false;
            }
        }
        true
    }

    /// The packages that the box of package `pid` at `cord` with size `dims`
    /// in ULD `uid` runs into when swept toward 0 along `axis`, one grid step
    /// at a time; each listed once.
    pub fn find_dependencies(
        &self,
        cord: [i32; 3],
        dims: [i32; 3],
        pid: usize,
        uid: usize,
        axis: Axis,
    ) -> (r: Vec<usize>)
        requires
            self.records_ok(),
            cord[0] >= 0 && cord[1] >= 0 && cord[2] >= 0,
            dims[0] > 0 && dims[1] > 0 && dims[2] > 0,
            cord[0] + dims[0] <= i32::MAX,
            cord[1] + dims[1] <= i32::MAX,
            cord[2] + dims[2] <= i32::MAX,
        ensures
            forall|q: usize|
                #[trigger] r@.contains(q) <==> swept(
                    self.sol@,
                    pid as int,
                    uid as int,
                    triple(cord),
                    triple(dims),
                    axis,
                    q as int,
                ),
            forall|a: int, b: int| 0 <= a < b < r@.len() ==> #[trigger] r@[a] != #[trigger] r@[b],
    {
        let ghost sol = self.sol@;
        let ghost c = triple(cord);
        let ghost d = triple(dims);
        let start = if axis == Axis::X {
            cord[0]
        } else {
            cord[2]
        };
        let n = self.sol.len();
        let mut pos = start;
        let mut deps: Vec<usize> = Vec::new();
        while pos > 0
            invariant
                sol == self.sol@,
                n == sol.len(),
                c == triple(cord),
                d == triple(dims),
                start == axis_start(c, axis),
                0 <= pos <= start,
                self.records_ok(),
                cord[0] >= 0 && cord[1] >= 0 && cord[2] >= 0,
                dims[0] > 0 && dims[1] > 0 && dims[2] > 0,
                cord[0] + dims[0] <= i32::MAX,
                cord[1] + dims[1] <= i32::MAX,
                cord[2] + dims[2] <= i32::MAX,
                forall|q: usize|
                    #[trigger] deps@.contains(q) <==> swept_between(
                        sol,
                        pid as int,
                        uid as int,
                        c,
                        d,
                        axis,
                        pos as int,
                        start as int,
                        q as int,
                    ),
                forall|a: int, b: int|
                    0 <= a < b < deps@.len() ==> #[trigger] deps@[a] != #[trigger] deps@[b],
            decreases pos,
        {
            pos = pos - 1;
            let lo = if axis == Axis::X {
                [pos, cord[1], cord[2]]
            } else {
                [cord[0], cord[1], pos]
            };
            let hi = [lo[0] + dims[0], lo[1] + dims[1], lo[2] + dims[2]];
            assert(triple(lo) == swept_lo(c, axis, pos as int));
            for j in 0..n
                invariant
                    sol == self.sol@,
                    n == sol.len(),
                    triple(lo) == swept_lo(c, axis, pos as int),
                    triple(hi) == (lo[0] + d.0, lo[1] + d.1, lo[2] + d.2),
                    self.records_ok(),
                    d.0 > 0 && d.1 > 0 && d.2 > 0,
                    forall|q: usize|
                        #[trigger] deps@.contains(q) <==> (swept_between(
                            sol,
                            pid as int,
                            uid as int,
                            c,
                            d,
                            axis,
                            pos + 1,
                            start as int,
                            q as int,
                        ) || hit_before(sol, pid as int, uid as int, c, d, axis, pos as int, j as int, q as int)),
                    forall|a: int, b: int|
                        0 <= a < b < deps@.len() ==> #[trigger] deps@[a] != #[trigger] deps@[b],
            {
                let e = self.sol[j];
                proof {
                    assert(self.sol@[j as int] == e);
                }
                let hit = e.uld == uid && e.pkg != pid && self.check_intersection_cuboids(
                    lo,
                    hi,
                    [e.x1, e.y1, e.z1],
                    [e.x2, e.y2, e.z2],
                );
                assert(hit == sweep_hits(sol, pid as int, uid as int, c, d, axis, pos as int, j as int));
                let ghost before = deps@;
                if hit && !contains_usize(&deps, e.pkg) {
                    deps.push(e.pkg);
                }
                proof {
                    assert forall|q: usize| #[trigger] deps@.contains(q) <==> (swept_between(
                        sol,
                        pid as int,
                        uid as int,
                        c,
                        d,
                        axis,
                        pos + 1,
                        start as int,
                        q as int,
                    ) || hit_before(sol, pid as int, uid as int, c, d, axis, pos as int, j + 1, q as int)) by {
                        lemma_hit_before_step(sol, pid as int, uid as int, c, d, axis, pos as int, j as int, q as int);
                        assert(before.contains(q) <==> (swept_between(
                            sol,
                            pid as int,
                            uid as int,
                            c,
                            d,
                            axis,
                            pos + 1,
                            start as int,
                            q as int,
                        ) || hit_before(sol, pid as int, uid as int, c, d, axis, pos as int, j as int, q as int)));
                        if deps@.len() > before.len() {
                            assert(deps@ == before.push(e.pkg));
                            if deps@.contains(q) && q != e.pkg {
                                let t = choose|t: int| 0 <= t < deps@.len() && deps@[t] == q;
                                assert(before[t] == q);
                            }
                            if before.contains(q) {
                                let t = choose|t: int| 0 <= t < before.len() && before[t] == q;
                                assert(deps@[t] == q);
                            }
                            if q == e.pkg {
                                assert(deps@[before.len() as int] == q);
                            }
                        } else {
                            assert(deps@ == before);
                        }
                    }
                    assert forall|a: int, b: int|
                        0 <= a < b < deps@.len() implies #[trigger] deps@[a] != #[trigger] deps@[b] by {
                        if b == before.len() {
                            assert(deps@[a] == before[a]);
                        }
                    }
                }
            }
            proof {
                assert forall|q: usize| #[trigger] deps@.contains(q) <==> swept_between(
                    sol,
                    pid as int,
                    uid as int,
                    c,
                    d,
                    axis,
                    pos as int,
                    start as int,
                    q as int,
                ) by {
                    lemma_swept_between_step(sol, pid as int, uid as int, c, d, axis, pos as int, start as int, q as int);
                }
            }
        }
        deps
    }
}

/// Package `q` is met at position `pos` by one of the records `0..j`.
spec fn hit_before(
    sol: Seq<PlacementRecord>,
    pid: int,
    uid: int,
    c: (int, int, int),
    d: (int, int, int),
    axis: Axis,
    pos: int,
    j: int,
    q: int,
) -> bool {
    exists|jj: int| 0 <= jj < j && #[trigger] sweep_hits(sol, pid, uid, c, d, axis, pos, jj) && sol[jj].pkg == q
}

proof fn lemma_hit_before_step(
    sol: Seq<PlacementRecord>,
    pid: int,
    uid: int,
    c: (int, int, int),
    d: (int, int, int),
    axis: Axis,
    pos: int,
    j: int,
    q: int,
)
    requires
        0 <= j,
    ensures
        hit_before(sol, pid, uid, c, d, axis, pos, j + 1, q) == (hit_before(
            sol,
            pid,
            uid,
            c,
            d,
            axis,
            pos,
            j,
            q,
        ) || (sweep_hits(sol, pid, uid, c, d, axis, pos, j) && sol[j].pkg == q)),
{
    if hit_before(sol, pid, uid, c, d, axis, pos, j + 1, q) {
        let jj = choose|jj: int|
            0 <= jj < j + 1 && #[trigger] sweep_hits(sol, pid, uid, c, d, axis, pos, jj) && sol[jj].pkg == q;
        if jj < j {
            assert(hit_before(sol, pid, uid, c, d, axis, pos, j, q));
        }
    }
    if hit_before(sol, pid, uid, c, d, axis, pos, j, q) {
        let jj = choose|jj: int|
            0 <= jj < j && #[trigger] sweep_hits(sol, pid, uid, c, d, axis, pos, jj) && sol[jj].pkg == q;
        assert(hit_before(sol, pid, uid, c, d, axis, pos, j + 1, q));
    }
    if sweep_hits(sol, pid, uid, c, d, axis, pos, j) && sol[j].pkg == q {
        assert(hit_before(sol, pid, uid, c, d, axis, pos, j + 1, q));
    }
}

proof fn lemma_swept_between_step(
    sol: Seq<PlacementRecord>,
    pid: int,
    uid: int,
    c: (int, int, int),
    d: (int, int, int),
    axis: Axis,
    pos: int,
    start: int,
    q: int,
)
    requires
        0 <= pos < start,
    ensures
        swept_between(sol, pid, uid, c, d, axis, pos, start, q) == (swept_between(
            sol,
            pid,
            uid,
            c,
            d,
            axis,
            pos + 1,
            start,
            q,
        ) || hit_before(sol, pid, uid, c, d, axis, pos, sol.len() as int, q)),
{
    if swept_between(sol, pid, uid, c, d, axis, pos, start, q) {
        let (pp, jj) = choose|pp: int, jj: int|
            pos <= pp < start && #[trigger] sweep_hits(sol, pid, uid, c, d, axis, pp, jj) && sol[jj].pkg == q;
        if pp > pos {
            assert(swept_between(sol, pid, uid, c, d, axis, pos + 1, start, q));
        } else {
            assert(hit_before(sol, pid, uid, c, d, axis, pos, sol.len() as int, q));
        }
    }
    if swept_between(sol, pid, uid, c, d, axis, pos + 1, start, q) {
        let (pp, jj) = choose|pp: int, jj: int|
            pos + 1 <= pp < start && #[trigger] sweep_hits(sol, pid, uid, c, d, axis, pp, jj) && sol[jj].pkg == q;
        assert(swept_between(sol, pid, uid, c, d, axis, pos, start, q));
    }
    if hit_before(sol, pid, uid, c, d, axis, pos, sol.len() as int, q) {
        let jj = choose|jj: int|
            0 <= jj < sol.len() && #[trigger] sweep_hits(sol, pid, uid, c, d, axis, pos, jj) && sol[jj].pkg == q;
        assert(swept_between(sol, pid, uid, c, d, axis, pos, start, q));
    }
}


pub open spec fn distinct(v: Seq<usize>) -> bool {
    forall|a: int, b: int| 0 <= a < b < v.len() ==> #[trigger] v[a] != #[trigger] v[b]
}

/// The entries of `a`, then those of `b` that `a` lacks.
fn union(a: &Vec<usize>, b: &Vec<usize>) -> (r: Vec<usize>)
    requires
        distinct(a@),
        distinct(b@),
    ensures
        distinct(r@),
        forall|q: usize| #[trigger] r@.contains(q) <==> a@.contains(q) || b@.contains(q),
{
    let mut r = a.clone();
    assert(r@ =~= a@);
    let n = b.len();
    for k in 0..n
        invariant
            n == b@.len(),
            distinct(r@),
            forall|q: usize|
                #[trigger] r@.contains(q) <==> a@.contains(q) || b@.subrange(0, k as int).contains(q),
    {
        let x = b[k];
        let ghost before = r@;
        if !contains_usize(&r, x) {
            r.push(x);
        }
        proof {
            assert forall|q: usize| #[trigger] r@.contains(q) <==> a@.contains(q) || b@.subrange(
                0,
                k + 1,
            ).contains(q) by {
                let s0 = b@.subrange(0, k as int);
                let s1 = b@.subrange(0, k + 1);
                assert(s1 =~= s0.push(x));
                if s1.contains(q) && q != x {
                    let t = choose|t: int| 0 <= t < s1.len() && s1[t] == q;
                    assert(s0[t] == q);
                }
                if s0.contains(q) {
                    let t = choose|t: int| 0 <= t < s0.len() && s0[t] == q;
                    assert(s1[t] == q);
                }
                if q == x {
                    assert(s1[k as int] == q);
                }
                if r@.len() > before.len() {
                    assert(r@ == before.push(x));
                    if r@.contains(q) && q != x {
                        let t = choose|t: int| 0 <= t < r@.len() && r@[t] == q;
                        assert(before[t] == q);
                    }
                    if before.contains(q) {
                        let t = choose|t: int| 0 <= t < before.len() && before[t] == q;
                        assert(r@[t] == q);
                    }
                    if q == x {
                        assert(r@[before.len() as int] == q);
                    }
                }
            }
            assert forall|i: int, j: int| 0 <= i < j < r@.len() implies #[trigger] r@[i] != #[trigger] r@[j] by {
                if j == before.len() {
                    assert(r@[i] == before[i]);
                }
            }
        }
    }
    assert(b@.subrange(0, n as int) =~= b@);
    r
}

/// The entries of `v` in ascending order.
fn sorted_values(v: &Vec<usize>) -> (r: Vec<usize>)
    requires
        distinct(v@),
    ensures
        r@.len() == v@.len(),
        forall|q: usize| #[trigger] r@.contains(q) <==> v@.contains(q),
        forall|a: int, b: int| 0 <= a < b < r@.len() ==> #[trigger] r@[a] < #[trigger] r@[b],
{
    let n = v.len();
    let mut keys: Vec<(i128, i128, i128)> = Vec::new();
    for k in 0..n
        invariant
            n == v@.len(),
            keys@.len() == k,
            forall|j: int| 0 <= j < k ==> #[trigger] keys@[j] == (v@[j] as i128, 0i128, 0i128),
    {
        keys.push((v[k] as i128, 0, 0));
    }
    let order = sort_indices(&keys);
    let mut r: Vec<usize> = Vec::new();
    for k in 0..n
        invariant
            n == v@.len(),
            keys@.len() == n,
            stably_sorted(keys@, order@),
            r@.len() == k,
            forall|j: int| 0 <= j < k ==> #[trigger] r@[j] == v@[order@[j] as int],
    {
        r.push(v[order[k]]);
    }
    proof {
        assert forall|a: int, b: int| 0 <= a < b < r@.len() implies #[trigger] r@[a] < #[trigger] r@[b] by {
            assert(crate::ordering::index_before(keys@, order@[a] as int, order@[b] as int));
            assert(keys@[order@[a] as int] == (v@[order@[a] as int] as i128, 0i128, 0i128));
            assert(keys@[order@[b] as int] == (v@[order@[b] as int] as i128, 0i128, 0i128));
            if order@[a] < order@[b] {
                assert(v@[order@[a] as int] != v@[order@[b] as int]);
            } else {
                assert(v@[order@[b] as int] != v@[order@[a] as int]);
            }
        }
        assert forall|q: usize| #[trigger] r@.contains(q) <==> v@.contains(q) by {
            if r@.contains(q) {
                let t = choose|t: int| 0 <= t < r@.len() && r@[t] == q;
                assert(v@[order@[t] as int] == q);
            }
            if v@.contains(q) {
                let j = choose|j: int| 0 <= j < v@.len() && v@[j] == q;
                assert(order@.contains(j as usize));
                let t = choose|t: int| 0 <= t < order@.len() && order@[t] == j as usize;
                assert(r@[t] == q);
            }
        }
    }
    r
}

impl PackageManager {
    /// The dependency list of each placed package holds exactly the
    /// packages it depends on, in ascending order.
    pub open spec fn adj_exact(&self) -> bool {
        &&& forall|i: int, q: usize|
            0 <= i < self.sol@.len() ==> (#[trigger] self.adj_lis@[self.sol@[i].pkg as int]@.contains(q)
                <==> #[trigger] depends_on(self.sol@, i, q as int))
        &&& forall|p: int|
            0 <= p < self.num_of_total_pkgs && self.find_pack@[p] is None ==> (
            #[trigger] self.adj_lis@[p])@.len() == 0
    }

    /// `v` is ascending and names placed packages only.
    pub open spec fn deps_list_ok(&self, v: Seq<usize>) -> bool {
        &&& forall|k: int|
            0 <= k < v.len() ==> #[trigger] v[k] < self.num_of_total_pkgs && self.find_pack@[v[k] as int] is Some
        &&& forall|a: int, b: int| 0 <= a < b < v.len() ==> #[trigger] v[a] < #[trigger] v[b]
    }

    /// Every dependency list is ascending and names placed packages only.
    pub open spec fn adj_ok(&self) -> bool {
        &&& self.adj_lis@.len() == self.num_of_total_pkgs
        &&& forall|p: int|
            0 <= p < self.num_of_total_pkgs ==> self.deps_list_ok(#[trigger] self.adj_lis@[p]@)
    }

    /// Builds the dependency list of every placed package: the packages
    /// met by sweeping its box toward −x and toward −z, ascending.
    pub fn construct_graph(&mut self)
        requires
            old(self).records_ok(),
            old(self).index_ok(),
            old(self).adj_lis@.len() == old(self).num_of_total_pkgs,
            forall|p: int|
                0 <= p < old(self).num_of_total_pkgs ==> (#[trigger] old(self).adj_lis@[p])@.len()
                    == 0,
        ensures
            final(self).adj_exact(),
            final(self).adj_ok(),
            final(self).records_ok(),
            final(self).index_ok(),
            final(self).sol == old(self).sol,
            final(self).num_of_total_pkgs == old(self).num_of_total_pkgs,
            final(self).num_of_ulds == old(self).num_of_ulds,
            final(self).find_pack == old(self).find_pack,
            final(self).in_deg == old(self).in_deg,
            final(self).visited == old(self).visited,
            final(self).done == old(self).done,
            final(self).final_order == old(self).final_order,
    {
        let n = self.sol.len();
        let np = self.num_of_total_pkgs;
        let ghost sol = self.sol@;
        for i in 0..n
            invariant
                n == sol.len(),
                sol == self.sol@,
                np == self.num_of_total_pkgs,
                self.records_ok(),
                self.index_ok(),
                self.sol == old(self).sol,
                self.num_of_total_pkgs == old(self).num_of_total_pkgs,
                self.num_of_ulds == old(self).num_of_ulds,
                self.find_pack == old(self).find_pack,
                self.in_deg == old(self).in_deg,
                self.visited == old(self).visited,
                self.done == old(self).done,
                self.final_order == old(self).final_order,
                self.adj_lis@.len() == np,
                forall|i2: int, q: usize|
                    0 <= i2 < i ==> (#[trigger] self.adj_lis@[sol[i2].pkg as int]@.contains(q)
                        <==> #[trigger] depends_on(sol, i2, q as int)),
                forall|i2: int|
                    0 <= i2 < i ==> {
                        let v = #[trigger] self.adj_lis@[sol[i2].pkg as int]@;
                        forall|a: int, b: int| 0 <= a < b < v.len() ==> #[trigger] v[a] < #[trigger] v[b]
                    },
                forall|p: int|
                    0 <= p < np && (forall|i2: int| 0 <= i2 < i ==> #[trigger] sol[i2].pkg != p)
                        ==> (#[trigger] self.adj_lis@[p])@.len() == 0,
        {
            let r = self.sol[i];
            proof {
                assert(r == sol[i as int]);
            }
            let cord = [r.x1, r.y1, r.z1];
            let dims = [r.x2 - r.x1, r.y2 - r.y1, r.z2 - r.z1];
            let xs = self.find_dependencies(cord, dims, r.pkg, r.uld, Axis::X);
            let zs = self.find_dependencies(cord, dims, r.pkg, r.uld, Axis::Z);
            let merged = union(&xs, &zs);
            let sorted = sorted_values(&merged);
            let ghost before = self.adj_lis@;
            self.adj_lis.set(r.pkg, sorted);
            proof {
                assert(triple(cord) == r.lo());
                assert(triple(dims) == r.size());
                assert forall|i2: int, q: usize|
                    0 <= i2 < i + 1 implies (#[trigger] self.adj_lis@[sol[i2].pkg as int]@.contains(q)
                    <==> #[trigger] depends_on(sol, i2, q as int)) by {
                    if i2 < i {
                        assert(sol[i2].pkg != r.pkg);
                        assert(self.adj_lis@[sol[i2].pkg as int] == before[sol[i2].pkg as int]);
                    }
                }
                assert forall|i2: int| 0 <= i2 < i + 1 implies {
                    let v = #[trigger] self.adj_lis@[sol[i2].pkg as int]@;
                    forall|a: int, b: int| 0 <= a < b < v.len() ==> #[trigger] v[a] < #[trigger] v[b]
                } by {
                    if i2 < i {
                        assert(sol[i2].pkg != r.pkg);
                        assert(self.adj_lis@[sol[i2].pkg as int] == before[sol[i2].pkg as int]);
                    }
                }
                assert forall|p: int|
                    0 <= p < np && (forall|i2: int| 0 <= i2 < i + 1 ==> #[trigger] sol[i2].pkg != p)
                    implies (#[trigger] self.adj_lis@[p])@.len() == 0 by {
                    assert(sol[i as int].pkg != p);
                    assert(self.adj_lis@[p] == before[p]);
                }
            }
        }
        proof {
            assert forall|p: int|
                0 <= p < np && self.find_pack@[p] is None implies (#[trigger] self.adj_lis@[p])@.len()
                == 0 by {
                assert(pack_index_ok(sol, self.find_pack@[p], p, sol.len() as int));
                assert forall|i2: int| 0 <= i2 < n implies #[trigger] sol[i2].pkg != p by {}
            }
            assert forall|p: int| 0 <= p < np implies self.deps_list_ok(#[trigger] self.adj_lis@[p]@) by {
                if exists|i2: int| 0 <= i2 < n && #[trigger] sol[i2].pkg == p {
                    let i2 = choose|i2: int| 0 <= i2 < n && #[trigger] sol[i2].pkg == p;
                    assert forall|k: int| 0 <= k < self.adj_lis@[p]@.len() implies #[trigger] self.adj_lis@[p]@[k]
                        < self.num_of_total_pkgs && self.find_pack@[self.adj_lis@[p]@[k] as int] is Some by {
                        let q = self.adj_lis@[p]@[k];
                        assert(self.adj_lis@[sol[i2].pkg as int]@.contains(q));
                        assert(depends_on(sol, i2, q as int));
                        let rr = sol[i2];
                        let ax = if swept(sol, rr.pkg as int, rr.uld as int, rr.lo(), rr.size(), Axis::X, q as int) {
                            Axis::X
                        } else {
                            Axis::Z
                        };
                        let (pp, jj) = choose|pp: int, jj: int|
                            0 <= pp < axis_start(rr.lo(), ax) && #[trigger] sweep_hits(
                                sol,
                                rr.pkg as int,
                                rr.uld as int,
                                rr.lo(),
                                rr.size(),
                                ax,
                                pp,
                                jj,
                            ) && sol[jj].pkg == q;
                        assert(sol[jj].pkg < self.num_of_total_pkgs);
                        assert(pack_index_ok(sol, self.find_pack@[q as int], q as int, sol.len() as int));
                    }
                }
            }
        }
    }
}

/// Each entry of `s` but the last names the next in its dependency list.
pub open spec fn is_path(adj: Seq<Vec<usize>>, s: Seq<usize>) -> bool {
    &&& forall|k: int| 0 <= k < s.len() ==> (#[trigger] s[k]) < adj.len()
    &&& forall|k: int| 0 <= k < s.len() - 1 ==> adj[(#[trigger] s[k]) as int]@.contains(s[k + 1])
}

/// `c` is a cycle of dependency lists: a path whose last entry names the first.
pub open spec fn is_cycle(adj: Seq<Vec<usize>>, c: Seq<usize>) -> bool {
    &&& c.len() > 0
    &&& is_path(adj, c)
    &&& adj[c.last() as int]@.contains(c[0])
}

pub open spec fn has_cycle(adj: Seq<Vec<usize>>) -> bool {
    exists|c: Seq<usize>| #[trigger] is_cycle(adj, c)
}

/// The placed package `p` depends on package `q`.
pub open spec fn dep_edge(sol: Seq<PlacementRecord>, p: usize, q: usize) -> bool {
    exists|i: int| 0 <= i < sol.len() && #[trigger] sol[i].pkg == p && depends_on(sol, i, q as int)
}

/// `c` is a cycle of the dependency relation of `sol`.
pub open spec fn dep_cycle(sol: Seq<PlacementRecord>, c: Seq<usize>) -> bool {
    &&& c.len() > 0
    &&& forall|k: int| 0 <= k < c.len() - 1 ==> dep_edge(sol, #[trigger] c[k], c[k + 1])
    &&& dep_edge(sol, c.last(), c[0])
}

/// The position of `q` in `order`, descending strictly along a path.
proof fn lemma_path_descends(order: Seq<usize>, adj: Seq<Vec<usize>>, c: Seq<usize>, j: int)
    requires
        respects(order, adj),
        distinct(order),
        is_path(adj, c),
        forall|k: int| 0 <= k < c.len() ==> order.contains(#[trigger] c[k]),
        0 <= j < c.len(),
    ensures
        exists|a: int, a0: int|
            0 <= a < order.len() && 0 <= a0 < order.len() && order[a] == c[j] && order[a0] == c[0]
                && a + j <= a0,
    decreases j,
{
    if j == 0 {
        assert(order.contains(c[0]));
        let a = choose|a: int| 0 <= a < order.len() && order[a] == c[0];
        assert(a + 0 <= a);
    } else {
        lemma_path_descends(order, adj, c, j - 1);
        let (a, a0) = choose|a: int, a0: int|
            0 <= a < order.len() && 0 <= a0 < order.len() && order[a] == c[j - 1] && order[a0] == c[0]
                && a + (j - 1) <= a0;
        assert(adj[c[j - 1] as int]@.contains(c[j]));
        assert(adj[order[a] as int]@.contains(c[j]));
        assert(loaded_before(order, a, c[j]));
        let b = choose|b: int| 0 <= b < a && #[trigger] order[b] == c[j];
        assert(b + j <= a0);
    }
}

/// No cycle of the dependency lists lies within an order that respects them.
proof fn lemma_no_cycle_in_order(order: Seq<usize>, adj: Seq<Vec<usize>>, c: Seq<usize>)
    requires
        respects(order, adj),
        distinct(order),
        forall|k: int| 0 <= k < c.len() ==> order.contains(#[trigger] c[k]),
    ensures
        !is_cycle(adj, c),
{
    if !is_cycle(adj, c) {
        return;
    }
    let j = c.len() - 1;
    lemma_path_descends(order, adj, c, j);
    let (a, a0) = choose|a: int, a0: int|
        0 <= a < order.len() && 0 <= a0 < order.len() && order[a] == c[j] && order[a0] == c[0] && a
            + j <= a0;
    assert(adj[order[a] as int]@.contains(c[0]));
    assert(loaded_before(order, a, c[0]));
    let b = choose|b: int| 0 <= b < a && #[trigger] order[b] == c[0];
    if b != a0 {
        if b < a0 {
            assert(order[b] != order[a0]);
        } else {
            assert(order[a0] != order[b]);
        }
    }
}

/// A path that ends at a package whose list names an entry of the path
/// closes a cycle.
proof fn lemma_cycle_from_stack(adj: Seq<Vec<usize>>, inner: Seq<usize>, d: usize)
    requires
        is_path(adj, inner),
        inner.len() > 0,
        inner.contains(d),
        adj[inner.last() as int]@.contains(d),
    ensures
        has_cycle(adj),
{
    let t = choose|t: int| 0 <= t < inner.len() && inner[t] == d;
    let c = inner.subrange(t, inner.len() as int);
    assert(c.last() == inner.last());
    assert(c[0] == d);
    assert forall|q: int| 0 <= q < c.len() implies (#[trigger] c[q]) < adj.len() by {
        assert(c[q] == inner[t + q]);
    }
    assert forall|q: int| 0 <= q < c.len() - 1 implies adj[(#[trigger] c[q]) as int]@.contains(
        c[q + 1],
    ) by {
        assert(c[q] == inner[t + q] && c[q + 1] == inner[t + q + 1]);
    }
    assert(is_cycle(adj, c));
}

/// The depth-first load of package `pid` on the state (visited, loaded,
/// sequence): mark it visited, load its unvisited dependencies in list
/// order, then, if every dependency is loaded, load it; `None` if a
/// dependency is still unloaded (a cycle) or the step budget `fuel` runs out.
pub open spec fn dfs_run(
    adj: Seq<Vec<usize>>,
    st: (Seq<bool>, Seq<bool>, Seq<usize>),
    pid: usize,
    fuel: nat,
) -> Option<(Seq<bool>, Seq<bool>, Seq<usize>)>
    decreases fuel, 0int,
{
    if fuel == 0 {
        None
    } else {
        let deps = adj[pid as int]@;
        let st1 = (st.0.update(pid as int, true), st.1, st.2);
        match dfs_deps(adj, st1, deps, deps.len() as int, (fuel - 1) as nat) {
            None => None,
            Some(st2) => if forall|j: int| 0 <= j < deps.len() ==> #[trigger] st2.1[deps[j] as int] {
                Some((st2.0, st2.1.update(pid as int, true), st2.2.push(pid)))
            } else {
                None
            },
        }
    }
}

/// The depth-first loads of the first `k` entries of `deps` that are not
/// visited when their turn comes.
pub open spec fn dfs_deps(
    adj: Seq<Vec<usize>>,
    st: (Seq<bool>, Seq<bool>, Seq<usize>),
    deps: Seq<usize>,
    k: int,
    fuel: nat,
) -> Option<(Seq<bool>, Seq<bool>, Seq<usize>)>
    decreases fuel, k,
{
    if k <= 0 {
        Some(st)
    } else {
        match dfs_deps(adj, st, deps, k - 1, fuel) {
            None => None,
            Some(s1) => if s1.0[deps[k - 1] as int] {
                Some(s1)
            } else {
                dfs_run(adj, s1, deps[k - 1], fuel)
            },
        }
    }
}

/// The load sequence built from the packages `ind[0..k]` in turn: each
/// placed one not yet visited is loaded depth first.
pub open spec fn topo_run(
    adj: Seq<Vec<usize>>,
    find_pack: Seq<Option<usize>>,
    st: (Seq<bool>, Seq<bool>, Seq<usize>),
    ind: Seq<usize>,
    k: int,
    fuel: nat,
) -> Option<(Seq<bool>, Seq<bool>, Seq<usize>)>
    decreases k,
{
    if k <= 0 {
        Some(st)
    } else {
        match topo_run(adj, find_pack, st, ind, k - 1, fuel) {
            None => None,
            Some(s1) => {
                let p = ind[k - 1];
                if find_pack[p as int] is Some && !s1.0[p as int] {
                    dfs_run(adj, s1, p, fuel)
                } else {
                    Some(s1)
                }
            },
        }
    }
}

pub open spec fn degree_keys(in_deg: Seq<usize>) -> Seq<(i128, i128, i128)> {
    Seq::new(in_deg.len(), |q: int| (in_deg[q] as i128, 0i128, 0i128))
}

/// The sequence that loading in ascending order of in-degree (ties by
/// index), depth first, builds from nothing; `None` on a cycle.
pub open spec fn emission(
    adj: Seq<Vec<usize>>,
    find_pack: Seq<Option<usize>>,
    in_deg: Seq<usize>,
    n: nat,
) -> Option<(Seq<bool>, Seq<bool>, Seq<usize>)> {
    topo_run(
        adj,
        find_pack,
        (Seq::new(n, |p: int| false), Seq::new(n, |p: int| false), Seq::<usize>::empty()),
        sort_spec(degree_keys(in_deg), n as int),
        n as int,
        n,
    )
}

proof fn lemma_deps_none(
    adj: Seq<Vec<usize>>,
    st: (Seq<bool>, Seq<bool>, Seq<usize>),
    deps: Seq<usize>,
    j: int,
    m: int,
    fuel: nat,
)
    requires
        0 <= j <= m,
        dfs_deps(adj, st, deps, j, fuel) is None,
    ensures
        dfs_deps(adj, st, deps, m, fuel) is None,
    decreases m - j,
{
    if j < m {
        lemma_deps_none(adj, st, deps, j, m - 1, fuel);
    }
}

proof fn lemma_topo_none(
    adj: Seq<Vec<usize>>,
    find_pack: Seq<Option<usize>>,
    st: (Seq<bool>, Seq<bool>, Seq<usize>),
    ind: Seq<usize>,
    j: int,
    m: int,
    fuel: nat,
)
    requires
        0 <= j <= m,
        topo_run(adj, find_pack, st, ind, j, fuel) is None,
    ensures
        topo_run(adj, find_pack, st, ind, m, fuel) is None,
    decreases m - j,
{
    if j < m {
        lemma_topo_none(adj, find_pack, st, ind, j, m - 1, fuel);
    }
}

proof fn lemma_count_false_le_len(s: Seq<bool>)
    ensures
        count_false(s) <= s.len(),
    decreases s.len(),
{
    if s.len() > 0 {
        lemma_count_false_le_len(s.drop_last());
    }
}

/// Why no load sequence could be built.
#[derive(Clone, Copy, Debug, PartialEq, Eq, Structural)]
pub enum LoadOrderError {
    /// The dependency graph has a cycle: a package was reached again while
    /// its own dependencies were still being loaded.
    Cycle,
}

/// The number of lists among `adj[0..m]` that hold `q`.
pub open spec fn in_degree(adj: Seq<Vec<usize>>, q: usize, m: int) -> nat
    decreases m,
{
    if m <= 0 {
        0
    } else {
        in_degree(adj, q, m - 1) + if adj[m - 1]@.contains(q) {
            1nat
        } else {
            0nat
        }
    }
}

/// The number of `false` entries of `s`.
pub open spec fn count_false(s: Seq<bool>) -> nat
    decreases s.len(),
{
    if s.len() == 0 {
        0
    } else {
        count_false(s.drop_last()) + if s.last() {
            0nat
        } else {
            1nat
        }
    }
}

proof fn lemma_count_false_mono(s: Seq<bool>, t: Seq<bool>)
    requires
        s.len() == t.len(),
        forall|i: int| 0 <= i < s.len() && #[trigger] s[i] ==> t[i],
    ensures
        count_false(t) <= count_false(s),
    decreases s.len(),
{
    if s.len() > 0 {
        lemma_count_false_mono(s.drop_last(), t.drop_last());
    }
}

proof fn lemma_count_false_set(s: Seq<bool>, p: int)
    requires
        0 <= p < s.len(),
        !s[p],
    ensures
        count_false(s.update(p, true)) < count_false(s),
    decreases s.len(),
{
    let t = s.update(p, true);
    if p == s.len() - 1 {
        assert(t.drop_last() =~= s.drop_last());
    } else {
        lemma_count_false_set(s.drop_last(), p);
        assert(t.drop_last() =~= s.drop_last().update(p, true));
    }
}

/// Package `q` stands in `order` before position `a`.
pub open spec fn loaded_before(order: Seq<usize>, a: int, q: usize) -> bool {
    exists|b: int| 0 <= b < a && #[trigger] order[b] == q
}

/// Every package of `order` comes after all the packages in its
/// dependency list.
pub open spec fn respects(order: Seq<usize>, adj: Seq<Vec<usize>>) -> bool {
    forall|a: int, q: usize|
        0 <= a < order.len() && #[trigger] adj[order[a] as int]@.contains(q) ==> loaded_before(
            order,
            a,
            q,
        )
}

impl PackageManager {
    /// The graph is built and indexed.
    pub open spec fn graph_ok(&self) -> bool {
        &&& self.records_ok()
        &&& self.index_ok()
        &&& self.adj_exact()
        &&& self.adj_ok()
    }

    /// The load sequence so far: placed packages, each once, each after its
    /// dependencies; `done` marks exactly its packages, all of them visited.
    pub open spec fn order_ok(&self) -> bool {
        &&& self.visited@.len() == self.num_of_total_pkgs
        &&& self.done@.len() == self.num_of_total_pkgs
        &&& forall|p: int| 0 <= p < self.num_of_total_pkgs && #[trigger] self.done@[p] ==> self.visited@[p]
        &&& forall|p: usize|
            p < self.num_of_total_pkgs ==> (#[trigger] self.done@[p as int]
                <==> self.final_order@.contains(p))
        &&& forall|k: int|
            0 <= k < self.final_order@.len() ==> #[trigger] self.final_order@[k] < self.num_of_total_pkgs
                && self.find_pack@[self.final_order@[k] as int] is Some
        &&& distinct(self.final_order@)
        &&& respects(self.final_order@, self.adj_lis@)
    }

    /// Whether everything but the traversal state is as in `o`.
    pub open spec fn same_graph(&self, o: &PackageManager) -> bool {
        &&& self.num_of_total_pkgs == o.num_of_total_pkgs
        &&& self.num_of_ulds == o.num_of_ulds
        &&& self.sol == o.sol
        &&& self.adj_lis == o.adj_lis
        &&& self.find_pack == o.find_pack
        &&& self.in_deg == o.in_deg
    }

    /// Counts, for each package, the dependency lists that name it.
    fn compute_in_degrees(&mut self)
        requires
            old(self).adj_lis@.len() == old(self).num_of_total_pkgs,
            old(self).in_deg@.len() == old(self).num_of_total_pkgs,
        ensures
            forall|q: int|
                0 <= q < final(self).num_of_total_pkgs ==> #[trigger] final(self).in_deg@[q]
                    == in_degree(final(self).adj_lis@, q as usize, final(self).num_of_total_pkgs as int),
            final(self).in_deg@.len() == final(self).num_of_total_pkgs,
            final(self).num_of_total_pkgs == old(self).num_of_total_pkgs,
            final(self).num_of_ulds == old(self).num_of_ulds,
            final(self).sol == old(self).sol,
            final(self).adj_lis == old(self).adj_lis,
            final(self).find_pack == old(self).find_pack,
            final(self).visited == old(self).visited,
            final(self).done == old(self).done,
            final(self).final_order == old(self).final_order,
    {
        let n = self.num_of_total_pkgs;
        let mut deg: Vec<usize> = Vec::new();
        for q in 0..n
            invariant
                n == self.num_of_total_pkgs,
                self.adj_lis@.len() == n,
                deg@.len() == q,
                forall|x: int| 0 <= x < q ==> #[trigger] deg@[x] == in_degree(self.adj_lis@, x as usize, n as int),
        {
            let mut cnt: usize = 0;
            for p in 0..n
                invariant
                    n == self.num_of_total_pkgs,
                    self.adj_lis@.len() == n,
                    cnt == in_degree(self.adj_lis@, q, p as int),
                    cnt <= p,
            {
                if contains_usize(&self.adj_lis[p], q) {
                    cnt = cnt + 1;
                }
            }
            deg.push(cnt);
        }
        self.in_deg = deg;
    }

    /// The position in `deps` of the first package not yet loaded, if any.
    fn first_pending(&self, deps: &Vec<usize>) -> (r: Option<usize>)
        requires
            self.done@.len() == self.num_of_total_pkgs,
            forall|j: int| 0 <= j < deps@.len() ==> #[trigger] deps@[j] < self.num_of_total_pkgs,
        ensures
            r matches Some(k) ==> k < deps@.len() && !self.done@[deps@[k as int] as int],
            r is None ==> forall|j: int| 0 <= j < deps@.len() ==> self.done@[#[trigger] deps@[j] as int],
    {
        let m = deps.len();
        for k in 0..m
            invariant
                m == deps@.len(),
                self.done@.len() == self.num_of_total_pkgs,
                forall|j: int| 0 <= j < deps@.len() ==> #[trigger] deps@[j] < self.num_of_total_pkgs,
                forall|j: int| 0 <= j < k ==> self.done@[#[trigger] deps@[j] as int],
        {
            if !self.done[deps[k]] {
                return Some(k);
            }
        }
        None
    }

    /// Loads the dependencies of `pid` (depth first, in list order) and then
    /// `pid`. Fails if a dependency is still in progress when `pid` is due,
    /// which means the graph has a cycle.
    #[verifier::rlimit(40)]
    fn dfs(&mut self, pid: usize, Ghost(stack): Ghost<Seq<usize>>, Ghost(fuel): Ghost<nat>) -> (r: Result<
        (),
        LoadOrderError,
    >)
        requires
            fuel >= count_false(old(self).visited@),
            old(self).graph_ok(),
            old(self).order_ok(),
            pid < old(self).num_of_total_pkgs,
            old(self).find_pack@[pid as int] is Some,
            !old(self).visited@[pid as int],
            is_path(old(self).adj_lis@, stack),
            stack.len() > 0 ==> old(self).adj_lis@[stack.last() as int]@.contains(pid),
            forall|p: int|
                0 <= p < old(self).num_of_total_pkgs ==> (#[trigger] old(self).visited@[p]
                    && !old(self).done@[p] <==> stack.contains(p as usize)),
        ensures
            dfs_run(old(self).adj_lis@, (old(self).visited@, old(self).done@, old(self).final_order@), pid, fuel) == if r is Ok {
                Some((final(self).visited@, final(self).done@, final(self).final_order@))
            } else {
                None::<(Seq<bool>, Seq<bool>, Seq<usize>)>
            },
            r is Err ==> has_cycle(final(self).adj_lis@),
            r is Ok ==> forall|p: int|
                0 <= p < old(self).num_of_total_pkgs ==> (#[trigger] final(self).visited@[p]
                    && !final(self).done@[p] <==> stack.contains(p as usize)),
            final(self).same_graph(old(self)),
            final(self).graph_ok(),
            final(self).order_ok(),
            old(self).final_order@.len() <= final(self).final_order@.len(),
            final(self).final_order@.subrange(0, old(self).final_order@.len() as int)
                == old(self).final_order@,
            forall|p: int|
                0 <= p < old(self).num_of_total_pkgs && #[trigger] old(self).visited@[p]
                    ==> final(self).visited@[p],
            forall|p: int|
                0 <= p < old(self).num_of_total_pkgs && #[trigger] final(self).done@[p]
                    ==> old(self).done@[p] || !old(self).visited@[p],
            r is Ok ==> final(self).done@[pid as int],
            r is Ok ==> forall|p: int|
                0 <= p < old(self).num_of_total_pkgs && #[trigger] final(self).visited@[p]
                    && !old(self).visited@[p] ==> final(self).done@[p],
        decreases fuel,
    {
        let n = self.num_of_total_pkgs;
        let ghost st1 = (old(self).visited@.update(pid as int, true), old(self).done@, old(self).final_order@);
        proof {
            lemma_count_false_set(self.visited@, pid as int);
        }
        self.visited.set(pid, true);
        let deps = self.adj_lis[pid].clone();
        assert(deps@ == self.adj_lis@[pid as int]@);
        let m = deps.len();
        assert(dfs_deps(self.adj_lis@, st1, deps@, 0, (fuel - 1) as nat) == Some(
            (self.visited@, self.done@, self.final_order@),
        ));
        let ghost inner = stack.push(pid);
        proof {
            assert forall|p: int| 0 <= p < n implies (#[trigger] self.visited@[p] && !self.done@[p]
                <==> inner.contains(p as usize)) by {
                if p == pid {
                    assert(inner[stack.len() as int] == pid);
                } else {
                    if inner.contains(p as usize) {
                        let t = choose|t: int| 0 <= t < inner.len() && inner[t] == p as usize;
                        assert(stack[t] == p as usize);
                    }
                    if stack.contains(p as usize) {
                        let t = choose|t: int| 0 <= t < stack.len() && stack[t] == p as usize;
                        assert(inner[t] == p as usize);
                    }
                }
            }
            assert forall|k: int| 0 <= k < inner.len() - 1 implies self.adj_lis@[(#[trigger] inner[k]) as int]@.contains(
                inner[k + 1],
            ) by {
                if k < stack.len() - 1 {
                    assert(inner[k] == stack[k] && inner[k + 1] == stack[k + 1]);
                } else {
                    assert(inner[k] == stack.last());
                }
            }
            assert forall|k: int| 0 <= k < inner.len() implies (#[trigger] inner[k]) < self.adj_lis@.len() by {
                if k < stack.len() {
                    assert(inner[k] == stack[k]);
                }
            }
        }
        for k in 0..m
            invariant
                n == self.num_of_total_pkgs,
                pid < n,
                m == deps@.len(),
                deps@ == self.adj_lis@[pid as int]@,
                inner == stack.push(pid),
                is_path(self.adj_lis@, inner),
                forall|p: int|
                    0 <= p < n ==> (#[trigger] self.visited@[p] && !self.done@[p] <==> inner.contains(
                        p as usize,
                    )),
                forall|j: int| 0 <= j < k ==> self.visited@[#[trigger] deps@[j] as int],
                self.same_graph(old(self)),
                self.graph_ok(),
                self.order_ok(),
                self.visited@[pid as int],
                !self.done@[pid as int],
                count_false(self.visited@) < count_false(old(self).visited@),
                fuel >= count_false(old(self).visited@),
                st1 == (old(self).visited@.update(pid as int, true), old(self).done@, old(self).final_order@),
                dfs_deps(self.adj_lis@, st1, deps@, k as int, (fuel - 1) as nat) == Some(
                    (self.visited@, self.done@, self.final_order@),
                ),
                old(self).final_order@.len() <= self.final_order@.len(),
                self.final_order@.subrange(0, old(self).final_order@.len() as int) == old(self).final_order@,
                forall|p: int| 0 <= p < n && #[trigger] old(self).visited@[p] ==> self.visited@[p],
                forall|p: int|
                    0 <= p < n && #[trigger] self.done@[p] ==> old(self).done@[p] || !old(self).visited@[p],
                forall|p: int|
                    0 <= p < n && #[trigger] self.visited@[p] && !old(self).visited@[p] && p != pid
                        ==> self.done@[p],
        {
            let d = deps[k];
            proof {
                assert(self.deps_list_ok(self.adj_lis@[pid as int]@));
                assert(deps@[k as int] == d);
            }
            if !self.visited[d] {
                let ghost mid = *self;
                assert(count_false(self.visited@) < count_false(old(self).visited@));
                assert(inner.last() == pid);
                let res = self.dfs(d, Ghost(inner), Ghost((fuel - 1) as nat));
                proof {
                    lemma_count_false_mono(mid.visited@, self.visited@);
                    assert(self.final_order@.subrange(0, old(self).final_order@.len() as int)
                        =~= mid.final_order@.subrange(0, old(self).final_order@.len() as int));
                }
                match res {
                    Ok(()) => {},
                    Err(e) => {
                        proof {
                            assert(dfs_deps(self.adj_lis@, st1, deps@, k + 1, (fuel - 1) as nat) is None);
                            lemma_deps_none(self.adj_lis@, st1, deps@, k + 1, m as int, (fuel - 1) as nat);
                        }
                        return Err(e);
                    },
                }
            }
            assert(self.visited@[d as int]);
        }
        match self.first_pending(&deps) {
            Some(k) => {
                proof {
                    assert(deps@.subrange(0, m as int) =~= deps@);
                    let d = deps@[k as int];
                    assert(!self.done@[deps@[k as int] as int]);
                    assert(self.visited@[d as int]);
                    assert(inner.contains(d));
                    assert(self.adj_lis@[pid as int]@.contains(d));
                    lemma_cycle_from_stack(self.adj_lis@, inner, d);
                }
                return Err(LoadOrderError::Cycle);
            },
            None => {},
        }
        let ghost before = *self;
        self.done.set(pid, true);
        self.final_order.push(pid);
        proof {
            assert(dfs_deps(self.adj_lis@, st1, deps@, m as int, (fuel - 1) as nat) == Some(
                (before.visited@, before.done@, before.final_order@),
            ));
            assert(forall|j: int| 0 <= j < deps@.len() ==> #[trigger] before.done@[deps@[j] as int]);
            let o = self.final_order@;
            let a0 = before.final_order@.len() as int;
            assert(!before.final_order@.contains(pid));
            assert forall|p: usize| p < n implies (#[trigger] self.done@[p as int]
                <==> self.final_order@.contains(p)) by {
                if p != pid {
                    assert(self.done@[p as int] == before.done@[p as int]);
                    if o.contains(p) {
                        let t = choose|t: int| 0 <= t < o.len() && o[t] == p;
                        assert(before.final_order@[t] == p);
                    }
                    if before.final_order@.contains(p) {
                        let t = choose|t: int| 0 <= t < a0 && before.final_order@[t] == p;
                        assert(o[t] == p);
                    }
                } else {
                    assert(o[a0] == pid);
                }
            }
            assert forall|i: int, j: int| 0 <= i < j < o.len() implies #[trigger] o[i] != #[trigger] o[j] by {
                if j == a0 {
                    assert(o[i] == before.final_order@[i]);
                    assert(before.final_order@.contains(o[i]));
                } else {
                    assert(o[i] == before.final_order@[i] && o[j] == before.final_order@[j]);
                }
            }
            assert forall|a: int, q: usize|
                0 <= a < o.len() && #[trigger] self.adj_lis@[o[a] as int]@.contains(q) implies loaded_before(
                o,
                a,
                q,
            ) by {
                if a < a0 {
                    assert(o[a] == before.final_order@[a]);
                    assert(loaded_before(before.final_order@, a, q));
                    let b = choose|b: int| 0 <= b < a && #[trigger] before.final_order@[b] == q;
                    assert(o[b] == q);
                } else {
                    assert(o[a] == pid);
                    let j = choose|j: int| 0 <= j < deps@.len() && deps@[j] == q;
                    assert(self.done@[deps@[j] as int]);
                    assert(before.done@[q as int]);
                    assert(q < n) by {
                        assert(self.deps_list_ok(self.adj_lis@[pid as int]@));
                    }
                    assert(before.final_order@.contains(q));
                    let b = choose|b: int| 0 <= b < a0 && before.final_order@[b] == q;
                    assert(o[b] == q);
                }
            }
            assert forall|k: int| 0 <= k < o.len() implies #[trigger] o[k] < n && self.find_pack@[o[k] as int] is Some by {
                if k < a0 {
                    assert(o[k] == before.final_order@[k]);
                }
            }
            assert(self.final_order@.subrange(0, old(self).final_order@.len() as int)
                =~= before.final_order@.subrange(0, old(self).final_order@.len() as int));
            assert forall|p: int| 0 <= p < n implies (#[trigger] self.visited@[p] && !self.done@[p]
                <==> stack.contains(p as usize)) by {
                if p != pid {
                    assert(self.done@[p] == before.done@[p]);
                    if inner.contains(p as usize) {
                        let t = choose|t: int| 0 <= t < inner.len() && inner[t] == p as usize;
                        assert(t < stack.len());
                        assert(stack[t] == p as usize);
                    }
                    if stack.contains(p as usize) {
                        let t = choose|t: int| 0 <= t < stack.len() && stack[t] == p as usize;
                        assert(inner[t] == p as usize);
                    }
                } else {
                    assert(old(self).visited@[p] == false);
                    if stack.contains(p as usize) {
                        let t = choose|t: int| 0 <= t < stack.len() && stack[t] == p as usize;
                        assert(inner[t] == p as usize);
                        assert(before.visited@[p] && !before.done@[p]);
                    }
                }
            }
        }
        Ok(())
    }

    /// A manager as `new` leaves it.
    pub open spec fn fresh(&self) -> bool {
        &&& self.adj_lis@.len() == self.num_of_total_pkgs
        &&& forall|p: int|
            0 <= p < self.num_of_total_pkgs ==> (#[trigger] self.adj_lis@[p])@.len() == 0
        &&& self.final_order@.len() == 0
        &&& self.visited@ == Seq::new(self.num_of_total_pkgs as nat, |p: int| false)
        &&& self.done@ == Seq::new(self.num_of_total_pkgs as nat, |p: int| false)
        &&& self.find_pack@ == Seq::new(self.num_of_total_pkgs as nat, |p: int| None::<usize>)
        &&& self.in_deg@ == Seq::new(self.num_of_total_pkgs as nat, |p: int| 0usize)
    }

    /// Builds the graph and the load sequence: packages in ascending order
    /// of in-degree (ties by index), each placed one loaded after its
    /// dependencies, depth first.
    pub fn topo_sort(&mut self) -> (r: Result<(), LoadOrderError>)
        requires
            old(self).records_ok(),
            old(self).fresh(),
        ensures
            final(self).graph_ok(),
            final(self).order_ok(),
            final(self).sol == old(self).sol,
            final(self).num_of_total_pkgs == old(self).num_of_total_pkgs,
            r is Ok ==> forall|i: int|
                0 <= i < final(self).sol@.len() ==> final(self).final_order@.contains(
                    #[trigger] final(self).sol@[i].pkg,
                ),
            r is Err ==> has_cycle(final(self).adj_lis@),
            forall|q: int|
                0 <= q < final(self).num_of_total_pkgs ==> #[trigger] final(self).in_deg@[q]
                    == in_degree(final(self).adj_lis@, q as usize, final(self).num_of_total_pkgs as int),
            final(self).in_deg@.len() == final(self).num_of_total_pkgs,
            emission(
                final(self).adj_lis@,
                final(self).find_pack@,
                final(self).in_deg@,
                final(self).num_of_total_pkgs as nat,
            ) == if r is Ok {
                Some((final(self).visited@, final(self).done@, final(self).final_order@))
            } else {
                None::<(Seq<bool>, Seq<bool>, Seq<usize>)>
            },
    {
        self.group_packages_by_uld();
        self.construct_graph();
        self.compute_in_degrees();
        let n = self.num_of_total_pkgs;
        let mut keys: Vec<(i128, i128, i128)> = Vec::new();
        for q in 0..n
            invariant
                n == self.num_of_total_pkgs,
                self.in_deg@.len() == n,
                keys@ == degree_keys(self.in_deg@.subrange(0, q as int)),
        {
            keys.push((self.in_deg[q] as i128, 0, 0));
            assert(keys@ =~= degree_keys(self.in_deg@.subrange(0, q + 1)));
        }
        assert(self.in_deg@.subrange(0, n as int) =~= self.in_deg@);
        let pkg_ind = sort_indices(&keys);
        let ghost init = (self.visited@, self.done@, self.final_order@);
        assert(init == (Seq::new(n as nat, |p: int| false), Seq::new(n as nat, |p: int| false), Seq::<usize>::empty()));
        assert(topo_run(self.adj_lis@, self.find_pack@, init, pkg_ind@, 0, n as nat) == Some(init));
        let ghost deg0 = self.in_deg;
        proof {
            assert forall|p: usize| p < n implies (#[trigger] self.done@[p as int]
                <==> self.final_order@.contains(p)) by {
                assert(self.done@[p as int] == false);
            }
            assert(respects(self.final_order@, self.adj_lis@));
        }
        for k in 0..n
            invariant
                n == self.num_of_total_pkgs,
                keys@.len() == n,
                stably_sorted(keys@, pkg_ind@),
                self.graph_ok(),
                self.order_ok(),
                self.sol == old(self).sol,
                self.num_of_total_pkgs == old(self).num_of_total_pkgs,
                self.in_deg == deg0,
                keys@ == degree_keys(self.in_deg@),
                pkg_ind@ == sort_spec(keys@, n as int),
                forall|q: int|
                    0 <= q < n ==> #[trigger] self.in_deg@[q] == in_degree(self.adj_lis@, q as usize, n as int),
                self.in_deg@.len() == n,
                init == (Seq::new(n as nat, |p: int| false), Seq::new(n as nat, |p: int| false), Seq::<usize>::empty()),
                topo_run(self.adj_lis@, self.find_pack@, init, pkg_ind@, k as int, n as nat) == Some(
                    (self.visited@, self.done@, self.final_order@),
                ),
                forall|p: int| 0 <= p < n ==> (#[trigger] self.visited@[p] <==> self.done@[p]),
                forall|j: int|
                    0 <= j < k && self.find_pack@[pkg_ind@[j] as int] is Some ==> self.done@[#[trigger] pkg_ind@[j] as int],
        {
            let pid = pkg_ind[k];
            if self.find_pack[pid].is_some() && !self.visited[pid] {
                let ghost before = *self;
                proof {
                    assert forall|p: int| 0 <= p < n implies (#[trigger] self.visited@[p] && !self.done@[p]
                        <==> Seq::<usize>::empty().contains(p as usize)) by {}
                    lemma_count_false_le_len(self.visited@);
                }
                match self.dfs(pid, Ghost(Seq::empty()), Ghost(n as nat)) {
                    Ok(()) => {},
                    Err(e) => {
                        proof {
                            assert(topo_run(self.adj_lis@, self.find_pack@, init, pkg_ind@, k + 1, n as nat) is None);
                            lemma_topo_none(self.adj_lis@, self.find_pack@, init, pkg_ind@, k + 1, n as int, n as nat);
                        }
                        return Err(e);
                    },
                }
                proof {
                    assert forall|p: int| 0 <= p < n implies (#[trigger] self.visited@[p] <==> self.done@[p]) by {
                        assert(!Seq::<usize>::empty().contains(p as usize));
                    }
                    assert forall|j: int|
                        0 <= j < k + 1 && self.find_pack@[pkg_ind@[j] as int] is Some implies self.done@[#[trigger] pkg_ind@[j] as int] by {
                        if j < k {
                            assert(before.done@[pkg_ind@[j] as int]);
                            assert(before.visited@[pkg_ind@[j] as int]);
                        }
                    }
                }
            }
        }
        proof {
            assert forall|i: int| 0 <= i < self.sol@.len() implies self.final_order@.contains(
                #[trigger] self.sol@[i].pkg,
            ) by {
                let p = self.sol@[i].pkg;
                assert(p < n);
                assert(pack_index_ok(self.sol@, self.find_pack@[p as int], p as int, self.sol@.len() as int));
                assert(pkg_ind@.contains((p as int) as usize));
                let j = choose|j: int| 0 <= j < pkg_ind@.len() && pkg_ind@[j] == p;
                assert(self.done@[pkg_ind@[j] as int]);
            }
        }
        Ok(())
    }

    /// The load sequence of the placed packages: each once, and each after
    /// every package it depends on; or an error if the dependencies form a
    /// cycle.
    pub fn get_results(&mut self) -> (r: Result<Vec<usize>, LoadOrderError>)
        requires
            old(self).records_ok(),
            old(self).fresh(),
        ensures
            final(self).sol == old(self).sol,
            r is Err <==> exists|c: Seq<usize>| #[trigger] dep_cycle(old(self).sol@, c),
            final(self).graph_ok(),
            final(self).in_deg@.len() == final(self).num_of_total_pkgs,
            forall|q: int|
                0 <= q < final(self).num_of_total_pkgs ==> #[trigger] final(self).in_deg@[q]
                    == in_degree(final(self).adj_lis@, q as usize, final(self).num_of_total_pkgs as int),
            r matches Ok(order) ==> emission(
                final(self).adj_lis@,
                final(self).find_pack@,
                final(self).in_deg@,
                final(self).num_of_total_pkgs as nat,
            ) == Some((final(self).visited@, final(self).done@, order@)),
            r matches Ok(order) ==> {
                &&& distinct(order@)
                &&& forall|k: int|
                    0 <= k < order@.len() ==> crate::model::is_placed(old(self).sol@, #[trigger] order@[k] as int)
                &&& forall|i: int|
                    0 <= i < old(self).sol@.len() ==> order@.contains(#[trigger] old(self).sol@[i].pkg)
                &&& forall|a: int, i: int, q: usize|
                    0 <= a < order@.len() && 0 <= i < old(self).sol@.len() && old(self).sol@[i].pkg
                        == #[trigger] order@[a] && #[trigger] depends_on(old(self).sol@, i, q as int) ==> loaded_before(
                        order@,
                        a,
                        q,
                    )
            },
    {
        match self.topo_sort() {
            Ok(()) => {
                let order = self.final_order.clone();
                proof {
                    assert forall|c: Seq<usize>| !#[trigger] dep_cycle(self.sol@, c) by {
                        if dep_cycle(self.sol@, c) {
                            self.lemma_dep_cycle_is_cycle(c);
                            assert forall|k: int| 0 <= k < c.len() implies self.final_order@.contains(
                                #[trigger] c[k],
                            ) by {
                                let nk = if k < c.len() - 1 { k } else { c.len() - 1 };
                                assert(dep_edge(self.sol@, c[nk], if nk < c.len() - 1 { c[nk + 1] } else { c[0] }));
                                let i = choose|i: int| 0 <= i < self.sol@.len() && #[trigger] self.sol@[i].pkg == c[nk]
                                    && depends_on(self.sol@, i, (if nk < c.len() - 1 { c[nk + 1] } else { c[0] }) as int);
                                assert(self.final_order@.contains(self.sol@[i].pkg));
                            }
                            lemma_no_cycle_in_order(self.final_order@, self.adj_lis@, c);
                        }
                    }
                    assert(order@ == self.final_order@);
                    assert forall|k: int| 0 <= k < order@.len() implies crate::model::is_placed(
                        self.sol@,
                        #[trigger] order@[k] as int,
                    ) by {
                        let p = order@[k];
                        assert(self.find_pack@[p as int] is Some);
                        assert(pack_index_ok(self.sol@, self.find_pack@[p as int], p as int, self.sol@.len() as int));
                        let i = self.find_pack@[p as int].unwrap();
                        assert(self.sol@[i as int].pkg == p);
                    }
                    assert forall|a: int, i: int, q: usize|
                        0 <= a < order@.len() && 0 <= i < self.sol@.len() && self.sol@[i].pkg == #[trigger] order@[a]
                            && #[trigger] depends_on(self.sol@, i, q as int) implies loaded_before(
                        order@,
                        a,
                        q,
                    ) by {
                        assert(self.adj_lis@[self.sol@[i].pkg as int]@.contains(q));
                        assert(self.adj_lis@[order@[a] as int]@.contains(q));
                    }
                }
                Ok(order)
            },
            Err(e) => {
                proof {
                    let c = choose|c: Seq<usize>| #[trigger] is_cycle(self.adj_lis@, c);
                    self.lemma_cycle_is_dep_cycle(c);
                }
                Err(e)
            },
        }
    }

    /// A cycle of the relation is a cycle of the dependency lists.
    proof fn lemma_dep_cycle_is_cycle(&self, c: Seq<usize>)
        requires
            self.graph_ok(),
            dep_cycle(self.sol@, c),
        ensures
            is_cycle(self.adj_lis@, c),
    {
        assert forall|k: int| 0 <= k < c.len() implies (#[trigger] c[k]) < self.adj_lis@.len() by {
            let q = if k < c.len() - 1 { c[k + 1] } else { c[0] };
            assert(dep_edge(self.sol@, c[k], q));
            let i = choose|i: int| 0 <= i < self.sol@.len() && #[trigger] self.sol@[i].pkg == c[k] && depends_on(self.sol@, i, q as int);
        }
        assert forall|k: int| 0 <= k < c.len() - 1 implies self.adj_lis@[(#[trigger] c[k]) as int]@.contains(c[k + 1]) by {
            assert(dep_edge(self.sol@, c[k], c[k + 1]));
            let i = choose|i: int| 0 <= i < self.sol@.len() && #[trigger] self.sol@[i].pkg == c[k] && depends_on(self.sol@, i, c[k + 1] as int);
            assert(self.adj_lis@[self.sol@[i].pkg as int]@.contains(c[k + 1]));
        }
        let i = choose|i: int| 0 <= i < self.sol@.len() && #[trigger] self.sol@[i].pkg == c.last() && depends_on(self.sol@, i, c[0] as int);
        assert(self.adj_lis@[self.sol@[i].pkg as int]@.contains(c[0]));
    }

    /// A cycle of the dependency lists is a cycle of the relation.
    proof fn lemma_cycle_is_dep_cycle(&self, c: Seq<usize>)
        requires
            self.graph_ok(),
            is_cycle(self.adj_lis@, c),
        ensures
            dep_cycle(self.sol@, c),
    {
        assert forall|k: int| 0 <= k < c.len() implies dep_edge(
            self.sol@,
            #[trigger] c[k],
            if k < c.len() - 1 { c[k + 1] } else { c[0] },
        ) by {
            let p = c[k];
            let q = if k < c.len() - 1 { c[k + 1] } else { c[0] };
            assert(self.adj_lis@[p as int]@.contains(q));
            assert(p < self.num_of_total_pkgs);
            if self.find_pack@[p as int] is None {
                assert(self.adj_lis@[p as int]@.len() == 0);
            }
            let i = self.find_pack@[p as int].unwrap();
            assert(pack_index_ok(self.sol@, self.find_pack@[p as int], p as int, self.sol@.len() as int));
            assert(self.sol@[i as int].pkg == p);
            assert(depends_on(self.sol@, i as int, q as int));
        }
        assert(dep_edge(self.sol@, c[c.len() - 1], c[0]));
    }
}

} // verus!
