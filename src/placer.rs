//! The constructive placer: a chromosome's decoded orders are placed one
//! package at a time at the best feasible (ULD, anchor, orientation).
use vstd::prelude::*;

use crate::geometry::{
    anchored_corner, anchored_min, check_intersection_cuboids, cuboids_intersect, min_int,
    orientation, orientations, triple,
};
use crate::model::{
    anchor_view, valid_packages, valid_placement, valid_ulds, uld_load, Anchor, PlacementRecord,
    Package, ULD,
};

verus! {

/// Which pass of the placer is running; the leftover pass ranks ULDs by
/// spare capacity, the others by their number of anchors.
#[derive(Clone, Copy, Debug, PartialEq, Eq, Structural)]
pub enum PassKind {
    Priority,
    Economy,
    Leftover,
}

/// A feasible way to put the current package: ULD `uld`, its anchor number
/// `anchor`, orientation number `orient`, minimum corner `(x, y, z)` and
/// size `(a, b, c)`.
#[derive(Clone, Copy, Debug)]
pub struct Candidate {
    pub uld: usize,
    pub anchor: usize,
    pub orient: usize,
    pub x: i32,
    pub y: i32,
    pub z: i32,
    pub a: i32,
    pub b: i32,
    pub c: i32,
}

impl Candidate {
    pub open spec fn lo(self) -> (int, int, int) {
        (self.x as int, self.y as int, self.z as int)
    }

    pub open spec fn size(self) -> (int, int, int) {
        (self.a as int, self.b as int, self.c as int)
    }

    /// The record that committing this candidate for package `pid` adds.
    pub open spec fn record(self, pid: usize) -> PlacementRecord {
        PlacementRecord {
            pkg: pid,
            uld: self.uld,
            x1: self.x,
            y1: self.y,
            z1: self.z,
            x2: (self.x + self.a) as i32,
            y2: (self.y + self.b) as i32,
            z2: (self.z + self.c) as i32,
        }
    }
}

pub open spec fn add3(m: (int, int, int), d: (int, int, int)) -> (int, int, int) {
    (m.0 + d.0, m.1 + d.1, m.2 + d.2)
}

/// Orientation `o` of package `pid`.
pub open spec fn cand_size(pkgs: Seq<Package>, pid: int, o: int) -> (int, int, int) {
    orientation(pkgs[pid].length as int, pkgs[pid].width as int, pkgs[pid].height as int, o)
}

/// The minimum corner of package `pid` in orientation `o` at anchor `i` of ULD `u`.
pub open spec fn cand_lo(
    anchors: Seq<Seq<Anchor>>,
    pkgs: Seq<Package>,
    pid: int,
    u: int,
    i: int,
    o: int,
) -> (int, int, int) {
    anchored_min(anchors[u][i].point(), anchors[u][i].tag as int, cand_size(pkgs, pid, o))
}

/// Package `pid` with size `d` at minimum corner `m` stays inside ULD `u`,
/// keeps `u` within its capacity, and meets no placed box of `u`.
pub open spec fn fits_in_uld(
    pkgs: Seq<Package>,
    ulds: Seq<ULD>,
    recs: Seq<PlacementRecord>,
    wts: Seq<i64>,
    pid: int,
    u: int,
    m: (int, int, int),
    d: (int, int, int),
) -> bool {
    &&& wts[u] + pkgs[pid].weight <= ulds[u].weight
    &&& m.0 + d.0 <= ulds[u].length
    &&& m.1 + d.1 <= ulds[u].width
    &&& m.2 + d.2 <= ulds[u].height
    &&& forall|k: int|
        0 <= k < recs.len() && (#[trigger] recs[k]).uld == u ==> !cuboids_intersect(
            m,
            add3(m, d),
            recs[k].lo(),
            recs[k].hi(),
        )
}

/// Orientation `o` at anchor `i` of ULD `u` is a feasible place for `pid`.
pub open spec fn feasible(
    pkgs: Seq<Package>,
    ulds: Seq<ULD>,
    recs: Seq<PlacementRecord>,
    wts: Seq<i64>,
    anchors: Seq<Seq<Anchor>>,
    pid: int,
    u: int,
    i: int,
    o: int,
) -> bool {
    let m = cand_lo(anchors, pkgs, pid, u, i, o);
    &&& 0 <= u < ulds.len()
    &&& 0 <= i < anchors[u].len()
    &&& 0 <= o < 6
    &&& m.0 >= 0
    &&& m.1 >= 0
    &&& m.2 >= 0
    &&& fits_in_uld(pkgs, ulds, recs, wts, pid, u, m, cand_size(pkgs, pid, o))
}

/// The ranking of a candidate; smaller is better.
pub open spec fn cand_key(
    kind: PassKind,
    ulds: Seq<ULD>,
    wts: Seq<i64>,
    anchors: Seq<Seq<Anchor>>,
    u: int,
    m: (int, int, int),
    d: (int, int, int),
) -> (int, int, int, int) {
    (
        if kind == PassKind::Leftover {
            -(ulds[u].weight - wts[u])
        } else {
            -(anchors[u].len() as int)
        },
        m.2,
        min_int(m.0, ulds[u].length - m.0 - d.0) + min_int(m.1, ulds[u].width - m.1 - d.1),
        m.0 * m.0 + m.1 * m.1 + m.2 * m.2,
    )
}

pub open spec fn key_lt(a: (int, int, int, int), b: (int, int, int, int)) -> bool {
    a.0 < b.0 || (a.0 == b.0 && (a.1 < b.1 || (a.1 == b.1 && (a.2 < b.2 || (a.2 == b.2 && a.3
        < b.3)))))
}

pub open spec fn triple_key(
    kind: PassKind,
    pkgs: Seq<Package>,
    ulds: Seq<ULD>,
    wts: Seq<i64>,
    anchors: Seq<Seq<Anchor>>,
    pid: int,
    u: int,
    i: int,
    o: int,
) -> (int, int, int, int) {
    cand_key(kind, ulds, wts, anchors, u, cand_lo(anchors, pkgs, pid, u, i, o), cand_size(pkgs, pid, o))
}

/// `(u, i, o)` comes before `(bu, bi, bo)` in the order of enumeration.
pub open spec fn triple_lt(u: int, i: int, o: int, bu: int, bi: int, bo: int) -> bool {
    u < bu || (u == bu && (i < bi || (i == bi && o < bo)))
}

/// `c` is orientation `c.orient` of package `pid` at anchor `c.anchor` of ULD `c.uld`.
pub open spec fn is_candidate(
    anchors: Seq<Seq<Anchor>>,
    pkgs: Seq<Package>,
    pid: int,
    c: Candidate,
) -> bool {
    &&& c.uld < anchors.len()
    &&& c.anchor < anchors[c.uld as int].len()
    &&& c.orient < 6
    &&& c.lo() == cand_lo(anchors, pkgs, pid, c.uld as int, c.anchor as int, c.orient as int)
    &&& c.size() == cand_size(pkgs, pid, c.orient as int)
}

fn square(v: i32) -> (r: i128)
    ensures
        r == v * v,
        0 <= r <= 0x4000_0000_0000_0000,
{
    let w = v as i128;
    assert(w * w <= 0x4000_0000_0000_0000) by (nonlinear_arith)
        requires
            -0x8000_0000 <= w <= 0x7fff_ffff,
    ;
    assert(w * w >= 0) by (nonlinear_arith);
    w * w
}

fn min_i128(a: i128, b: i128) -> (r: i128)
    ensures
        r == min_int(a as int, b as int),
{
    if a <= b {
        a
    } else {
        b
    }
}

fn key_less(a: (i128, i128, i128, i128), b: (i128, i128, i128, i128)) -> (r: bool)
    ensures
        r == key_lt(
            (a.0 as int, a.1 as int, a.2 as int, a.3 as int),
            (b.0 as int, b.1 as int, b.2 as int, b.3 as int),
        ),
{
    a.0 < b.0 || (a.0 == b.0 && (a.1 < b.1 || (a.1 == b.1 && (a.2 < b.2 || (a.2 == b.2 && a.3
        < b.3)))))
}

/// One candidate solution: two random-key vectors, the package orders they
/// decode to, and what placing those orders produced.
pub struct Config {
    pub priority_order: Vec<usize>,
    pub non_priority_order: Vec<usize>,
    pub enc_priority_ord: Vec<u64>,
    pub enc_non_priority_ord: Vec<u64>,
    pub fitness_score: i128,
    pub resultant_data: Vec<PlacementRecord>,
    pub priority_packed: usize,
    pub ulds_used_for_priority: usize,
    pub evaluated: bool,
    pub uld_wts: Vec<i64>,
    pub count_priority_pkg: usize,
    pub count_non_priority_pkg: usize,
    pub priority_idx: Vec<usize>,
    pub non_priority_idx: Vec<usize>,
    pub tot: i128,
}

impl Config {
    /// The records form a valid placement and `uld_wts` holds the load of
    /// each ULD.
    pub open spec fn placement_ok(&self, pkgs: Seq<Package>, ulds: Seq<ULD>) -> bool {
        &&& valid_packages(pkgs)
        &&& valid_ulds(ulds)
        &&& valid_placement(pkgs, ulds, self.resultant_data@)
        &&& self.uld_wts@.len() == ulds.len()
        &&& forall|u: int|
            0 <= u < ulds.len() ==> #[trigger] self.uld_wts@[u] == uld_load(
                pkgs,
                self.resultant_data@,
                u,
                pkgs.len() as int,
            )
    }

    pub open spec fn feasible_at(
        &self,
        pkgs: Seq<Package>,
        ulds: Seq<ULD>,
        anchors: Seq<Seq<Anchor>>,
        pid: int,
        u: int,
        i: int,
        o: int,
    ) -> bool {
        feasible(pkgs, ulds, self.resultant_data@, self.uld_wts@, anchors, pid, u, i, o)
    }

    pub open spec fn key_at(
        &self,
        kind: PassKind,
        pkgs: Seq<Package>,
        ulds: Seq<ULD>,
        anchors: Seq<Seq<Anchor>>,
        pid: int,
        u: int,
        i: int,
        o: int,
    ) -> (int, int, int, int) {
        triple_key(kind, pkgs, ulds, self.uld_wts@, anchors, pid, u, i, o)
    }

    /// `best` is the first candidate of least key among the feasible
    /// triples enumerated before `(bu, bi, bo)`, or `None` if there is none.
    pub open spec fn best_before(
        &self,
        kind: PassKind,
        pkgs: Seq<Package>,
        ulds: Seq<ULD>,
        anchors: Seq<Seq<Anchor>>,
        pid: int,
        best: Option<Candidate>,
        bu: int,
        bi: int,
        bo: int,
    ) -> bool {
        match best {
            None => forall|u: int, i: int, o: int|
                #[trigger] self.feasible_at(pkgs, ulds, anchors, pid, u, i, o) ==> !triple_lt(
                    u,
                    i,
                    o,
                    bu,
                    bi,
                    bo,
                ),
            Some(c) => {
                &&& is_candidate(anchors, pkgs, pid, c)
                &&& self.feasible_at(pkgs, ulds, anchors, pid, c.uld as int, c.anchor as int, c.orient as int)
                &&& triple_lt(c.uld as int, c.anchor as int, c.orient as int, bu, bi, bo)
                &&& forall|u: int, i: int, o: int|
                    #[trigger] self.feasible_at(pkgs, ulds, anchors, pid, u, i, o) && triple_lt(
                        u,
                        i,
                        o,
                        bu,
                        bi,
                        bo,
                    ) ==> !key_lt(
                        self.key_at(kind, pkgs, ulds, anchors, pid, u, i, o),
                        self.key_at(kind, pkgs, ulds, anchors, pid, c.uld as int, c.anchor as int, c.orient as int),
                    ) && (triple_lt(u, i, o, c.uld as int, c.anchor as int, c.orient as int)
                        ==> key_lt(
                        self.key_at(kind, pkgs, ulds, anchors, pid, c.uld as int, c.anchor as int, c.orient as int),
                        self.key_at(kind, pkgs, ulds, anchors, pid, u, i, o),
                    ))
            },
        }
    }

    /// Whether package `pid` of size `orientation` with minimum corner
    /// `pt_of_place` fits in ULD `uid`: within its capacity and walls, and
    /// clear of every box already there.
    pub fn final_checker(
        &self,
        pkgs: &Vec<Package>,
        ulds: &Vec<ULD>,
        uid: usize,
        pt_of_place: &[i32; 3],
        orientation: &[i32; 3],
        pid: usize,
    ) -> (r: bool)
        requires
            self.placement_ok(pkgs@, ulds@),
            uid < ulds@.len(),
            pid < pkgs@.len(),
            pt_of_place[0] >= 0 && pt_of_place[1] >= 0 && pt_of_place[2] >= 0,
            orientation[0] >= 0 && orientation[1] >= 0 && orientation[2] >= 0,
        ensures
            r == fits_in_uld(
                pkgs@,
                ulds@,
                self.resultant_data@,
                self.uld_wts@,
                pid as int,
                uid as int,
                triple(*pt_of_place),
                triple(*orientation),
            ),
    {
        let uld = &ulds[uid];
        let pkg = &pkgs[pid];
        proof {
            crate::model::lemma_load_nonneg(pkgs@, self.resultant_data@, uid as int, pkgs@.len() as int);
            assert(ulds@[uid as int].valid());
        }
        if self.uld_wts[uid] + pkg.weight as i64 > uld.weight as i64 {
            return false;
        }
        if pt_of_place[0] as i64 + orientation[0] as i64 > uld.length as i64 || pt_of_place[1] as i64
            + orientation[1] as i64 > uld.width as i64 || pt_of_place[2] as i64
            + orientation[2] as i64 > uld.height as i64 {
            return false;
        }
        let second_pt = [
            pt_of_place[0] + orientation[0],
            pt_of_place[1] + orientation[1],
            pt_of_place[2] + orientation[2],
        ];
        let n = self.resultant_data.len();
        for k in 0..n
            invariant
                n == self.resultant_data@.len(),
                triple(second_pt) == add3(triple(*pt_of_place), triple(*orientation)),
                forall|j: int|
                    0 <= j < k && (#[trigger] self.resultant_data@[j]).uld == uid ==> !cuboids_intersect(
                        triple(*pt_of_place),
                        add3(triple(*pt_of_place), triple(*orientation)),
                        self.resultant_data@[j].lo(),
                        self.resultant_data@[j].hi(),
                    ),
        {
            let e = self.resultant_data[k];
            if e.uld == uid {
                if check_intersection_cuboids(
                    *pt_of_place,
                    second_pt,
                    [e.x1, e.y1, e.z1],
                    [e.x2, e.y2, e.z2],
                ) {
                    return false;
                }
            }
        }
        true
    }

    fn candidate_key(
        &self,
        ulds: &Vec<ULD>,
        anchors: &Vec<Vec<Anchor>>,
        kind: PassKind,
        c: &Candidate,
    ) -> (r: (i128, i128, i128, i128))
        requires
            c.uld < ulds@.len(),
            self.uld_wts@.len() == ulds@.len(),
            anchors@.len() == ulds@.len(),
        ensures
            (r.0 as int, r.1 as int, r.2 as int, r.3 as int) == cand_key(
                kind,
                ulds@,
                self.uld_wts@,
                anchor_view(anchors@),
                c.uld as int,
                c.lo(),
                c.size(),
            ),
    {
        let u = c.uld;
        let first: i128 = match kind {
            PassKind::Leftover => -(ulds[u].weight as i128 - self.uld_wts[u] as i128),
            _ => -(anchors[u].len() as i128),
        };
        let wall = min_i128(c.x as i128, ulds[u].length as i128 - c.x as i128 - c.a as i128)
            + min_i128(c.y as i128, ulds[u].width as i128 - c.y as i128 - c.b as i128);
        let dist = square(c.x) + square(c.y) + square(c.z);
        (first, c.z as i128, wall, dist)
    }

    /// Whether candidate `a` ranks strictly before candidate `b` in a pass of
    /// kind `kind`: more anchors in its ULD (spare capacity, in the leftover
    /// pass), then lower, then nearer the walls, then nearer the origin.
    pub fn sort_criteria(
        &self,
        ulds: &Vec<ULD>,
        anchors: &Vec<Vec<Anchor>>,
        kind: PassKind,
        a: &Candidate,
        b: &Candidate,
    ) -> (r: bool)
        requires
            a.uld < ulds@.len(),
            b.uld < ulds@.len(),
            self.uld_wts@.len() == ulds@.len(),
            anchors@.len() == ulds@.len(),
        ensures
            r == key_lt(
                cand_key(kind, ulds@, self.uld_wts@, anchor_view(anchors@), a.uld as int, a.lo(), a.size()),
                cand_key(kind, ulds@, self.uld_wts@, anchor_view(anchors@), b.uld as int, b.lo(), b.size()),
            ),
    {
        let ka = self.candidate_key(ulds, anchors, kind, a);
        let kb = self.candidate_key(ulds, anchors, kind, b);
        key_less(ka, kb)
    }

    /// The first candidate, in the order ULD, anchor, orientation, of least
    /// rank among the feasible places for package `pid`, or `None` if no
    /// place is feasible.
    pub fn best_candidate(
        &self,
        pkgs: &Vec<Package>,
        ulds: &Vec<ULD>,
        anchors: &Vec<Vec<Anchor>>,
        pid: usize,
        kind: PassKind,
    ) -> (r: Option<Candidate>)
        requires
            self.placement_ok(pkgs@, ulds@),
            anchors@.len() == ulds@.len(),
            pid < pkgs@.len(),
        ensures
            self.best_before(kind, pkgs@, ulds@, anchor_view(anchors@), pid as int, r, ulds@.len() as int, 0, 0),
            r is None <==> forall|u: int, i: int, o: int|
                !#[trigger] self.feasible_at(pkgs@, ulds@, anchor_view(anchors@), pid as int, u, i, o),
    {
        let pkg = &pkgs[pid];
        proof {
            assert(pkgs@[pid as int].valid());
        }
        let dims = orientations(pkg.length, pkg.width, pkg.height);
        let mut best: Option<Candidate> = None;
        let nu = ulds.len();
        for u in 0..nu
            invariant
                nu == ulds@.len(),
                self.placement_ok(pkgs@, ulds@),
                anchors@.len() == ulds@.len(),
                pid < pkgs@.len(),
                pkgs@[pid as int].valid(),
                dims@.len() == 6,
                forall|k: int|
                    0 <= k < 6 ==> #[trigger] triple(dims@[k]) == cand_size(pkgs@, pid as int, k),
                self.best_before(kind, pkgs@, ulds@, anchor_view(anchors@), pid as int, best, u as int, 0, 0),
        {
            let na = anchors[u].len();
            for i in 0..na
                invariant
                    nu == ulds@.len(),
                    u < nu,
                    na == anchors@[u as int]@.len(),
                    self.placement_ok(pkgs@, ulds@),
                    anchors@.len() == ulds@.len(),
                    pid < pkgs@.len(),
                    pkgs@[pid as int].valid(),
                    dims@.len() == 6,
                    forall|k: int|
                        0 <= k < 6 ==> #[trigger] triple(dims@[k]) == cand_size(pkgs@, pid as int, k),
                    self.best_before(kind, pkgs@, ulds@, anchor_view(anchors@), pid as int, best, u as int, i as int, 0),
            {
                let an = anchors[u][i];
                for o in 0..6usize
                    invariant
                        nu == ulds@.len(),
                        u < nu,
                        i < na,
                        na == anchors@[u as int]@.len(),
                        an == anchors@[u as int]@[i as int],
                        self.placement_ok(pkgs@, ulds@),
                        anchors@.len() == ulds@.len(),
                        pid < pkgs@.len(),
                        pkgs@[pid as int].valid(),
                        dims@.len() == 6,
                        forall|k: int|
                            0 <= k < 6 ==> #[trigger] triple(dims@[k]) == cand_size(pkgs@, pid as int, k),
                        self.best_before(kind, pkgs@, ulds@, anchor_view(anchors@), pid as int, best, u as int, i as int, o as int),
                {
                    let d = dims[o];
                    proof {
                        assert(triple(dims@[o as int]) == cand_size(pkgs@, pid as int, o as int));
                    }
                    let m = anchored_corner(an.x, an.y, an.z, an.tag, d[0], d[1], d[2]);
                    let ghost before = best;
                    if m.0 >= 0 && m.1 >= 0 && m.2 >= 0 {
                        let pt = [m.0 as i32, m.1 as i32, m.2 as i32];
                        if self.final_checker(pkgs, ulds, u, &pt, &d, pid) {
                            let cand = Candidate {
                                uld: u,
                                anchor: i,
                                orient: o,
                                x: pt[0],
                                y: pt[1],
                                z: pt[2],
                                a: d[0],
                                b: d[1],
                                c: d[2],
                            };
                            assert(self.feasible_at(pkgs@, ulds@, anchor_view(anchors@), pid as int, u as int, i as int, o as int));
                            match best {
                                None => {
                                    best = Some(cand);
                                },
                                Some(b) => {
                                    if self.sort_criteria(ulds, anchors, kind, &cand, &b) {
                                        best = Some(cand);
                                    }
                                },
                            }
                        }
                    }
                    proof {
                        assert(self.best_before(kind, pkgs@, ulds@, anchor_view(anchors@), pid as int, best, u as int, i as int, o + 1));
                    }
                }
            }
        }
        best
    }
}

} // verus!
