//! The three passes of the placer (priority, economy, leftover) and the
//! step that places one package.
use vstd::prelude::*;

use crate::anchors::{box_anchors, without};
use crate::geometry::orientation;
use crate::model::{anchor_view, is_placed, uld_load, Anchor, Package, PlacementRecord, ULD};
use crate::placer::{
    add3, cand_lo, cand_size, feasible, fits_in_uld, key_lt, triple_key, triple_lt, Candidate, Config,
    PassKind,
};

verus! {

/// Orientation `o` at anchor `i` of ULD `u` is the first feasible place of
/// least key for package `pid`.
pub open spec fn first_min(
    kind: PassKind,
    pkgs: Seq<Package>,
    ulds: Seq<ULD>,
    recs: Seq<PlacementRecord>,
    wts: Seq<i64>,
    anchors: Seq<Seq<Anchor>>,
    pid: int,
    u: int,
    i: int,
    o: int,
) -> bool {
    &&& feasible(pkgs, ulds, recs, wts, anchors, pid, u, i, o)
    &&& forall|u2: int, i2: int, o2: int|
        #[trigger] feasible(pkgs, ulds, recs, wts, anchors, pid, u2, i2, o2) ==> !key_lt(
            triple_key(kind, pkgs, ulds, wts, anchors, pid, u2, i2, o2),
            triple_key(kind, pkgs, ulds, wts, anchors, pid, u, i, o),
        ) && (triple_lt(u2, i2, o2, u, i, o) ==> key_lt(
            triple_key(kind, pkgs, ulds, wts, anchors, pid, u, i, o),
            triple_key(kind, pkgs, ulds, wts, anchors, pid, u2, i2, o2),
        ))
}

/// One step of a pass on the state (records, ULD loads, anchor sets): a
/// package not yet placed goes to its first feasible place of least key,
/// which adds its record and weight and replaces the anchor it grew from by
/// the anchors of its box; otherwise nothing changes.
pub open spec fn place_step(
    kind: PassKind,
    pkgs: Seq<Package>,
    ulds: Seq<ULD>,
    st: (Seq<PlacementRecord>, Seq<i64>, Seq<Seq<Anchor>>),
    pid: usize,
) -> (Seq<PlacementRecord>, Seq<i64>, Seq<Seq<Anchor>>) {
    let (recs, wts, anchors) = st;
    if is_placed(recs, pid as int) || !(exists|t: (int, int, int)|
        first_min(kind, pkgs, ulds, recs, wts, anchors, pid as int, t.0, t.1, t.2)) {
        st
    } else {
        let t = choose|t: (int, int, int)|
            first_min(kind, pkgs, ulds, recs, wts, anchors, pid as int, t.0, t.1, t.2);
        let m = cand_lo(anchors, pkgs, pid as int, t.0, t.1, t.2);
        let d = cand_size(pkgs, pid as int, t.2);
        let rec = PlacementRecord {
            pkg: pid,
            uld: t.0 as usize,
            x1: m.0 as i32,
            y1: m.1 as i32,
            z1: m.2 as i32,
            x2: (m.0 + d.0) as i32,
            y2: (m.1 + d.1) as i32,
            z2: (m.2 + d.2) as i32,
        };
        (
            recs.push(rec),
            wts.update(t.0, (wts[t.0] + pkgs[pid as int].weight) as i64),
            anchors.update(
                t.0,
                without(anchors[t.0], anchors[t.0][t.1]) + box_anchors(m.0, m.1, m.2, d.0, d.1, d.2),
            ),
        )
    }
}

/// A whole pass: the steps for the packages of `order`, in order.
pub open spec fn place_pass(
    kind: PassKind,
    pkgs: Seq<Package>,
    ulds: Seq<ULD>,
    st: (Seq<PlacementRecord>, Seq<i64>, Seq<Seq<Anchor>>),
    order: Seq<usize>,
) -> (Seq<PlacementRecord>, Seq<i64>, Seq<Seq<Anchor>>)
    decreases order.len(),
{
    if order.len() == 0 {
        st
    } else {
        place_step(kind, pkgs, ulds, place_pass(kind, pkgs, ulds, st, order.drop_last()), order.last())
    }
}

pub proof fn lemma_first_min_unique(
    kind: PassKind,
    pkgs: Seq<Package>,
    ulds: Seq<ULD>,
    recs: Seq<PlacementRecord>,
    wts: Seq<i64>,
    anchors: Seq<Seq<Anchor>>,
    pid: int,
    a: (int, int, int),
    b: (int, int, int),
)
    requires
        first_min(kind, pkgs, ulds, recs, wts, anchors, pid, a.0, a.1, a.2),
        first_min(kind, pkgs, ulds, recs, wts, anchors, pid, b.0, b.1, b.2),
    ensures
        a == b,
{
    assert(feasible(pkgs, ulds, recs, wts, anchors, pid, a.0, a.1, a.2));
    assert(feasible(pkgs, ulds, recs, wts, anchors, pid, b.0, b.1, b.2));
}

impl Config {
    /// Everything but the records and the ULD loads is as in `other`.
    pub open spec fn keeps_genes(&self, other: &Config) -> bool {
        &&& self.priority_order == other.priority_order
        &&& self.non_priority_order == other.non_priority_order
        &&& self.enc_priority_ord == other.enc_priority_ord
        &&& self.enc_non_priority_ord == other.enc_non_priority_ord
        &&& self.fitness_score == other.fitness_score
        &&& self.priority_packed == other.priority_packed
        &&& self.ulds_used_for_priority == other.ulds_used_for_priority
        &&& self.evaluated == other.evaluated
        &&& self.count_priority_pkg == other.count_priority_pkg
        &&& self.count_non_priority_pkg == other.count_non_priority_pkg
        &&& self.priority_idx == other.priority_idx
        &&& self.non_priority_idx == other.non_priority_idx
        &&& self.tot == other.tot
    }

    /// Whether some record holds package `pid`.
    pub fn is_packed(&self, pid: usize) -> (r: bool)
        ensures
            r == is_placed(self.resultant_data@, pid as int),
    {
        let n = self.resultant_data.len();
        for k in 0..n
            invariant
                n == self.resultant_data@.len(),
                forall|j: int| 0 <= j < k ==> (#[trigger] self.resultant_data@[j]).pkg != pid,
        {
            if self.resultant_data[k].pkg == pid {
                return true;
            }
        }
        false
    }

    /// Records package `pid` at candidate `cand` and adds its weight to the
    /// load of the candidate's ULD.
    pub fn update_resultant_data(
        &mut self,
        pkgs: &Vec<Package>,
        ulds: &Vec<ULD>,
        pid: usize,
        cand: &Candidate,
    )
        requires
            old(self).placement_ok(pkgs@, ulds@),
            pid < pkgs@.len(),
            !is_placed(old(self).resultant_data@, pid as int),
            cand.uld < ulds@.len(),
            cand.orient < 6,
            cand.size() == cand_size(pkgs@, pid as int, cand.orient as int),
            0 <= cand.x && 0 <= cand.y && 0 <= cand.z,
            fits_in_uld(
                pkgs@,
                ulds@,
                old(self).resultant_data@,
                old(self).uld_wts@,
                pid as int,
                cand.uld as int,
                cand.lo(),
                cand.size(),
            ),
        ensures
            final(self).placement_ok(pkgs@, ulds@),
            final(self).keeps_genes(old(self)),
            final(self).resultant_data@ == old(self).resultant_data@.push(cand.record(pid)),
            final(self).uld_wts@ == old(self).uld_wts@.update(
                cand.uld as int,
                (old(self).uld_wts@[cand.uld as int] + pkgs@[pid as int].weight) as i64,
            ),
    {
        let ghost old_recs = self.resultant_data@;
        let ghost pk = pkgs@[pid as int];
        let ghost uu = ulds@[cand.uld as int];
        proof {
            assert(pk.valid());
            assert(uu.valid());
            crate::model::lemma_load_nonneg(pkgs@, old_recs, cand.uld as int, pkgs@.len() as int);
        }
        let u = cand.uld;
        let rec = PlacementRecord {
            pkg: pid,
            uld: u,
            x1: cand.x,
            y1: cand.y,
            z1: cand.z,
            x2: cand.x + cand.a,
            y2: cand.y + cand.b,
            z2: cand.z + cand.c,
        };
        assert(rec == cand.record(pid));
        self.resultant_data.push(rec);
        let w = self.uld_wts[u] + pkgs[pid].weight as i64;
        self.uld_wts.set(u, w);
        proof {
            let recs = self.resultant_data@;
            let n = old_recs.len() as int;
            assert(recs[n] == rec);
            assert(orientation(
                pk.length as int,
                pk.width as int,
                pk.height as int,
                cand.orient as int,
            ) == rec.size());
            assert forall|i: int| 0 <= i < recs.len() implies crate::model::record_fits(
                pkgs@,
                ulds@,
                #[trigger] recs[i],
            ) by {
                if i < n {
                    assert(recs[i] == old_recs[i]);
                }
            }
            assert forall|i: int, j: int|
                0 <= i < recs.len() && 0 <= j < recs.len() && i != j implies !crate::model::records_clash(
                #[trigger] recs[i],
                #[trigger] recs[j],
            ) by {
                if i < n && j < n {
                    assert(recs[i] == old_recs[i] && recs[j] == old_recs[j]);
                } else if i < n {
                    assert(recs[i] == old_recs[i]);
                    assert(add3(cand.lo(), cand.size()) == rec.hi());
                } else {
                    assert(recs[j] == old_recs[j]);
                    assert(add3(cand.lo(), cand.size()) == rec.hi());
                }
            }
            assert forall|i: int, j: int|
                0 <= i < recs.len() && 0 <= j < recs.len() && i != j implies (#[trigger] recs[i]).pkg
                != (#[trigger] recs[j]).pkg by {
                if i < n && j < n {
                    assert(recs[i] == old_recs[i] && recs[j] == old_recs[j]);
                } else if i < n {
                    assert(recs[i] == old_recs[i]);
                } else {
                    assert(recs[j] == old_recs[j]);
                }
            }
            assert forall|v: int| 0 <= v < ulds@.len() implies #[trigger] self.uld_wts@[v]
                == uld_load(pkgs@, recs, v, pkgs@.len() as int) by {
                crate::model::lemma_load_push(pkgs@, old_recs, rec, v, pkgs@.len() as int);
            }
            assert forall|v: int| 0 <= v < ulds@.len() implies #[trigger] uld_load(
                pkgs@,
                recs,
                v,
                pkgs@.len() as int,
            ) <= ulds@[v].weight by {
                assert(self.uld_wts@[v] == uld_load(pkgs@, recs, v, pkgs@.len() as int));
                crate::model::lemma_load_push(pkgs@, old_recs, rec, v, pkgs@.len() as int);
            }
        }
    }

    /// Puts package `pid` at the best feasible place for a pass of kind
    /// `kind` and updates the anchors; returns the place, or `None` (and
    /// changes nothing) if no place is feasible.
    pub fn place_one(
        &mut self,
        pkgs: &Vec<Package>,
        ulds: &Vec<ULD>,
        uld_pts: &mut Vec<Vec<Anchor>>,
        pid: usize,
        kind: PassKind,
    ) -> (r: Option<Candidate>)
        requires
            old(self).placement_ok(pkgs@, ulds@),
            old(uld_pts)@.len() == ulds@.len(),
            pid < pkgs@.len(),
            !is_placed(old(self).resultant_data@, pid as int),
        ensures
            final(self).placement_ok(pkgs@, ulds@),
            final(self).keeps_genes(old(self)),
            final(uld_pts)@.len() == ulds@.len(),
            old(self).best_before(
                kind,
                pkgs@,
                ulds@,
                anchor_view(old(uld_pts)@),
                pid as int,
                r,
                ulds@.len() as int,
                0,
                0,
            ),
            (final(self).resultant_data@, final(self).uld_wts@, anchor_view(final(uld_pts)@))
                == place_step(
                kind,
                pkgs@,
                ulds@,
                (old(self).resultant_data@, old(self).uld_wts@, anchor_view(old(uld_pts)@)),
                pid,
            ),
            r is None ==> {
                &&& final(self).resultant_data@ == old(self).resultant_data@
                &&& final(self).uld_wts@ == old(self).uld_wts@
                &&& final(uld_pts)@ == old(uld_pts)@
                &&& forall|u: int, i: int, o: int|
                    !#[trigger] old(self).feasible_at(pkgs@, ulds@, anchor_view(old(uld_pts)@), pid as int, u, i, o)
            },
            r matches Some(c) ==> {
                &&& final(self).resultant_data@ == old(self).resultant_data@.push(c.record(pid))
                &&& final(uld_pts)@[c.uld as int]@ == without(
                    old(uld_pts)@[c.uld as int]@,
                    old(uld_pts)@[c.uld as int]@[c.anchor as int],
                ) + box_anchors(c.x as int, c.y as int, c.z as int, c.a as int, c.b as int, c.c as int)
                &&& forall|v: int|
                    0 <= v < ulds@.len() && v != c.uld ==> #[trigger] final(uld_pts)@[v]
                        == old(uld_pts)@[v]
            },
    {
        let best = self.best_candidate(pkgs, ulds, uld_pts, pid, kind);
        match best {
            None => {
                proof {
                    let av = anchor_view(uld_pts@);
                    if exists|t: (int, int, int)|
                        first_min(kind, pkgs@, ulds@, self.resultant_data@, self.uld_wts@, av, pid as int, t.0, t.1, t.2) {
                        let t = choose|t: (int, int, int)|
                            first_min(kind, pkgs@, ulds@, self.resultant_data@, self.uld_wts@, av, pid as int, t.0, t.1, t.2);
                        assert(self.feasible_at(pkgs@, ulds@, av, pid as int, t.0, t.1, t.2));
                    }
                }
                None
            },
            Some(c) => {
                proof {
                    let pk = pkgs@[pid as int];
                    assert(pk.valid());
                    let uu = ulds@[c.uld as int];
                    assert(uu.valid());
                }
                let ghost av = anchor_view(uld_pts@);
                let ghost recs0 = self.resultant_data@;
                let ghost wts0 = self.uld_wts@;
                proof {
                    assert forall|u2: int, i2: int, o2: int|
                        #[trigger] feasible(pkgs@, ulds@, recs0, wts0, av, pid as int, u2, i2, o2) implies !key_lt(
                        triple_key(kind, pkgs@, ulds@, wts0, av, pid as int, u2, i2, o2),
                        triple_key(kind, pkgs@, ulds@, wts0, av, pid as int, c.uld as int, c.anchor as int, c.orient as int),
                    ) && (triple_lt(u2, i2, o2, c.uld as int, c.anchor as int, c.orient as int) ==> key_lt(
                        triple_key(kind, pkgs@, ulds@, wts0, av, pid as int, c.uld as int, c.anchor as int, c.orient as int),
                        triple_key(kind, pkgs@, ulds@, wts0, av, pid as int, u2, i2, o2),
                    )) by {
                        assert(self.feasible_at(pkgs@, ulds@, av, pid as int, u2, i2, o2));
                    }
                }
                self.update_resultant_data(pkgs, ulds, pid, &c);
                self.add_reference_points(uld_pts, &c);
                proof {
                    let t = (c.uld as int, c.anchor as int, c.orient as int);
                    assert(first_min(kind, pkgs@, ulds@, recs0, wts0, av, pid as int, t.0, t.1, t.2));
                    let t2 = choose|t2: (int, int, int)|
                        first_min(kind, pkgs@, ulds@, recs0, wts0, av, pid as int, t2.0, t2.1, t2.2);
                    lemma_first_min_unique(kind, pkgs@, ulds@, recs0, wts0, av, pid as int, t, t2);
                    assert(anchor_view(uld_pts@) =~= av.update(
                        t.0,
                        without(av[t.0], av[t.0][t.1]) + box_anchors(
                            c.x as int,
                            c.y as int,
                            c.z as int,
                            c.a as int,
                            c.b as int,
                            c.c as int,
                        ),
                    ));
                }
                Some(c)
            },
        }
    }

    /// Runs one pass over `order`: each package that is not yet placed goes
    /// to its best feasible place, if any.
    fn run_pass(
        &mut self,
        pkgs: &Vec<Package>,
        ulds: &Vec<ULD>,
        uld_pts: &mut Vec<Vec<Anchor>>,
        order: &Vec<usize>,
        kind: PassKind,
    )
        requires
            old(self).placement_ok(pkgs@, ulds@),
            old(uld_pts)@.len() == ulds@.len(),
            forall|k: int| 0 <= k < order@.len() ==> #[trigger] order@[k] < pkgs@.len(),
        ensures
            final(self).placement_ok(pkgs@, ulds@),
            final(self).keeps_genes(old(self)),
            final(uld_pts)@.len() == ulds@.len(),
            old(self).resultant_data@.len() <= final(self).resultant_data@.len(),
            final(self).resultant_data@.subrange(0, old(self).resultant_data@.len() as int)
                == old(self).resultant_data@,
            forall|k: int|
                old(self).resultant_data@.len() <= k < final(self).resultant_data@.len()
                    ==> order@.contains(#[trigger] final(self).resultant_data@[k].pkg),
            (final(self).resultant_data@, final(self).uld_wts@, anchor_view(final(uld_pts)@))
                == place_pass(
                kind,
                pkgs@,
                ulds@,
                (old(self).resultant_data@, old(self).uld_wts@, anchor_view(old(uld_pts)@)),
                order@,
            ),
    {
        let ghost start = self.resultant_data@;
        let ghost st0 = (self.resultant_data@, self.uld_wts@, anchor_view(uld_pts@));
        let ghost first = *self;
        let n = order.len();
        for k in 0..n
            invariant
                n == order@.len(),
                forall|j: int| 0 <= j < order@.len() ==> #[trigger] order@[j] < pkgs@.len(),
                self.placement_ok(pkgs@, ulds@),
                self.keeps_genes(&first),
                uld_pts@.len() == ulds@.len(),
                start.len() <= self.resultant_data@.len(),
                self.resultant_data@.subrange(0, start.len() as int) == start,
                forall|j: int|
                    start.len() <= j < self.resultant_data@.len() ==> order@.contains(
                        #[trigger] self.resultant_data@[j].pkg,
                    ),
                (self.resultant_data@, self.uld_wts@, anchor_view(uld_pts@)) == place_pass(
                    kind,
                    pkgs@,
                    ulds@,
                    st0,
                    order@.subrange(0, k as int),
                ),
        {
            let pid = order[k];
            proof {
                let s1 = order@.subrange(0, k + 1);
                assert(s1.drop_last() =~= order@.subrange(0, k as int));
                assert(s1.last() == pid);
            }
            if !self.is_packed(pid) {
                let ghost before = self.resultant_data@;
                let placed = self.place_one(pkgs, ulds, uld_pts, pid, kind);
                proof {
                    if placed is Some {
                        assert(self.resultant_data@.subrange(0, start.len() as int)
                            =~= before.subrange(0, start.len() as int));
                        let m = before.len() as int;
                        assert(self.resultant_data@[m].pkg == pid);
                        assert(order@[k as int] == pid);
                        assert forall|j: int|
                            start.len() <= j < self.resultant_data@.len() implies order@.contains(
                            #[trigger] self.resultant_data@[j].pkg,
                        ) by {
                            if j < m {
                                assert(self.resultant_data@[j] == before[j]);
                            }
                        }
                    }
                }
            }
        }
        assert(order@.subrange(0, n as int) =~= order@);
    }

    /// The priority pass: the priority packages in decoded order.
    pub fn place_priority(
        &mut self,
        pkgs: &Vec<Package>,
        ulds: &Vec<ULD>,
        uld_pts: &mut Vec<Vec<Anchor>>,
    )
        requires
            old(self).placement_ok(pkgs@, ulds@),
            old(uld_pts)@.len() == ulds@.len(),
            forall|k: int|
                0 <= k < old(self).priority_order@.len() ==> #[trigger] old(self).priority_order@[k] < pkgs@.len(),
        ensures
            final(self).placement_ok(pkgs@, ulds@),
            final(self).keeps_genes(old(self)),
            final(uld_pts)@.len() == ulds@.len(),
            old(self).resultant_data@.len() <= final(self).resultant_data@.len(),
            final(self).resultant_data@.subrange(0, old(self).resultant_data@.len() as int)
                == old(self).resultant_data@,
            forall|k: int|
                old(self).resultant_data@.len() <= k < final(self).resultant_data@.len()
                    ==> old(self).priority_order@.contains(
                    #[trigger] final(self).resultant_data@[k].pkg,
                ),
            (final(self).resultant_data@, final(self).uld_wts@, anchor_view(final(uld_pts)@))
                == place_pass(
                PassKind::Priority,
                pkgs@,
                ulds@,
                (old(self).resultant_data@, old(self).uld_wts@, anchor_view(old(uld_pts)@)),
                old(self).priority_order@,
            ),
    {
        let order = self.priority_order.clone();
        self.run_pass(pkgs, ulds, uld_pts, &order, PassKind::Priority);
    }

    /// The economy pass: the economy packages in decoded order.
    pub fn place_economy(
        &mut self,
        pkgs: &Vec<Package>,
        ulds: &Vec<ULD>,
        uld_pts: &mut Vec<Vec<Anchor>>,
    )
        requires
            old(self).placement_ok(pkgs@, ulds@),
            old(uld_pts)@.len() == ulds@.len(),
            forall|k: int|
                0 <= k < old(self).non_priority_order@.len() ==> #[trigger] old(self).non_priority_order@[k] < pkgs@.len(),
        ensures
            final(self).placement_ok(pkgs@, ulds@),
            final(self).keeps_genes(old(self)),
            final(uld_pts)@.len() == ulds@.len(),
            old(self).resultant_data@.len() <= final(self).resultant_data@.len(),
            final(self).resultant_data@.subrange(0, old(self).resultant_data@.len() as int)
                == old(self).resultant_data@,
            forall|k: int|
                old(self).resultant_data@.len() <= k < final(self).resultant_data@.len()
                    ==> old(self).non_priority_order@.contains(
                    #[trigger] final(self).resultant_data@[k].pkg,
                ),
            (final(self).resultant_data@, final(self).uld_wts@, anchor_view(final(uld_pts)@))
                == place_pass(
                PassKind::Economy,
                pkgs@,
                ulds@,
                (old(self).resultant_data@, old(self).uld_wts@, anchor_view(old(uld_pts)@)),
                old(self).non_priority_order@,
            ),
    {
        let order = self.non_priority_order.clone();
        self.run_pass(pkgs, ulds, uld_pts, &order, PassKind::Economy);
    }

    /// The leftover pass over `order` (the economy packages still unplaced),
    /// ranking ULDs by spare capacity.
    pub fn place_leftover(
        &mut self,
        pkgs: &Vec<Package>,
        ulds: &Vec<ULD>,
        uld_pts: &mut Vec<Vec<Anchor>>,
        order: Vec<usize>,
    )
        requires
            old(self).placement_ok(pkgs@, ulds@),
            old(uld_pts)@.len() == ulds@.len(),
            forall|k: int| 0 <= k < order@.len() ==> #[trigger] order@[k] < pkgs@.len(),
        ensures
            final(self).placement_ok(pkgs@, ulds@),
            final(self).keeps_genes(old(self)),
            final(uld_pts)@.len() == ulds@.len(),
            old(self).resultant_data@.len() <= final(self).resultant_data@.len(),
            final(self).resultant_data@.subrange(0, old(self).resultant_data@.len() as int)
                == old(self).resultant_data@,
            forall|k: int|
                old(self).resultant_data@.len() <= k < final(self).resultant_data@.len()
                    ==> order@.contains(#[trigger] final(self).resultant_data@[k].pkg),
            (final(self).resultant_data@, final(self).uld_wts@, anchor_view(final(uld_pts)@))
                == place_pass(
                PassKind::Leftover,
                pkgs@,
                ulds@,
                (old(self).resultant_data@, old(self).uld_wts@, anchor_view(old(uld_pts)@)),
                order@,
            ),
    {
        self.run_pass(pkgs, ulds, uld_pts, &order, PassKind::Leftover);
    }
}

} // verus!
