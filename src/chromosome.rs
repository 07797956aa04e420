//! A chromosome's life: random keys, decoding them to package orders,
//! placing and compacting, and scoring the result.
use rand::rngs::StdRng;
use vstd::prelude::*;

use crate::anchors::{record_anchors, uld_corners};
use crate::compactor::compacted;
use crate::model::{
    anchor_view, is_placed, uld_load, valid_packages, valid_ulds, Anchor, Package, PlacementRecord, ULD,
};
use crate::ordering::{sort_indices, sort_spec, stably_sorted};
use crate::passes::place_pass;
use crate::placer::{Config, PassKind};
use crate::random::draw_below;

verus! {

/// The fitness penalty per priority package (subtracted for each one placed).
pub const PENALTY_COST: i128 = 10_000_000;

/// The fitness cost of each ULD that holds priority cargo.
pub const COST_PER_ULD: i128 = 5_000;

/// Random keys are drawn from `0..KEY_SPAN`, standing for `k / KEY_SPAN` in `[0, 1)`.
pub const KEY_SPAN: u64 = 0x1_0000_0000;

/// The indices `p < n` whose package has priority flag `want`, ascending.
pub open spec fn indices_with(pkgs: Seq<Package>, n: int, want: bool) -> Seq<usize>
    decreases n,
{
    if n <= 0 {
        seq![]
    } else if pkgs[n - 1].priority == want {
        indices_with(pkgs, n - 1, want).push((n - 1) as usize)
    } else {
        indices_with(pkgs, n - 1, want)
    }
}

pub proof fn lemma_indices_below(pkgs: Seq<Package>, n: int, want: bool)
    ensures
        forall|k: int|
            0 <= k < indices_with(pkgs, n, want).len() ==> #[trigger] indices_with(pkgs, n, want)[k]
                < n,
    decreases n,
{
    if n > 0 {
        lemma_indices_below(pkgs, n - 1, want);
        let prev = indices_with(pkgs, n - 1, want);
        assert forall|k: int|
            0 <= k < indices_with(pkgs, n, want).len() implies #[trigger] indices_with(
            pkgs,
            n,
            want,
        )[k] < n by {
            if k < prev.len() {
                assert(prev[k] < n - 1);
            }
        }
    }
}

pub open spec fn key_triples(enc: Seq<u64>) -> Seq<(i128, i128, i128)> {
    Seq::new(enc.len(), |k: int| (enc[k] as i128, 0i128, 0i128))
}

/// The entries of `idx` sorted by the keys `enc`, equal keys in position order.
pub open spec fn decoded(enc: Seq<u64>, idx: Seq<usize>) -> Seq<usize> {
    let s = sort_spec(key_triples(enc), enc.len() as int);
    Seq::new(s.len(), |k: int| idx[s[k] as int])
}

/// `order` lists `idx` sorted by the keys `enc`, equal keys in position order.
pub open spec fn decodes_to(enc: Seq<u64>, idx: Seq<usize>, order: Seq<usize>) -> bool {
    order == decoded(enc, idx)
}

/// Fresh anchor sets: for each ULD, the anchors of its placed boxes in
/// record order, then its own corners.
pub open spec fn seeded_anchors(ulds: Seq<ULD>, recs: Seq<PlacementRecord>) -> Seq<Seq<Anchor>> {
    Seq::new(
        ulds.len(),
        |u: int|
            record_anchors(recs, u) + uld_corners(
                ulds[u].length as int,
                ulds[u].width as int,
                ulds[u].height as int,
            ),
    )
}

/// The entries of `order` whose package no record holds, in order.
pub open spec fn unplaced(recs: Seq<PlacementRecord>, order: Seq<usize>) -> Seq<usize>
    decreases order.len(),
{
    if order.len() == 0 {
        seq![]
    } else if is_placed(recs, order.last() as int) {
        unplaced(recs, order.drop_last())
    } else {
        unplaced(recs, order.drop_last()).push(order.last())
    }
}

/// The records and loads after the placer runs on `(recs, wts)` with
/// priority order `prio` and economy order `econ`: the priority pass,
/// compaction, the economy pass, compaction, then the leftover pass over the
/// economy packages still unplaced, anchors seeded afresh before each pass.
pub open spec fn placer_run(
    pkgs: Seq<Package>,
    ulds: Seq<ULD>,
    recs: Seq<PlacementRecord>,
    wts: Seq<i64>,
    prio: Seq<usize>,
    econ: Seq<usize>,
) -> (Seq<PlacementRecord>, Seq<i64>) {
    let p1 = place_pass(PassKind::Priority, pkgs, ulds, (recs, wts, seeded_anchors(ulds, recs)), prio);
    let c1 = compacted(ulds, p1.0);
    let p2 = place_pass(PassKind::Economy, pkgs, ulds, (c1, p1.1, seeded_anchors(ulds, c1)), econ);
    let c2 = compacted(ulds, p2.0);
    let p3 = place_pass(
        PassKind::Leftover,
        pkgs,
        ulds,
        (c2, p2.1, seeded_anchors(ulds, c2)),
        unplaced(c2, econ),
    );
    (p3.0, p3.1)
}

pub open spec fn total_cost(pkgs: Seq<Package>, n: int) -> int
    decreases n,
{
    if n <= 0 {
        0
    } else {
        total_cost(pkgs, n - 1) + pkgs[n - 1].cost
    }
}

/// The cost of the economy packages that `recs` places.
pub open spec fn economy_revenue(pkgs: Seq<Package>, recs: Seq<PlacementRecord>) -> int
    decreases recs.len(),
{
    if recs.len() == 0 {
        0
    } else {
        economy_revenue(pkgs, recs.drop_last()) + if pkgs[recs.last().pkg as int].priority {
            0
        } else {
            pkgs[recs.last().pkg as int].cost as int
        }
    }
}

/// The number of priority packages that `recs` places.
pub open spec fn priority_placed(pkgs: Seq<Package>, recs: Seq<PlacementRecord>) -> int
    decreases recs.len(),
{
    if recs.len() == 0 {
        0
    } else {
        priority_placed(pkgs, recs.drop_last()) + if pkgs[recs.last().pkg as int].priority {
            1int
        } else {
            0
        }
    }
}

pub open spec fn uld_has_priority(pkgs: Seq<Package>, recs: Seq<PlacementRecord>, u: int) -> bool {
    exists|i: int|
        0 <= i < recs.len() && #[trigger] recs[i].uld == u && pkgs[recs[i].pkg as int].priority
}

/// The number of ULDs `u < n` that hold a priority package.
pub open spec fn priority_ulds(pkgs: Seq<Package>, recs: Seq<PlacementRecord>, n: int) -> int
    decreases n,
{
    if n <= 0 {
        0
    } else {
        priority_ulds(pkgs, recs, n - 1) + if uld_has_priority(pkgs, recs, n - 1) {
            1int
        } else {
            0
        }
    }
}

/// The fitness of a placement (lower is better): the total cost of all
/// packages, less the revenue of the economy packages placed, less the
/// penalty for each priority package placed, plus the cost of each ULD that
/// holds priority cargo.
pub open spec fn fitness_of(pkgs: Seq<Package>, ulds: Seq<ULD>, recs: Seq<PlacementRecord>) -> int {
    total_cost(pkgs, pkgs.len() as int) - economy_revenue(pkgs, recs) - PENALTY_COST
        * priority_placed(pkgs, recs) + COST_PER_ULD * priority_ulds(pkgs, recs, ulds.len() as int)
}

proof fn lemma_total_cost_bounds(pkgs: Seq<Package>, n: int)
    requires
        valid_packages(pkgs),
        0 <= n <= pkgs.len(),
    ensures
        0 <= total_cost(pkgs, n) <= n * 0x8000_0000,
    decreases n,
{
    if n > 0 {
        lemma_total_cost_bounds(pkgs, n - 1);
        assert(pkgs[n - 1].valid());
    }
}

impl Config {
    /// The priority and economy index lists match the packages, and each
    /// key vector has one key per package of its class.
    pub open spec fn layout_ok(&self, pkgs: Seq<Package>) -> bool {
        &&& self.priority_idx@ == indices_with(pkgs, pkgs.len() as int, true)
        &&& self.non_priority_idx@ == indices_with(pkgs, pkgs.len() as int, false)
        &&& self.count_priority_pkg == self.priority_idx@.len()
        &&& self.count_non_priority_pkg == self.non_priority_idx@.len()
        &&& self.enc_priority_ord@.len() == self.priority_idx@.len()
        &&& self.enc_non_priority_ord@.len() == self.non_priority_idx@.len()
    }

    /// Evaluated: its orders are the decoding of its keys, its records a
    /// valid placement, and its fitness that of the placement.
    pub open spec fn evaluated_ok(&self, pkgs: Seq<Package>, ulds: Seq<ULD>) -> bool {
        &&& self.layout_ok(pkgs)
        &&& self.evaluated
        &&& self.placement_ok(pkgs, ulds)
        &&& decodes_to(self.enc_priority_ord@, self.priority_idx@, self.priority_order@)
        &&& decodes_to(self.enc_non_priority_ord@, self.non_priority_idx@, self.non_priority_order@)
        &&& self.fitness_score == fitness_of(pkgs, ulds, self.resultant_data@)
        &&& self.priority_packed == priority_placed(pkgs, self.resultant_data@)
        &&& self.ulds_used_for_priority == priority_ulds(pkgs, self.resultant_data@, ulds.len() as int)
        &&& self.tot == total_cost(pkgs, pkgs.len() as int)
        &&& self.resultant_data@ == placer_run(
            pkgs,
            ulds,
            seq![],
            Seq::new(ulds.len(), |u: int| 0i64),
            self.priority_order@,
            self.non_priority_order@,
        ).0
    }

    /// A fresh, unevaluated configuration for these packages and ULDs, with
    /// no keys yet.
    pub fn new(all_pkgs: &Vec<Package>, all_ulds: &Vec<ULD>) -> (r: Self)
        ensures
            r.priority_idx@ == indices_with(all_pkgs@, all_pkgs@.len() as int, true),
            r.non_priority_idx@ == indices_with(all_pkgs@, all_pkgs@.len() as int, false),
            r.count_priority_pkg == r.priority_idx@.len(),
            r.count_non_priority_pkg == r.non_priority_idx@.len(),
            r.count_priority_pkg + r.count_non_priority_pkg == all_pkgs@.len(),
            r.enc_priority_ord@.len() == 0,
            r.enc_non_priority_ord@.len() == 0,
            r.priority_order@.len() == 0,
            r.non_priority_order@.len() == 0,
            r.resultant_data@.len() == 0,
            r.uld_wts@ == Seq::new(all_ulds@.len(), |u: int| 0i64),
            !r.evaluated,
            r.fitness_score == -1,
    {
        let n = all_pkgs.len();
        let mut priority_idx: Vec<usize> = Vec::new();
        let mut non_priority_idx: Vec<usize> = Vec::new();
        for i in 0..n
            invariant
                n == all_pkgs@.len(),
                priority_idx@ == indices_with(all_pkgs@, i as int, true),
                non_priority_idx@ == indices_with(all_pkgs@, i as int, false),
                priority_idx@.len() + non_priority_idx@.len() == i,
        {
            if all_pkgs[i].priority {
                priority_idx.push(i);
            } else {
                non_priority_idx.push(i);
            }
        }
        let mut uld_wts: Vec<i64> = Vec::new();
        for u in 0..all_ulds.len()
            invariant
                uld_wts@ == Seq::new(u as nat, |v: int| 0i64),
        {
            uld_wts.push(0);
            assert(uld_wts@ =~= Seq::new((u + 1) as nat, |v: int| 0i64));
        }
        Config {
            priority_order: Vec::new(),
            non_priority_order: Vec::new(),
            enc_priority_ord: Vec::new(),
            enc_non_priority_ord: Vec::new(),
            fitness_score: -1,
            resultant_data: Vec::new(),
            priority_packed: 0,
            ulds_used_for_priority: 0,
            evaluated: false,
            uld_wts,
            count_priority_pkg: priority_idx.len(),
            count_non_priority_pkg: non_priority_idx.len(),
            priority_idx,
            non_priority_idx,
            tot: 0,
        }
    }

    /// Draws a fresh random key for every package of each class.
    pub fn initialize(&mut self, rng: &mut StdRng)
        ensures
            final(self).enc_priority_ord@.len() == old(self).count_priority_pkg,
            final(self).enc_non_priority_ord@.len() == old(self).count_non_priority_pkg,
            forall|k: int|
                0 <= k < final(self).enc_priority_ord@.len() ==> #[trigger] final(self).enc_priority_ord@[k] < KEY_SPAN,
            forall|k: int|
                0 <= k < final(self).enc_non_priority_ord@.len() ==> #[trigger] final(self).enc_non_priority_ord@[k] < KEY_SPAN,
            final(self).priority_order == old(self).priority_order,
            final(self).non_priority_order == old(self).non_priority_order,
            final(self).resultant_data == old(self).resultant_data,
            final(self).uld_wts == old(self).uld_wts,
            final(self).priority_idx == old(self).priority_idx,
            final(self).non_priority_idx == old(self).non_priority_idx,
            final(self).count_priority_pkg == old(self).count_priority_pkg,
            final(self).count_non_priority_pkg == old(self).count_non_priority_pkg,
            final(self).evaluated == old(self).evaluated,
            final(self).fitness_score == old(self).fitness_score,
    {
        let mut p: Vec<u64> = Vec::new();
        for k in 0..self.count_priority_pkg
            invariant
                p@.len() == k,
                forall|j: int| 0 <= j < k ==> #[trigger] p@[j] < KEY_SPAN,
        {
            p.push(draw_below(rng, KEY_SPAN));
        }
        let mut e: Vec<u64> = Vec::new();
        for k in 0..self.count_non_priority_pkg
            invariant
                e@.len() == k,
                forall|j: int| 0 <= j < k ==> #[trigger] e@[j] < KEY_SPAN,
        {
            e.push(draw_below(rng, KEY_SPAN));
        }
        self.enc_priority_ord = p;
        self.enc_non_priority_ord = e;
    }
}

/// The entries of `idx` sorted by the keys `enc` (stable on equal keys).
fn decode_keys(enc: &Vec<u64>, idx: &Vec<usize>) -> (r: Vec<usize>)
    requires
        enc@.len() == idx@.len(),
    ensures
        decodes_to(enc@, idx@, r@),
        forall|k: int| 0 <= k < r@.len() ==> idx@.contains(#[trigger] r@[k]),
{
    let n = enc.len();
    let mut keys: Vec<(i128, i128, i128)> = Vec::new();
    for k in 0..n
        invariant
            n == enc@.len(),
            keys@ == key_triples(enc@.subrange(0, k as int)),
    {
        keys.push((enc[k] as i128, 0, 0));
        assert(keys@ =~= key_triples(enc@.subrange(0, k + 1)));
    }
    assert(enc@.subrange(0, n as int) =~= enc@);
    let s = sort_indices(&keys);
    let mut r: Vec<usize> = Vec::new();
    for k in 0..n
        invariant
            n == enc@.len(),
            n == idx@.len(),
            stably_sorted(keys@, s@),
            keys@ == key_triples(enc@),
            r@.len() == k,
            forall|j: int| 0 <= j < k ==> #[trigger] r@[j] == idx@[s@[j] as int],
    {
        r.push(idx[s[k]]);
    }
    proof {
        assert(r@ =~= decoded(enc@, idx@));
        assert forall|k: int| 0 <= k < r@.len() implies idx@.contains(#[trigger] r@[k]) by {
            assert(r@[k] == idx@[s@[k] as int]);
        }
    }
    r
}

impl Config {
    /// Sets the priority and economy orders to the decoding of the keys.
    pub fn decode(&mut self)
        requires
            old(self).enc_priority_ord@.len() == old(self).priority_idx@.len(),
            old(self).enc_non_priority_ord@.len() == old(self).non_priority_idx@.len(),
        ensures
            decodes_to(final(self).enc_priority_ord@, final(self).priority_idx@, final(self).priority_order@),
            decodes_to(
                final(self).enc_non_priority_ord@,
                final(self).non_priority_idx@,
                final(self).non_priority_order@,
            ),
            forall|k: int|
                0 <= k < final(self).priority_order@.len() ==> final(self).priority_idx@.contains(
                    #[trigger] final(self).priority_order@[k],
                ),
            forall|k: int|
                0 <= k < final(self).non_priority_order@.len() ==> final(self).non_priority_idx@.contains(
                    #[trigger] final(self).non_priority_order@[k],
                ),
            final(self).enc_priority_ord == old(self).enc_priority_ord,
            final(self).enc_non_priority_ord == old(self).enc_non_priority_ord,
            final(self).priority_idx == old(self).priority_idx,
            final(self).non_priority_idx == old(self).non_priority_idx,
            final(self).count_priority_pkg == old(self).count_priority_pkg,
            final(self).count_non_priority_pkg == old(self).count_non_priority_pkg,
            final(self).resultant_data == old(self).resultant_data,
            final(self).uld_wts == old(self).uld_wts,
            final(self).evaluated == old(self).evaluated,
            final(self).fitness_score == old(self).fitness_score,
    {
        self.priority_order = decode_keys(&self.enc_priority_ord, &self.priority_idx);
        self.non_priority_order = decode_keys(&self.enc_non_priority_ord, &self.non_priority_idx);
    }
}

proof fn lemma_load_empty(pkgs: Seq<Package>, u: int, n: int)
    ensures
        uld_load(pkgs, Seq::<PlacementRecord>::empty(), u, n) == 0,
    decreases n,
{
    if n > 0 {
        lemma_load_empty(pkgs, u, n - 1);
    }
}

impl Config {
    /// The placer: the priority pass, compaction toward the −x face, the
    /// economy pass, compaction again, then the leftover pass over the
    /// economy packages still unplaced; anchors are seeded afresh before
    /// each pass.
    pub fn place_packages(&mut self, pkgs: &Vec<Package>, ulds: &Vec<ULD>)
        requires
            old(self).placement_ok(pkgs@, ulds@),
            forall|k: int|
                0 <= k < old(self).priority_order@.len() ==> #[trigger] old(self).priority_order@[k]
                    < pkgs@.len(),
            forall|k: int|
                0 <= k < old(self).non_priority_order@.len()
                    ==> #[trigger] old(self).non_priority_order@[k] < pkgs@.len(),
        ensures
            final(self).placement_ok(pkgs@, ulds@),
            final(self).keeps_genes(old(self)),
            (final(self).resultant_data@, final(self).uld_wts@) == placer_run(
                pkgs@,
                ulds@,
                old(self).resultant_data@,
                old(self).uld_wts@,
                old(self).priority_order@,
                old(self).non_priority_order@,
            ),
    {
        proof {
            self.lemma_records_in_bounds(pkgs@, ulds@);
        }
        let mut pts = self.reset_uld_points(ulds);
        assert(anchor_view(pts@) =~= seeded_anchors(ulds@, self.resultant_data@));
        self.place_priority(pkgs, ulds, &mut pts);
        self.push_to_side_face_first(pkgs, ulds, 1);
        proof {
            self.lemma_records_in_bounds(pkgs@, ulds@);
        }
        pts = self.reset_uld_points(ulds);
        assert(anchor_view(pts@) =~= seeded_anchors(ulds@, self.resultant_data@));
        self.place_economy(pkgs, ulds, &mut pts);
        self.push_to_side_face_first(pkgs, ulds, 1);
        proof {
            self.lemma_records_in_bounds(pkgs@, ulds@);
        }
        pts = self.reset_uld_points(ulds);
        assert(anchor_view(pts@) =~= seeded_anchors(ulds@, self.resultant_data@));
        let mut not_packed: Vec<usize> = Vec::new();
        let n = self.non_priority_order.len();
        for k in 0..n
            invariant
                n == self.non_priority_order@.len(),
                forall|j: int|
                    0 <= j < self.non_priority_order@.len() ==> #[trigger] self.non_priority_order@[j]
                        < pkgs@.len(),
                forall|j: int| 0 <= j < not_packed@.len() ==> #[trigger] not_packed@[j] < pkgs@.len(),
                not_packed@ == unplaced(self.resultant_data@, self.non_priority_order@.subrange(0, k as int)),
        {
            let v = self.non_priority_order[k];
            proof {
                let s1 = self.non_priority_order@.subrange(0, k + 1);
                assert(s1.drop_last() =~= self.non_priority_order@.subrange(0, k as int));
                assert(s1.last() == v);
            }
            if !self.is_packed(v) {
                not_packed.push(v);
            }
        }
        assert(self.non_priority_order@.subrange(0, n as int) =~= self.non_priority_order@);
        self.place_leftover(pkgs, ulds, &mut pts, not_packed);
    }

    proof fn lemma_records_in_bounds(&self, pkgs: Seq<Package>, ulds: Seq<ULD>)
        requires
            self.placement_ok(pkgs, ulds),
        ensures
            forall|k: int|
                0 <= k < self.resultant_data@.len() ==> {
                    let e = #[trigger] self.resultant_data@[k];
                    &&& e.uld < ulds.len()
                    &&& 0 <= e.x1 <= e.x2
                    &&& 0 <= e.y1 <= e.y2
                    &&& 0 <= e.z1 <= e.z2
                },
    {
        assert forall|k: int| 0 <= k < self.resultant_data@.len() implies {
            let e = #[trigger] self.resultant_data@[k];
            &&& e.uld < ulds.len()
            &&& 0 <= e.x1 <= e.x2
            &&& 0 <= e.y1 <= e.y2
            &&& 0 <= e.z1 <= e.z2
        } by {
            assert(crate::model::record_fits(pkgs, ulds, self.resultant_data@[k]));
        }
    }

    /// Whether some record puts a priority package in ULD `u`.
    fn uld_holds_priority(&self, pkgs: &Vec<Package>, u: usize) -> (r: bool)
        requires
            forall|k: int|
                0 <= k < self.resultant_data@.len() ==> #[trigger] self.resultant_data@[k].pkg
                    < pkgs@.len(),
        ensures
            r == uld_has_priority(pkgs@, self.resultant_data@, u as int),
    {
        let n = self.resultant_data.len();
        for k in 0..n
            invariant
                n == self.resultant_data@.len(),
                forall|j: int|
                    0 <= j < self.resultant_data@.len() ==> #[trigger] self.resultant_data@[j].pkg
                        < pkgs@.len(),
                forall|j: int|
                    0 <= j < k ==> !((#[trigger] self.resultant_data@[j]).uld == u
                        && pkgs@[self.resultant_data@[j].pkg as int].priority),
        {
            let e = self.resultant_data[k];
            if e.uld == u && pkgs[e.pkg].priority {
                return true;
            }
        }
        false
    }

    /// The fitness of this configuration, evaluating it first if it has not
    /// been: decode the keys, place and compact from an empty placement, and
    /// score the result. An evaluated configuration is returned unchanged.
    pub fn find_fitness(&mut self, pkgs: &Vec<Package>, ulds: &Vec<ULD>) -> (r: i128)
        requires
            old(self).layout_ok(pkgs@),
            valid_packages(pkgs@),
            valid_ulds(ulds@),
            old(self).evaluated ==> old(self).evaluated_ok(pkgs@, ulds@),
        ensures
            final(self).evaluated_ok(pkgs@, ulds@),
            r == final(self).fitness_score,
            final(self).enc_priority_ord == old(self).enc_priority_ord,
            final(self).enc_non_priority_ord == old(self).enc_non_priority_ord,
            old(self).evaluated ==> *final(self) == *old(self),
    {
        if self.evaluated {
            return self.fitness_score;
        }
        self.decode();
        self.resultant_data = Vec::new();
        let mut wts: Vec<i64> = Vec::new();
        for u in 0..ulds.len()
            invariant
                wts@ == Seq::new(u as nat, |v: int| 0i64),
        {
            wts.push(0);
            assert(wts@ =~= Seq::new((u + 1) as nat, |v: int| 0i64));
        }
        self.uld_wts = wts;
        proof {
            assert forall|u: int| 0 <= u < ulds@.len() implies #[trigger] self.uld_wts@[u]
                == uld_load(pkgs@, self.resultant_data@, u, pkgs@.len() as int) by {
                lemma_load_empty(pkgs@, u, pkgs@.len() as int);
                assert(self.resultant_data@ =~= Seq::<PlacementRecord>::empty());
            }
            assert forall|u: int| 0 <= u < ulds@.len() implies #[trigger] uld_load(
                pkgs@,
                self.resultant_data@,
                u,
                pkgs@.len() as int,
            ) <= ulds@[u].weight by {
                lemma_load_empty(pkgs@, u, pkgs@.len() as int);
                assert(self.resultant_data@ =~= Seq::<PlacementRecord>::empty());
                assert(ulds@[u].valid());
            }
            lemma_indices_below(pkgs@, pkgs@.len() as int, true);
            lemma_indices_below(pkgs@, pkgs@.len() as int, false);
            assert forall|k: int| 0 <= k < self.priority_order@.len() implies #[trigger] self.priority_order@[k]
                < pkgs@.len() by {
                let t = choose|t: int| 0 <= t < self.priority_idx@.len() && self.priority_idx@[t] == self.priority_order@[k];
            }
            assert forall|k: int| 0 <= k < self.non_priority_order@.len() implies #[trigger] self.non_priority_order@[k]
                < pkgs@.len() by {
                let t = choose|t: int| 0 <= t < self.non_priority_idx@.len() && self.non_priority_idx@[t] == self.non_priority_order@[k];
            }
        }
        assert(self.resultant_data@ =~= Seq::<PlacementRecord>::empty());
        assert(self.uld_wts@ =~= Seq::new(ulds@.len(), |u: int| 0i64));
        self.place_packages(pkgs, ulds);
        let ghost recs = self.resultant_data@;
        let n = self.resultant_data.len();
        let mut revenue: i128 = 0;
        let mut packed: usize = 0;
        for k in 0..n
            invariant
                n == recs.len(),
                recs == self.resultant_data@,
                self.placement_ok(pkgs@, ulds@),
                revenue == economy_revenue(pkgs@, recs.subrange(0, k as int)),
                packed == priority_placed(pkgs@, recs.subrange(0, k as int)),
                0 <= revenue <= k * 0x8000_0000,
                packed <= k,
        {
            let e = self.resultant_data[k];
            proof {
                assert(crate::model::record_fits(pkgs@, ulds@, recs[k as int]));
                assert(pkgs@[e.pkg as int].valid());
                let s = recs.subrange(0, k + 1);
                assert(s.drop_last() =~= recs.subrange(0, k as int));
                assert(s.last() == e);
            }
            if pkgs[e.pkg].priority {
                packed = packed + 1;
            } else {
                revenue = revenue + pkgs[e.pkg].cost as i128;
            }
        }
        assert(recs.subrange(0, n as int) =~= recs);
        let nu = ulds.len();
        let mut used: usize = 0;
        proof {
            assert forall|k: int| 0 <= k < recs.len() implies #[trigger] recs[k].pkg < pkgs@.len() by {
                assert(crate::model::record_fits(pkgs@, ulds@, recs[k]));
            }
        }
        for u in 0..nu
            invariant
                nu == ulds@.len(),
                recs == self.resultant_data@,
                forall|k: int| 0 <= k < recs.len() ==> #[trigger] recs[k].pkg < pkgs@.len(),
                used == priority_ulds(pkgs@, recs, u as int),
                used <= u,
        {
            if self.uld_holds_priority(pkgs, u) {
                used = used + 1;
            }
        }
        let np = pkgs.len();
        let mut tot: i128 = 0;
        for i in 0..np
            invariant
                np == pkgs@.len(),
                valid_packages(pkgs@),
                tot == total_cost(pkgs@, i as int),
                0 <= tot <= i * 0x8000_0000,
        {
            proof {
                assert(pkgs@[i as int].valid());
            }
            tot = tot + pkgs[i].cost as i128;
        }
        self.priority_packed = packed;
        self.ulds_used_for_priority = used;
        self.tot = tot;
        self.fitness_score = tot - revenue - PENALTY_COST * (packed as i128) + COST_PER_ULD * (
        used as i128);
        self.evaluated = true;
        self.fitness_score
    }
}

/// Evaluation is a function of the keys: two evaluated configurations of
/// the same packages and ULDs with equal keys have the same orders, the same
/// placement records and the same fitness.
pub proof fn lemma_evaluation_deterministic(pkgs: Seq<Package>, ulds: Seq<ULD>, a: Config, b: Config)
    requires
        a.evaluated_ok(pkgs, ulds),
        b.evaluated_ok(pkgs, ulds),
        a.enc_priority_ord@ == b.enc_priority_ord@,
        a.enc_non_priority_ord@ == b.enc_non_priority_ord@,
    ensures
        a.priority_order@ == b.priority_order@,
        a.non_priority_order@ == b.non_priority_order@,
        a.resultant_data@ == b.resultant_data@,
        a.fitness_score == b.fitness_score,
{
}

} // verus!
