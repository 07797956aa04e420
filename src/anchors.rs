//! Anchor sets: the ULD corners, and the corners of every placed box under
//! every tag.
use vstd::prelude::*;

use crate::model::{Anchor, PlacementRecord, ULD};
use crate::placer::{Candidate, Config};

verus! {

/// The eight corners of the box `(x, y, z)..(x + a, y + b, z + c)`, all
/// under tag `t`.
pub open spec fn corner_group(x: int, y: int, z: int, a: int, b: int, c: int, t: int) -> Seq<
    Anchor,
> {
    let t = t as i32;
    seq![
        Anchor { x: x as i32, y: y as i32, z: z as i32, tag: t },
        Anchor { x: (x + a) as i32, y: y as i32, z: z as i32, tag: t },
        Anchor { x: x as i32, y: (y + b) as i32, z: z as i32, tag: t },
        Anchor { x: x as i32, y: y as i32, z: (z + c) as i32, tag: t },
        Anchor { x: (x + a) as i32, y: (y + b) as i32, z: z as i32, tag: t },
        Anchor { x: (x + a) as i32, y: y as i32, z: (z + c) as i32, tag: t },
        Anchor { x: x as i32, y: (y + b) as i32, z: (z + c) as i32, tag: t },
        Anchor { x: (x + a) as i32, y: (y + b) as i32, z: (z + c) as i32, tag: t },
    ]
}

/// The corner groups of tags `1..=t`.
pub open spec fn groups_upto(x: int, y: int, z: int, a: int, b: int, c: int, t: int) -> Seq<
    Anchor,
>
    decreases t,
{
    if t <= 0 {
        seq![]
    } else {
        groups_upto(x, y, z, a, b, c, t - 1) + corner_group(x, y, z, a, b, c, t)
    }
}

/// The 64 anchors that a placed box contributes: its eight corners under
/// each of the eight tags.
pub open spec fn box_anchors(x: int, y: int, z: int, a: int, b: int, c: int) -> Seq<Anchor> {
    groups_upto(x, y, z, a, b, c, 8)
}

/// The corners of a ULD, each tagged to grow into the ULD.
pub open spec fn uld_corners(l: int, w: int, h: int) -> Seq<Anchor> {
    let (l, w, h) = (l as i32, w as i32, h as i32);
    seq![
        Anchor { x: 0, y: 0, z: 0, tag: 1 },
        Anchor { x: l, y: 0, z: 0, tag: 3 },
        Anchor { x: 0, y: w, z: 0, tag: 2 },
        Anchor { x: l, y: w, z: 0, tag: 4 },
        Anchor { x: 0, y: 0, z: h, tag: 5 },
        Anchor { x: l, y: 0, z: h, tag: 7 },
        Anchor { x: 0, y: w, z: h, tag: 6 },
        Anchor { x: l, y: w, z: h, tag: 8 },
    ]
}

/// The anchors that the boxes of `recs` contribute to ULD `u`, in record order.
pub open spec fn record_anchors(recs: Seq<PlacementRecord>, u: int) -> Seq<Anchor>
    decreases recs.len(),
{
    if recs.len() == 0 {
        seq![]
    } else {
        let r = recs.last();
        let prev = record_anchors(recs.drop_last(), u);
        if r.uld == u {
            prev + box_anchors(
                r.x1 as int,
                r.y1 as int,
                r.z1 as int,
                r.x2 - r.x1,
                r.y2 - r.y1,
                r.z2 - r.z1,
            )
        } else {
            prev
        }
    }
}

/// `s` with every copy of `a` taken out.
pub open spec fn without(s: Seq<Anchor>, a: Anchor) -> Seq<Anchor>
    decreases s.len(),
{
    if s.len() == 0 {
        s
    } else if s.last() == a {
        without(s.drop_last(), a)
    } else {
        without(s.drop_last(), a).push(s.last())
    }
}

fn push_corner_group(pts: &mut Vec<Anchor>, x: i32, y: i32, z: i32, a: i32, b: i32, c: i32, t: i32)
    requires
        0 <= x && 0 <= a && x + a <= i32::MAX,
        0 <= y && 0 <= b && y + b <= i32::MAX,
        0 <= z && 0 <= c && z + c <= i32::MAX,
    ensures
        final(pts)@ == old(pts)@ + corner_group(
            x as int,
            y as int,
            z as int,
            a as int,
            b as int,
            c as int,
            t as int,
        ),
{
    let ghost start = pts@;
    pts.push(Anchor { x: x, y: y, z: z, tag: t });
    pts.push(Anchor { x: x + a, y: y, z: z, tag: t });
    pts.push(Anchor { x: x, y: y + b, z: z, tag: t });
    pts.push(Anchor { x: x, y: y, z: z + c, tag: t });
    pts.push(Anchor { x: x + a, y: y + b, z: z, tag: t });
    pts.push(Anchor { x: x + a, y: y, z: z + c, tag: t });
    pts.push(Anchor { x: x, y: y + b, z: z + c, tag: t });
    pts.push(Anchor { x: x + a, y: y + b, z: z + c, tag: t });
    assert(pts@ =~= start + corner_group(
        x as int,
        y as int,
        z as int,
        a as int,
        b as int,
        c as int,
        t as int,
    ));
}

impl Config {
    /// Adds to the anchors of ULD `uid` the eight corners of the box
    /// `(x, y, z)..(x + a, y + b, z + c)` under each tag 1 to 8.
    pub fn add_point(
        &self,
        uid: usize,
        x: i32,
        y: i32,
        z: i32,
        a: i32,
        b: i32,
        c: i32,
        uld_pts: &mut Vec<Vec<Anchor>>,
    )
        requires
            uid < old(uld_pts)@.len(),
            0 <= x && 0 <= a && x + a <= i32::MAX,
            0 <= y && 0 <= b && y + b <= i32::MAX,
            0 <= z && 0 <= c && z + c <= i32::MAX,
        ensures
            final(uld_pts)@.len() == old(uld_pts)@.len(),
            final(uld_pts)@[uid as int]@ == old(uld_pts)@[uid as int]@ + box_anchors(
                x as int,
                y as int,
                z as int,
                a as int,
                b as int,
                c as int,
            ),
            forall|v: int|
                0 <= v < old(uld_pts)@.len() && v != uid ==> #[trigger] final(uld_pts)@[v]
                    == old(uld_pts)@[v],
    {
        let ghost start = uld_pts@;
        for t in 1..9i32
            invariant
                uid < uld_pts@.len(),
                uld_pts@.len() == start.len(),
                0 <= x && 0 <= a && x + a <= i32::MAX,
                0 <= y && 0 <= b && y + b <= i32::MAX,
                0 <= z && 0 <= c && z + c <= i32::MAX,
                uld_pts@[uid as int]@ == start[uid as int]@ + groups_upto(
                    x as int,
                    y as int,
                    z as int,
                    a as int,
                    b as int,
                    c as int,
                    t - 1,
                ),
                forall|v: int|
                    0 <= v < start.len() && v != uid ==> #[trigger] uld_pts@[v] == start[v],
        {
            push_corner_group(&mut uld_pts[uid], x, y, z, a, b, c, t);
            assert(uld_pts@[uid as int]@ =~= start[uid as int]@ + groups_upto(
                x as int,
                y as int,
                z as int,
                a as int,
                b as int,
                c as int,
                t as int,
            ));
        }
    }

    /// After committing `cand`, takes the anchor it grew from (every copy of
    /// it) out of its ULD's anchors and adds the anchors of the new box.
    pub fn add_reference_points(&self, uld_pts: &mut Vec<Vec<Anchor>>, cand: &Candidate)
        requires
            cand.uld < old(uld_pts)@.len(),
            cand.anchor < old(uld_pts)@[cand.uld as int]@.len(),
            0 <= cand.x && 0 <= cand.a && cand.x + cand.a <= i32::MAX,
            0 <= cand.y && 0 <= cand.b && cand.y + cand.b <= i32::MAX,
            0 <= cand.z && 0 <= cand.c && cand.z + cand.c <= i32::MAX,
        ensures
            final(uld_pts)@.len() == old(uld_pts)@.len(),
            final(uld_pts)@[cand.uld as int]@ == without(
                old(uld_pts)@[cand.uld as int]@,
                old(uld_pts)@[cand.uld as int]@[cand.anchor as int],
            ) + box_anchors(
                cand.x as int,
                cand.y as int,
                cand.z as int,
                cand.a as int,
                cand.b as int,
                cand.c as int,
            ),
            forall|v: int|
                0 <= v < old(uld_pts)@.len() && v != cand.uld ==> #[trigger] final(uld_pts)@[v]
                    == old(uld_pts)@[v],
    {
        let u = cand.uld;
        let seed = uld_pts[u][cand.anchor];
        let ghost start = uld_pts@;
        let n = uld_pts[u].len();
        let mut kept: Vec<Anchor> = Vec::new();
        for k in 0..n
            invariant
                u < uld_pts@.len(),
                uld_pts@ == start,
                n == start[u as int]@.len(),
                kept@ == without(start[u as int]@.subrange(0, k as int), seed),
        {
            let p = uld_pts[u][k];
            proof {
                let s = start[u as int]@.subrange(0, k + 1);
                assert(s.drop_last() =~= start[u as int]@.subrange(0, k as int));
                assert(s.last() == p);
            }
            if p != seed {
                kept.push(p);
            }
        }
        assert(start[u as int]@.subrange(0, n as int) =~= start[u as int]@);
        uld_pts.set(u, kept);
        self.add_point(u, cand.x, cand.y, cand.z, cand.a, cand.b, cand.c, uld_pts);
    }

    /// Fresh anchor sets: for each ULD, the anchors of its placed boxes in
    /// record order, then its own corners.
    pub fn reset_uld_points(&self, ulds: &Vec<ULD>) -> (r: Vec<Vec<Anchor>>)
        requires
            forall|k: int|
                0 <= k < self.resultant_data@.len() ==> {
                    let e = #[trigger] self.resultant_data@[k];
                    &&& e.uld < ulds@.len()
                    &&& 0 <= e.x1 <= e.x2
                    &&& 0 <= e.y1 <= e.y2
                    &&& 0 <= e.z1 <= e.z2
                },
        ensures
            r@.len() == ulds@.len(),
            forall|u: int|
                0 <= u < ulds@.len() ==> #[trigger] r@[u]@ == record_anchors(
                    self.resultant_data@,
                    u,
                ) + uld_corners(
                    ulds@[u].length as int,
                    ulds@[u].width as int,
                    ulds@[u].height as int,
                ),
    {
        let nu = ulds.len();
        let mut pts: Vec<Vec<Anchor>> = Vec::new();
        for u in 0..nu
            invariant
                pts@.len() == u,
                forall|v: int| 0 <= v < u ==> (#[trigger] pts@[v])@ == Seq::<Anchor>::empty(),
        {
            pts.push(Vec::new());
        }
        let n = self.resultant_data.len();
        for k in 0..n
            invariant
                n == self.resultant_data@.len(),
                nu == ulds@.len(),
                pts@.len() == nu,
                forall|j: int|
                    0 <= j < self.resultant_data@.len() ==> {
                        let e = #[trigger] self.resultant_data@[j];
                        &&& e.uld < ulds@.len()
                        &&& 0 <= e.x1 <= e.x2
                        &&& 0 <= e.y1 <= e.y2
                        &&& 0 <= e.z1 <= e.z2
                    },
                forall|v: int|
                    0 <= v < nu ==> (#[trigger] pts@[v])@ == record_anchors(
                        self.resultant_data@.subrange(0, k as int),
                        v,
                    ),
        {
            let e = self.resultant_data[k];
            let ghost before = pts@;
            self.add_point(e.uld, e.x1, e.y1, e.z1, e.x2 - e.x1, e.y2 - e.y1, e.z2 - e.z1, &mut pts);
            proof {
                let s = self.resultant_data@.subrange(0, k + 1);
                assert(s.drop_last() =~= self.resultant_data@.subrange(0, k as int));
                assert(s.last() == e);
            }
        }
        assert(self.resultant_data@.subrange(0, n as int) =~= self.resultant_data@);
        for u in 0..nu
            invariant
                nu == ulds@.len(),
                pts@.len() == nu,
                forall|v: int|
                    u <= v < nu ==> (#[trigger] pts@[v])@ == record_anchors(
                        self.resultant_data@,
                        v,
                    ),
                forall|v: int|
                    0 <= v < u ==> (#[trigger] pts@[v])@ == record_anchors(
                        self.resultant_data@,
                        v,
                    ) + uld_corners(
                        ulds@[v].length as int,
                        ulds@[v].width as int,
                        ulds@[v].height as int,
                    ),
        {
            let l = ulds[u].length;
            let w = ulds[u].width;
            let h = ulds[u].height;
            let ghost start = pts@[u as int]@;
            let cur = &mut pts[u];
            cur.push(Anchor { x: 0, y: 0, z: 0, tag: 1 });
            cur.push(Anchor { x: l, y: 0, z: 0, tag: 3 });
            cur.push(Anchor { x: 0, y: w, z: 0, tag: 2 });
            cur.push(Anchor { x: l, y: w, z: 0, tag: 4 });
            cur.push(Anchor { x: 0, y: 0, z: h, tag: 5 });
            cur.push(Anchor { x: l, y: 0, z: h, tag: 7 });
            cur.push(Anchor { x: 0, y: w, z: h, tag: 6 });
            cur.push(Anchor { x: l, y: w, z: h, tag: 8 });
            assert(pts@[u as int]@ =~= start + uld_corners(l as int, w as int, h as int));
        }
        pts
    }
}

} // verus!
