//! The compactor: boxes slide toward the −x face of their ULD until they
//! touch a wall or another box.
use vstd::prelude::*;

use crate::geometry::{check_intersection_cuboids, cuboids_intersect, triple};
use crate::model::{all_fit, non_overlapping, placed_in, record_fits, records_clash, uld_load, Package, PlacementRecord, ULD};
use crate::ordering::{sort_indices, sort_spec, stably_sorted};
use crate::placer::{add3, Config};

verus! {

/// `r` is `o` moved toward the −x face: same package, ULD, y and z extent and
/// size, and a lower or equal x.
pub open spec fn moved_toward_low_x(o: PlacementRecord, r: PlacementRecord) -> bool {
    &&& r.pkg == o.pkg
    &&& r.uld == o.uld
    &&& r.y1 == o.y1
    &&& r.y2 == o.y2
    &&& r.z1 == o.z1
    &&& r.z2 == o.z2
    &&& r.x2 - r.x1 == o.x2 - o.x1
    &&& r.x1 <= o.x1
}

/// `r` is some record of `olds` moved toward the −x face.
pub open spec fn moved_from_some(olds: Seq<PlacementRecord>, r: PlacementRecord) -> bool {
    exists|j: int| 0 <= j < olds.len() && moved_toward_low_x(#[trigger] olds[j], r)
}

/// `o` was moved toward the −x face to some record of `news`.
pub open spec fn moved_to_some(o: PlacementRecord, news: Seq<PlacementRecord>) -> bool {
    exists|k: int| 0 <= k < news.len() && moved_toward_low_x(o, #[trigger] news[k])
}

/// A box of size `d` at `m` lies within the walls of ULD `uid` and meets no
/// box of `recs` in that ULD but the one at index `skip`.
pub open spec fn clear_at(
    ulds: Seq<ULD>,
    recs: Seq<PlacementRecord>,
    skip: int,
    uid: int,
    m: (int, int, int),
    d: (int, int, int),
) -> bool {
    &&& m.0 + d.0 <= ulds[uid].length
    &&& m.1 + d.1 <= ulds[uid].width
    &&& m.2 + d.2 <= ulds[uid].height
    &&& forall|k: int|
        0 <= k < recs.len() && k != skip && (#[trigger] recs[k]).uld == uid ==> !cuboids_intersect(
            m,
            add3(m, d),
            recs[k].lo(),
            recs[k].hi(),
        )
}

/// `r` moved along x to start at `x`.
pub open spec fn slid(r: PlacementRecord, x: int) -> PlacementRecord {
    PlacementRecord {
        pkg: r.pkg,
        uld: r.uld,
        x1: x as i32,
        y1: r.y1,
        z1: r.z1,
        x2: (x + (r.x2 - r.x1)) as i32,
        y2: r.y2,
        z2: r.z2,
    }
}

/// Where box `j` of `res`, now at x = `x`, comes to rest: it steps toward
/// x = 0 while the next position is clear of the walls and the other boxes.
pub open spec fn slide_from(ulds: Seq<ULD>, res: Seq<PlacementRecord>, j: int, x: int) -> int
    decreases x,
{
    if x <= 0 {
        x
    } else if clear_at(
        ulds,
        res,
        j,
        res[j].uld as int,
        (x - 1, res[j].y1 as int, res[j].z1 as int),
        res[j].size(),
    ) {
        slide_from(ulds, res, j, x - 1)
    } else {
        x
    }
}

/// The boxes of `order` slid in turn, each against the others as they
/// stand at its turn.
pub open spec fn slide_all(ulds: Seq<ULD>, res: Seq<PlacementRecord>, order: Seq<usize>) -> Seq<
    PlacementRecord,
>
    decreases order.len(),
{
    if order.len() == 0 {
        res
    } else {
        let prev = slide_all(ulds, res, order.drop_last());
        let j = order.last() as int;
        prev.update(j, slid(prev[j], slide_from(ulds, prev, j, prev[j].x1 as int)))
    }
}

pub open spec fn low_x_keys(recs: Seq<PlacementRecord>) -> Seq<(i128, i128, i128)> {
    Seq::new(recs.len(), |k: int| (recs[k].x1 as i128, recs[k].y1 as i128, recs[k].z1 as i128))
}

/// The placement after compaction toward the −x face: the boxes in
/// ascending order of minimum corner, each slid in that order.
pub open spec fn compacted(ulds: Seq<ULD>, recs: Seq<PlacementRecord>) -> Seq<PlacementRecord> {
    let s = sort_spec(low_x_keys(recs), recs.len() as int);
    let moved = slide_all(ulds, recs, s);
    Seq::new(recs.len(), |k: int| moved[s[k] as int])
}

impl Config {
    /// Whether a box of size `(x1, y1, z1)` at `(x, y, z)` lies within the
    /// walls of ULD `uid` and meets no box of `new_res` in that ULD other
    /// than the one at index `skip`.
    pub fn check_new(
        &self,
        ulds: &Vec<ULD>,
        skip: usize,
        uid: usize,
        x: i32,
        y: i32,
        z: i32,
        x1: i32,
        y1: i32,
        z1: i32,
        new_res: &Vec<PlacementRecord>,
    ) -> (r: bool)
        requires
            uid < ulds@.len(),
            x >= 0 && y >= 0 && z >= 0,
            x1 >= 0 && y1 >= 0 && z1 >= 0,
        ensures
            r == clear_at(
                ulds@,
                new_res@,
                skip as int,
                uid as int,
                (x as int, y as int, z as int),
                (x1 as int, y1 as int, z1 as int),
            ),
    {
        if x as i64 + x1 as i64 > ulds[uid].length as i64 {
            return false;
        }
        if y as i64 + y1 as i64 > ulds[uid].width as i64 {
            return false;
        }
        if z as i64 + z1 as i64 > ulds[uid].height as i64 {
            return false;
        }
        let hi = [x + x1, y + y1, z + z1];
        let n = new_res.len();
        for k in 0..n
            invariant
                n == new_res@.len(),
                triple(hi) == add3((x as int, y as int, z as int), (x1 as int, y1 as int, z1 as int)),
                uid < ulds@.len(),
                x + x1 <= ulds@[uid as int].length,
                y + y1 <= ulds@[uid as int].width,
                z + z1 <= ulds@[uid as int].height,
                forall|j: int|
                    0 <= j < k && j != skip && (#[trigger] new_res@[j]).uld == uid
                        ==> !cuboids_intersect(
                        (x as int, y as int, z as int),
                        add3((x as int, y as int, z as int), (x1 as int, y1 as int, z1 as int)),
                        new_res@[j].lo(),
                        new_res@[j].hi(),
                    ),
        {
            let e = new_res[k];
            if k != skip && e.uld == uid {
                if check_intersection_cuboids(
                    [x, y, z],
                    hi,
                    [e.x1, e.y1, e.z1],
                    [e.x2, e.y2, e.z2],
                ) {
                    return false;
                }
            }
        }
        true
    }

    /// Compacts the placement toward one face. Face 1 is the −x face: in
    /// ascending order of minimum corner `(x1, y1, z1)`, each box slides
    /// toward x = 0 while it stays clear of the walls and of every other box;
    /// the records then stand in that order. Other faces leave the placement
    /// as it is.
    pub fn push_to_side_face_first(&mut self, pkgs: &Vec<Package>, ulds: &Vec<ULD>, typ: i32)
        requires
            old(self).placement_ok(pkgs@, ulds@),
        ensures
            final(self).placement_ok(pkgs@, ulds@),
            final(self).keeps_genes(old(self)),
            final(self).uld_wts == old(self).uld_wts,
            typ != 1 ==> final(self).resultant_data == old(self).resultant_data,
            typ == 1 ==> final(self).resultant_data@ == compacted(ulds@, old(self).resultant_data@),
            final(self).resultant_data@.len() == old(self).resultant_data@.len(),
            forall|k: int|
                0 <= k < final(self).resultant_data@.len() ==> moved_from_some(
                    old(self).resultant_data@,
                    #[trigger] final(self).resultant_data@[k],
                ),
            forall|j: int|
                0 <= j < old(self).resultant_data@.len() ==> moved_to_some(
                    #[trigger] old(self).resultant_data@[j],
                    final(self).resultant_data@,
                ),
    {
        let ghost orig = self.resultant_data@;
        if typ != 1 {
            proof {
                assert forall|k: int| 0 <= k < orig.len() implies moved_from_some(
                    orig,
                    #[trigger] orig[k],
                ) by {
                    assert(moved_toward_low_x(orig[k], orig[k]));
                }
                assert forall|j: int| 0 <= j < orig.len() implies moved_to_some(
                    #[trigger] orig[j],
                    orig,
                ) by {
                    assert(moved_toward_low_x(orig[j], orig[j]));
                }
            }
            return ;
        }
        let n = self.resultant_data.len();
        let mut keys: Vec<(i128, i128, i128)> = Vec::new();
        for k in 0..n
            invariant
                n == self.resultant_data@.len(),
                keys@ == low_x_keys(self.resultant_data@.subrange(0, k as int)),
        {
            let e = self.resultant_data[k];
            keys.push((e.x1 as i128, e.y1 as i128, e.z1 as i128));
            assert(keys@ =~= low_x_keys(self.resultant_data@.subrange(0, k + 1)));
        }
        assert(self.resultant_data@.subrange(0, n as int) =~= self.resultant_data@);
        let order = sort_indices(&keys);
        let mut res: Vec<PlacementRecord> = Vec::new();
        for k in 0..n
            invariant
                n == self.resultant_data@.len(),
                res@ == self.resultant_data@.subrange(0, k as int),
        {
            res.push(self.resultant_data[k]);
            assert(res@ =~= self.resultant_data@.subrange(0, k + 1));
        }
        assert(res@ =~= orig);
        for k in 0..n
            invariant
                n == orig.len(),
                self.placement_ok(pkgs@, ulds@),
                self.resultant_data@ == orig,
                stably_sorted(keys@, order@),
                keys@.len() == n,
                res@.len() == n,
                res@ == slide_all(ulds@, orig, order@.subrange(0, k as int)),
                forall|j: int| 0 <= j < n ==> moved_toward_low_x(orig[j], #[trigger] res@[j]),
                all_fit(pkgs@, ulds@, res@),
                non_overlapping(res@),
        {
            let j = order[k];
            let e = res[j];
            proof {
                assert(record_fits(pkgs@, ulds@, res@[j as int]));
                let s1 = order@.subrange(0, k + 1);
                assert(s1.drop_last() =~= order@.subrange(0, k as int));
                assert(s1.last() == j);
            }
            let a = e.x2 - e.x1;
            let b = e.y2 - e.y1;
            let c = e.z2 - e.z1;
            let mut xc = e.x1;
            while xc > 0 && self.check_new(ulds, j, e.uld, xc - 1, e.y1, e.z1, a, b, c, &res)
                invariant
                    0 <= xc <= e.x1,
                    e == res@[j as int],
                    j < res@.len(),
                    e.uld < ulds@.len(),
                    e.y1 >= 0 && e.z1 >= 0,
                    a > 0 && b > 0 && c > 0,
                    a == e.x2 - e.x1 && b == e.y2 - e.y1 && c == e.z2 - e.z1,
                    xc == e.x1 || clear_at(
                        ulds@,
                        res@,
                        j as int,
                        e.uld as int,
                        (xc as int, e.y1 as int, e.z1 as int),
                        (a as int, b as int, c as int),
                    ),
                    slide_from(ulds@, res@, j as int, e.x1 as int) == slide_from(ulds@, res@, j as int, xc as int),
                decreases xc,
            {
                xc = xc - 1;
            }
            let moved = PlacementRecord {
                pkg: e.pkg,
                uld: e.uld,
                x1: xc,
                y1: e.y1,
                z1: e.z1,
                x2: xc + a,
                y2: e.y2,
                z2: e.z2,
            };
            assert(slide_from(ulds@, res@, j as int, xc as int) == xc);
            assert(moved == slid(e, slide_from(ulds@, res@, j as int, e.x1 as int)));
            let ghost before = res@;
            res.set(j, moved);
            proof {
                if xc == e.x1 {
                    assert(moved == e);
                    assert(res@ =~= before);
                } else {
                    assert(add3((xc as int, e.y1 as int, e.z1 as int), (a as int, b as int, c as int))
                        == moved.hi());
                    assert forall|p: int, q: int|
                        0 <= p < res@.len() && 0 <= q < res@.len() && p != q implies !records_clash(
                        #[trigger] res@[p],
                        #[trigger] res@[q],
                    ) by {
                        if p != j && q != j {
                            assert(res@[p] == before[p] && res@[q] == before[q]);
                        } else if p == j {
                            assert(res@[q] == before[q]);
                        } else {
                            assert(res@[p] == before[p]);
                        }
                    }
                    assert forall|p: int| 0 <= p < res@.len() implies record_fits(
                        pkgs@,
                        ulds@,
                        #[trigger] res@[p],
                    ) by {
                        if p != j {
                            assert(res@[p] == before[p]);
                        } else {
                            assert(record_fits(pkgs@, ulds@, before[p]));
                            assert(moved.size() == e.size());
                        }
                    }
                }
                assert forall|i: int| 0 <= i < n implies moved_toward_low_x(
                    orig[i],
                    #[trigger] res@[i],
                ) by {
                    if i != j {
                        assert(res@[i] == before[i]);
                    }
                }
            }
        }
        let mut out: Vec<PlacementRecord> = Vec::new();
        for k in 0..n
            invariant
                n == orig.len(),
                res@.len() == n,
                stably_sorted(keys@, order@),
                keys@.len() == n,
                out@.len() == k,
                forall|i: int| 0 <= i < k ==> #[trigger] out@[i] == res@[order@[i] as int],
        {
            out.push(res[order[k]]);
        }
        proof {
            assert(order@.subrange(0, n as int) =~= order@);
            assert(keys@ =~= low_x_keys(orig));
            assert(out@ =~= compacted(ulds@, orig));
        }
        proof {
            let o = out@;
            assert forall|i: int, l: int| 0 <= i < n && 0 <= l < n && i != l implies order@[i]
                != order@[l] by {
                if i < l {
                    assert(crate::ordering::index_before(keys@, order@[i] as int, order@[l] as int));
                } else {
                    assert(crate::ordering::index_before(keys@, order@[l] as int, order@[i] as int));
                }
            }
            assert forall|i: int| 0 <= i < n implies record_fits(pkgs@, ulds@, #[trigger] o[i]) by {
                assert(o[i] == res@[order@[i] as int]);
            }
            assert forall|i: int, l: int|
                0 <= i < n && 0 <= l < n && i != l implies !records_clash(
                #[trigger] o[i],
                #[trigger] o[l],
            ) by {
                assert(o[i] == res@[order@[i] as int] && o[l] == res@[order@[l] as int]);
            }
            assert forall|i: int, l: int|
                0 <= i < n && 0 <= l < n && i != l implies (#[trigger] o[i]).pkg != (
                #[trigger] o[l]).pkg by {
                assert(o[i] == res@[order@[i] as int] && o[l] == res@[order@[l] as int]);
                assert(moved_toward_low_x(orig[order@[i] as int], res@[order@[i] as int]));
                assert(moved_toward_low_x(orig[order@[l] as int], res@[order@[l] as int]));
            }
            assert forall|i: int| 0 <= i < n implies moved_from_some(orig, #[trigger] o[i]) by {
                assert(o[i] == res@[order@[i] as int]);
                assert(moved_toward_low_x(orig[order@[i] as int], o[i]));
            }
            assert forall|j: int| 0 <= j < n implies moved_to_some(#[trigger] orig[j], o) by {
                assert(order@.contains(j as usize));
                let k = choose|k: int| 0 <= k < order@.len() && order@[k] == j as usize;
                assert(o[k] == res@[j]);
            }
            assert forall|u: int| 0 <= u < ulds@.len() implies #[trigger] uld_load(
                pkgs@,
                o,
                u,
                pkgs@.len() as int,
            ) == uld_load(pkgs@, orig, u, pkgs@.len() as int) by {
                assert forall|p: int| #![auto] 0 <= p < pkgs@.len() implies (placed_in(o, p, u)
                    <==> placed_in(orig, p, u)) by {
                    if placed_in(o, p, u) {
                        let i = choose|i: int| 0 <= i < o.len() && #[trigger] o[i].pkg == p && o[i].uld == u;
                        assert(o[i] == res@[order@[i] as int]);
                        assert(moved_toward_low_x(orig[order@[i] as int], res@[order@[i] as int]));
                        assert(orig[order@[i] as int].pkg == p);
                    }
                    if placed_in(orig, p, u) {
                        let j = choose|j: int| 0 <= j < orig.len() && #[trigger] orig[j].pkg == p && orig[j].uld == u;
                        assert(order@.contains(j as usize));
                        let k = choose|k: int| 0 <= k < order@.len() && order@[k] == j as usize;
                        assert(o[k] == res@[j]);
                        assert(moved_toward_low_x(orig[j], res@[j]));
                        assert(o[k].pkg == p);
                    }
                }
                crate::model::lemma_load_same_contents(pkgs@, o, orig, u, pkgs@.len() as int);
            }
        }
        self.resultant_data = out;
    }
}

} // verus!
