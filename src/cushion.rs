//! The cushion of a loaded ULD: for every lattice point of the four side
//! faces of each box, the gap to the nearest box facing it across that side.
use vstd::prelude::*;

use crate::solution::PackageData;

verus! {

/// The side faces of a box: toward −x, +x, −y and +y.
#[derive(Clone, Copy, Debug, PartialEq, Eq, Structural)]
pub enum Face {
    LowX,
    HighX,
    LowY,
    HighY,
}

pub open spec fn in_both(a: int, lo1: int, hi1: int, lo2: int, hi2: int) -> bool {
    lo1 <= a && lo2 <= a && a <= hi1 && a <= hi2
}

/// The gap from face `face` of box `r`, at the face's lattice point
/// `(a, b)`, to box `o` in the same ULD, if `o` lies across that face
/// there: `(a, b)` is `(y, z)` on an x face and `(x, z)` on a y face.
pub open spec fn gap(r: PackageData, o: PackageData, face: Face, a: int, b: int) -> Option<int> {
    if o.pack_id == r.pack_id || o.uld_id != r.uld_id || !in_both(
        b,
        r.z1 as int,
        r.z2 as int,
        o.z1 as int,
        o.z2 as int,
    ) {
        None
    } else if face == Face::LowX || face == Face::HighX {
        if !in_both(a, r.y1 as int, r.y2 as int, o.y1 as int, o.y2 as int) {
            None
        } else if o.x2 <= r.x1 {
            if face == Face::LowX {
                Some(r.x1 - o.x2)
            } else {
                None
            }
        } else if o.x1 >= r.x2 && face == Face::HighX {
            Some(o.x1 - r.x2)
        } else {
            None
        }
    } else {
        if !in_both(a, r.x1 as int, r.x2 as int, o.x1 as int, o.x2 as int) {
            None
        } else if o.y2 <= r.y1 {
            if face == Face::LowY {
                Some(r.y1 - o.y2)
            } else {
                None
            }
        } else if o.y1 >= r.y2 && face == Face::HighY {
            Some(o.y1 - r.y2)
        } else {
            None
        }
    }
}

/// The least gap to any of the boxes `rows[0..n]`.
pub open spec fn nearest(rows: Seq<PackageData>, r: PackageData, face: Face, a: int, b: int, n: int) -> Option<
    int,
>
    decreases n,
{
    if n <= 0 {
        None
    } else {
        let prev = nearest(rows, r, face, a, b, n - 1);
        match gap(r, rows[n - 1], face, a, b) {
            None => prev,
            Some(g) => match prev {
                None => Some(g),
                Some(p) => Some(if g < p { g } else { p }),
            },
        }
    }
}

/// The sum of `f(i)` for `lo <= i < hi`.
pub open spec fn range_sum(f: spec_fn(int) -> int, lo: int, hi: int) -> int
    decreases hi - lo,
{
    if hi <= lo {
        0
    } else {
        range_sum(f, lo, hi - 1) + f(hi - 1)
    }
}

pub open spec fn point_gap(rows: Seq<PackageData>, r: PackageData, face: Face, a: int, b: int) -> int {
    match nearest(rows, r, face, a, b, rows.len() as int) {
        Some(g) => g,
        None => 0,
    }
}

/// The first axis of a face's lattice runs over `face_lo..=face_hi`.
pub open spec fn face_lo(r: PackageData, face: Face) -> int {
    if face == Face::LowX || face == Face::HighX {
        r.y1 as int
    } else {
        r.x1 as int
    }
}

pub open spec fn face_hi(r: PackageData, face: Face) -> int {
    if face == Face::LowX || face == Face::HighX {
        r.y2 as int
    } else {
        r.x2 as int
    }
}

pub open spec fn row_gaps(rows: Seq<PackageData>, r: PackageData, face: Face, a: int) -> spec_fn(
    int,
) -> int {
    |b: int| point_gap(rows, r, face, a, b)
}

pub open spec fn row_totals(rows: Seq<PackageData>, r: PackageData, face: Face) -> spec_fn(
    int,
) -> int {
    |a: int| range_sum(row_gaps(rows, r, face, a), r.z1 as int, r.z2 + 1)
}

/// The gaps summed over the lattice points of face `face` of `r`.
pub open spec fn face_sum(rows: Seq<PackageData>, r: PackageData, face: Face) -> int {
    range_sum(row_totals(rows, r, face), face_lo(r, face), face_hi(r, face) + 1)
}

pub open spec fn box_sum(rows: Seq<PackageData>, r: PackageData) -> int {
    face_sum(rows, r, Face::LowX) + face_sum(rows, r, Face::HighX) + face_sum(rows, r, Face::LowY)
        + face_sum(rows, r, Face::HighY)
}

/// The cushion of ULD `uld_id`, counted from both sides of every gap (so
/// twice the cushion volume).
pub open spec fn cushion_sum(rows: Seq<PackageData>, uld_id: int) -> int {
    range_sum(box_terms(rows, uld_id), 0, rows.len() as int)
}

pub open spec fn box_terms(rows: Seq<PackageData>, uld_id: int) -> spec_fn(int) -> int {
    |i: int| if rows[i].uld_id == uld_id { box_sum(rows, rows[i]) } else { 0 }
}

pub open spec fn volume_terms(rows: Seq<PackageData>, uld_id: int) -> spec_fn(int) -> int {
    |i: int| if rows[i].uld_id == uld_id { volume(rows[i]) } else { 0 }
}

pub open spec fn volume(r: PackageData) -> int {
    (r.x2 - r.x1) * (r.y2 - r.y1) * (r.z2 - r.z1)
}

/// The total volume of the boxes of ULD `uld_id`.
pub open spec fn pack_volume(rows: Seq<PackageData>, uld_id: int) -> int {
    range_sum(volume_terms(rows, uld_id), 0, rows.len() as int)
}

pub open spec fn boxes_ok(rows: Seq<PackageData>) -> bool {
    forall|i: int|
        0 <= i < rows.len() ==> (#[trigger] rows[i]).x1 <= rows[i].x2 && rows[i].y1 <= rows[i].y2
            && rows[i].z1 <= rows[i].z2
}

pub proof fn lemma_range_sum_mono(f: spec_fn(int) -> int, lo: int, k: int, hi: int)
    requires
        lo <= k <= hi,
        forall|i: int| lo <= i < hi ==> #[trigger] f(i) >= 0,
    ensures
        range_sum(f, lo, k) <= range_sum(f, lo, hi),
        range_sum(f, lo, hi) >= 0,
    decreases hi - lo,
{
    if hi > lo {
        if k < hi {
            lemma_range_sum_mono(f, lo, k, hi - 1);
        } else {
            lemma_range_sum_mono(f, lo, k - 1, hi - 1);
        }
    }
}

proof fn lemma_nearest_nonneg(rows: Seq<PackageData>, r: PackageData, face: Face, a: int, b: int, n: int)
    ensures
        nearest(rows, r, face, a, b, n) matches Some(g) ==> 0 <= g < 0x1_0000_0000,
    decreases n,
{
    if n > 0 {
        lemma_nearest_nonneg(rows, r, face, a, b, n - 1);
    }
}

/// The gap from face `face` of `r` at lattice point `(a, b)` to the nearest
/// box of `rows` facing it, if any.
pub fn nearest_gap(rows: &Vec<PackageData>, r: &PackageData, face: Face, a: i64, b: i64) -> (g:
    Option<u64>)
    ensures
        match nearest(rows@, *r, face, a as int, b as int, rows@.len() as int) {
            Some(d) => g == Some(d as u64),
            None => g is None,
        },
{
    let n = rows.len();
    let mut best: Option<u64> = None;
    for k in 0..n
        invariant
            n == rows@.len(),
            match nearest(rows@, *r, face, a as int, b as int, k as int) {
                Some(d) => best == Some(d as u64),
                None => best is None,
            },
    {
        let o = rows[k];
        proof {
            lemma_nearest_nonneg(rows@, *r, face, a as int, b as int, k + 1);
            lemma_nearest_nonneg(rows@, *r, face, a as int, b as int, k as int);
        }
        let zin = r.z1 as i64 <= b && o.z1 as i64 <= b && b <= r.z2 as i64 && b <= o.z2 as i64;
        let g: Option<u64> = if o.pack_id == r.pack_id || o.uld_id != r.uld_id || !zin {
            None
        } else if face == Face::LowX || face == Face::HighX {
            if !(r.y1 as i64 <= a && o.y1 as i64 <= a && a <= r.y2 as i64 && a <= o.y2 as i64) {
                None
            } else if o.x2 <= r.x1 {
                if face == Face::LowX {
                    Some((r.x1 as i64 - o.x2 as i64) as u64)
                } else {
                    None
                }
            } else if o.x1 >= r.x2 && face == Face::HighX {
                Some((o.x1 as i64 - r.x2 as i64) as u64)
            } else {
                None
            }
        } else {
            if !(r.x1 as i64 <= a && o.x1 as i64 <= a && a <= r.x2 as i64 && a <= o.x2 as i64) {
                None
            } else if o.y2 <= r.y1 {
                if face == Face::LowY {
                    Some((r.y1 as i64 - o.y2 as i64) as u64)
                } else {
                    None
                }
            } else if o.y1 >= r.y2 && face == Face::HighY {
                Some((o.y1 as i64 - r.y2 as i64) as u64)
            } else {
                None
            }
        };
        assert(match gap(*r, rows@[k as int], face, a as int, b as int) {
            Some(d) => g == Some(d as u64) && 0 <= d < 0x1_0000_0000,
            None => g is None,
        });
        best = match g {
            None => best,
            Some(d) => match best {
                None => Some(d),
                Some(p) => Some(if d < p { d } else { p }),
            },
        };
    }
    best
}

proof fn lemma_point_gap_nonneg(rows: Seq<PackageData>, r: PackageData, face: Face, a: int)
    ensures
        forall|b: int| #[trigger] row_gaps(rows, r, face, a)(b) >= 0,
{
    assert forall|b: int| #[trigger] row_gaps(rows, r, face, a)(b) >= 0 by {
        lemma_nearest_nonneg(rows, r, face, a, b, rows.len() as int);
    }
}

proof fn lemma_face_sum_nonneg(rows: Seq<PackageData>, r: PackageData, face: Face)
    ensures
        forall|a: int| #[trigger] row_totals(rows, r, face)(a) >= 0,
        face_sum(rows, r, face) >= 0,
{
    assert forall|a: int| #[trigger] row_totals(rows, r, face)(a) >= 0 by {
        lemma_point_gap_nonneg(rows, r, face, a);
        if r.z1 <= r.z2 {
            lemma_range_sum_mono(row_gaps(rows, r, face, a), r.z1 as int, r.z1 as int, r.z2 + 1);
        }
    }
    if face_lo(r, face) <= face_hi(r, face) + 1 {
        lemma_range_sum_mono(
            row_totals(rows, r, face),
            face_lo(r, face),
            face_lo(r, face),
            face_hi(r, face) + 1,
        );
    }
}

/// The gaps of face `face` of `r` summed over the face's lattice points, or
/// `None` if the sum exceeds `u128::MAX`.
pub fn face_gap_sum(rows: &Vec<PackageData>, r: &PackageData, face: Face) -> (s: Option<u128>)
    requires
        r.x1 <= r.x2 && r.y1 <= r.y2 && r.z1 <= r.z2,
    ensures
        match s {
            Some(v) => v == face_sum(rows@, *r, face),
            None => face_sum(rows@, *r, face) > u128::MAX,
        },
{
    let lo: i64 = if face == Face::LowX || face == Face::HighX {
        r.y1 as i64
    } else {
        r.x1 as i64
    };
    let hi: i64 = if face == Face::LowX || face == Face::HighX {
        r.y2 as i64
    } else {
        r.x2 as i64
    };
    let ghost fa = row_totals(rows@, *r, face);
    proof {
        lemma_face_sum_nonneg(rows@, *r, face);
    }
    let mut acc: u128 = 0;
    let mut a: i64 = lo;
    while a <= hi
        invariant
            lo == face_lo(*r, face),
            hi == face_hi(*r, face),
            fa == row_totals(rows@, *r, face),
            lo <= a <= hi + 1,
            r.z1 <= r.z2,
            acc == range_sum(fa, lo as int, a as int),
            forall|x: int| #[trigger] fa(x) >= 0,
        decreases hi + 1 - a,
    {
        let ghost gb = row_gaps(rows@, *r, face, a as int);
        proof {
            lemma_point_gap_nonneg(rows@, *r, face, a as int);
        }
        let ghost base = acc;
        let mut b: i64 = r.z1 as i64;
        while b <= r.z2 as i64
            invariant
                lo == face_lo(*r, face),
                hi == face_hi(*r, face),
                fa == row_totals(rows@, *r, face),
                lo <= a <= hi,
                r.z1 <= b <= r.z2 + 1,
                gb == row_gaps(rows@, *r, face, a as int),
                base == range_sum(fa, lo as int, a as int),
                acc == base + range_sum(gb, r.z1 as int, b as int),
                forall|x: int| #[trigger] fa(x) >= 0,
                forall|x: int| #[trigger] gb(x) >= 0,
            decreases r.z2 + 1 - b,
        {
            let g: u128 = match nearest_gap(rows, r, face, a, b) {
                Some(d) => d as u128,
                None => 0,
            };
            proof {
                lemma_nearest_nonneg(rows@, *r, face, a as int, b as int, rows@.len() as int);
            }
            assert(g == gb(b as int));
            match acc.checked_add(g) {
                Some(v) => {
                    acc = v;
                },
                None => {
                    proof {
                        lemma_range_sum_mono(gb, r.z1 as int, b + 1, r.z2 + 1);
                        assert(fa(a as int) == range_sum(gb, r.z1 as int, r.z2 + 1));
                        lemma_range_sum_mono(fa, lo as int, a + 1, hi + 1);
                    }
                    return None;
                },
            }
            b = b + 1;
        }
        assert(acc == range_sum(fa, lo as int, a + 1));
        a = a + 1;
    }
    Some(acc)
}

/// Twice the cushion volume of ULD `uld_id` (each gap is met from both of
/// its sides), or `None` if it exceeds `u128::MAX`.
pub fn uld_cushion(rows: &Vec<PackageData>, uld_id: i32) -> (s: Option<u128>)
    requires
        boxes_ok(rows@),
    ensures
        match s {
            Some(v) => v == cushion_sum(rows@, uld_id as int),
            None => cushion_sum(rows@, uld_id as int) > u128::MAX,
        },
{
    let ghost t = box_terms(rows@, uld_id as int);
    proof {
        assert forall|i: int| #[trigger] t(i) >= 0 by {
            lemma_face_sum_nonneg(rows@, rows@[i], Face::LowX);
            lemma_face_sum_nonneg(rows@, rows@[i], Face::HighX);
            lemma_face_sum_nonneg(rows@, rows@[i], Face::LowY);
            lemma_face_sum_nonneg(rows@, rows@[i], Face::HighY);
        }
    }
    let n = rows.len();
    let mut acc: u128 = 0;
    for i in 0..n
        invariant
            n == rows@.len(),
            boxes_ok(rows@),
            t == box_terms(rows@, uld_id as int),
            acc == range_sum(t, 0, i as int),
            forall|x: int| #[trigger] t(x) >= 0,
    {
        let r = rows[i];
        if r.uld_id == uld_id {
            proof {
                assert(boxes_ok(rows@));
                assert(rows@[i as int] == r);
                lemma_face_sum_nonneg(rows@, r, Face::LowX);
                lemma_face_sum_nonneg(rows@, r, Face::HighX);
                lemma_face_sum_nonneg(rows@, r, Face::LowY);
                lemma_face_sum_nonneg(rows@, r, Face::HighY);
                lemma_range_sum_mono(t, 0, i + 1, n as int);
            }
            let ghost base = acc;
            let f1 = face_gap_sum(rows, &r, Face::LowX);
            let f2 = face_gap_sum(rows, &r, Face::HighX);
            let f3 = face_gap_sum(rows, &r, Face::LowY);
            let f4 = face_gap_sum(rows, &r, Face::HighY);
            let total = match (f1, f2, f3, f4) {
                (Some(v1), Some(v2), Some(v3), Some(v4)) => {
                    match acc.checked_add(v1) {
                        None => None,
                        Some(w1) => match w1.checked_add(v2) {
                            None => None,
                            Some(w2) => match w2.checked_add(v3) {
                                None => None,
                                Some(w3) => w3.checked_add(v4),
                            },
                        },
                    }
                },
                _ => None,
            };
            match total {
                Some(v) => {
                    acc = v;
                },
                None => {
                    return None;
                },
            }
        }
    }
    Some(acc)
}

/// The total volume of the boxes of ULD `uld_id`, or `None` if it exceeds
/// `u128::MAX`.
pub fn uld_pack_volume(rows: &Vec<PackageData>, uld_id: i32) -> (s: Option<u128>)
    requires
        boxes_ok(rows@),
    ensures
        match s {
            Some(v) => v == pack_volume(rows@, uld_id as int),
            None => pack_volume(rows@, uld_id as int) > u128::MAX,
        },
{
    let ghost t = volume_terms(rows@, uld_id as int);
    proof {
        assert forall|i: int| 0 <= i < rows@.len() implies #[trigger] t(i) >= 0 by {
            if rows@[i].uld_id == uld_id {
                let r = rows@[i];
                assert(r.x1 <= r.x2 && r.y1 <= r.y2 && r.z1 <= r.z2);
                let (dx, dy, dz) = (r.x2 - r.x1, r.y2 - r.y1, r.z2 - r.z1);
                assert(dx * dy * dz >= 0) by (nonlinear_arith)
                    requires
                        dx >= 0 && dy >= 0 && dz >= 0,
                ;
            }
        }
    }
    let n = rows.len();
    let mut acc: u128 = 0;
    for i in 0..n
        invariant
            n == rows@.len(),
            boxes_ok(rows@),
            t == volume_terms(rows@, uld_id as int),
            acc == range_sum(t, 0, i as int),
            forall|x: int| 0 <= x < n ==> #[trigger] t(x) >= 0,
    {
        let r = rows[i];
        if r.uld_id == uld_id {
            proof {
                assert(rows@[i as int] == r);
                lemma_range_sum_mono(t, 0, i + 1, n as int);
            }
            let dx = (r.x2 as i64 - r.x1 as i64) as u128;
            let dy = (r.y2 as i64 - r.y1 as i64) as u128;
            let dz = (r.z2 as i64 - r.z1 as i64) as u128;
            assert(dx * dy <= 0x1_0000_0000_0000_0000) by (nonlinear_arith)
                requires
                    dx <= 0x1_0000_0000 && dy <= 0x1_0000_0000,
            ;
            assert(dx * dy * dz <= 0x1_0000_0000_0000_0000_0000_0000) by (nonlinear_arith)
                requires
                    dx * dy <= 0x1_0000_0000_0000_0000 && dz <= 0x1_0000_0000,
            ;
            let v = dx * dy * dz;
            assert(v == volume(r));
            match acc.checked_add(v) {
                Some(w) => {
                    acc = w;
                },
                None => {
                    return None;
                },
            }
        } else {
            assert(t(i as int) == 0);
        }
    }
    Some(acc)
}

} // verus!
