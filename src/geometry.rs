//! Axis-aligned cuboids on the integer grid: intersection, the six
//! orientations of a box, and the corner tags of anchors.
use vstd::prelude::*;

verus! {

pub open spec fn min_int(a: int, b: int) -> int {
    if a <= b { a } else { b }
}

pub open spec fn max_int(a: int, b: int) -> int {
    if a >= b { a } else { b }
}

/// Two intervals `[a0, a1]` and `[b0, b1]` share a stretch of positive length.
pub open spec fn overlap(a0: int, a1: int, b0: int, b1: int) -> bool {
    min_int(a1, b1) - max_int(a0, b0) > 0
}

/// The open interiors of the cuboids `a0..a1` and `b0..b1` meet.
pub open spec fn cuboids_intersect(
    a0: (int, int, int),
    a1: (int, int, int),
    b0: (int, int, int),
    b1: (int, int, int),
) -> bool {
    &&& overlap(a0.0, a1.0, b0.0, b1.0)
    &&& overlap(a0.1, a1.1, b0.1, b1.1)
    &&& overlap(a0.2, a1.2, b0.2, b1.2)
}

pub open spec fn triple(a: [i32; 3]) -> (int, int, int) {
    (a[0] as int, a[1] as int, a[2] as int)
}

fn overlap_on_axis(a0: i32, a1: i32, b0: i32, b1: i32) -> (r: bool)
    ensures
        r == overlap(a0 as int, a1 as int, b0 as int, b1 as int),
{
    let hi: i64 = if a1 <= b1 { a1 as i64 } else { b1 as i64 };
    let lo: i64 = if a0 >= b0 { a0 as i64 } else { b0 as i64 };
    hi - lo > 0
}

/// Whether the open interiors of the cuboids `a0..a1` and `b0..b1` meet:
/// shared faces, edges and corners do not count.
pub fn check_intersection_cuboids(a0: [i32; 3], a1: [i32; 3], b0: [i32; 3], b1: [i32; 3]) -> (r:
    bool)
    ensures
        r == cuboids_intersect(triple(a0), triple(a1), triple(b0), triple(b1)),
{
    overlap_on_axis(a0[0], a1[0], b0[0], b1[0]) && overlap_on_axis(a0[1], a1[1], b0[1], b1[1])
        && overlap_on_axis(a0[2], a1[2], b0[2], b1[2])
}

/// The `k`-th of the six axis-aligned orientations of a box of size
/// `(l, w, h)`, in the order in which the placer tries them.
pub open spec fn orientation(l: int, w: int, h: int, k: int) -> (int, int, int) {
    if k == 0 {
        (l, w, h)
    } else if k == 1 {
        (l, h, w)
    } else if k == 2 {
        (w, l, h)
    } else if k == 3 {
        (w, h, l)
    } else if k == 4 {
        (h, l, w)
    } else {
        (h, w, l)
    }
}

/// `d` is a permutation of `(l, w, h)`.
pub open spec fn is_orientation(l: int, w: int, h: int, d: (int, int, int)) -> bool {
    exists|k: int| 0 <= k < 6 && #[trigger] orientation(l, w, h, k) == d
}

/// The six orientations of a box of size `(l, w, h)`, in placement order.
pub fn orientations(l: i32, w: i32, h: i32) -> (r: Vec<[i32; 3]>)
    ensures
        r@.len() == 6,
        forall|k: int|
            0 <= k < 6 ==> #[trigger] triple(r@[k]) == orientation(l as int, w as int, h as int, k),
{
    let r = vec![[l, w, h], [l, h, w], [w, l, h], [w, h, l], [h, l, w], [h, w, l]];
    assert forall|k: int| 0 <= k < 6 implies #[trigger] triple(r@[k]) == orientation(
        l as int,
        w as int,
        h as int,
        k,
    ) by {
        if k == 0 {
        } else if k == 1 {
        } else if k == 2 {
        } else if k == 3 {
        } else if k == 4 {
        } else {
        }
    }
    r
}

/// The sign vector of corner tag `t` (1 to 8): the direction in which a box
/// grows from an anchor with that tag.
pub open spec fn tag_sign(t: int) -> (int, int, int) {
    if t == 2 {
        (0, -1, 0)
    } else if t == 3 {
        (-1, 0, 0)
    } else if t == 4 {
        (-1, -1, 0)
    } else if t == 5 {
        (0, 0, -1)
    } else if t == 6 {
        (0, -1, -1)
    } else if t == 7 {
        (-1, 0, -1)
    } else if t == 8 {
        (-1, -1, -1)
    } else {
        (0, 0, 0)
    }
}

/// The minimum corner of a box of size `d` put at anchor point `p` with tag `t`.
pub open spec fn anchored_min(p: (int, int, int), t: int, d: (int, int, int)) -> (int, int, int) {
    (
        p.0 + signed(tag_sign(t).0, d.0),
        p.1 + signed(tag_sign(t).1, d.1),
        p.2 + signed(tag_sign(t).2, d.2),
    )
}

/// `s * d` for a sign `s` in {-1, 0}.
pub open spec fn signed(s: int, d: int) -> int {
    if s < 0 { -d } else { 0 }
}

/// The minimum corner of a box of size `(a, b, c)` whose corner selected by
/// tag `t` sits at `(x, y, z)`.
pub fn anchored_corner(x: i32, y: i32, z: i32, t: i32, a: i32, b: i32, c: i32) -> (r: (
    i64,
    i64,
    i64,
))
    requires
        a >= 0,
        b >= 0,
        c >= 0,
    ensures
        (r.0 as int, r.1 as int, r.2 as int) == anchored_min(
            (x as int, y as int, z as int),
            t as int,
            (a as int, b as int, c as int),
        ),
{
    let (x, y, z, a, b, c) = (x as i64, y as i64, z as i64, a as i64, b as i64, c as i64);
    if t == 2 {
        (x, y - b, z)
    } else if t == 3 {
        (x - a, y, z)
    } else if t == 4 {
        (x - a, y - b, z)
    } else if t == 5 {
        (x, y, z - c)
    } else if t == 6 {
        (x, y - b, z - c)
    } else if t == 7 {
        (x - a, y, z - c)
    } else if t == 8 {
        (x - a, y - b, z - c)
    } else {
        (x, y, z)
    }
}

} // verus!
