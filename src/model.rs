//! Packages, unit load devices, placement records and anchors, with the
//! validity of a placement set.
use vstd::prelude::*;

use crate::geometry::{cuboids_intersect, is_orientation};

verus! {

/// A box to be loaded; its dimensions are whole grid units.
#[derive(Clone, Debug)]
pub struct Package {
    pub id: String,
    pub length: i32,
    pub width: i32,
    pub height: i32,
    pub weight: i32,
    pub cost: i32,
    pub priority: bool,
}

/// A unit load device: a container with interior dimensions and a weight
/// capacity (`weight`).
#[derive(Clone, Debug)]
pub struct ULD {
    pub id: String,
    pub length: i32,
    pub width: i32,
    pub height: i32,
    pub weight: i32,
}

impl Package {
    pub open spec fn valid(&self) -> bool {
        &&& self.length > 0
        &&& self.width > 0
        &&& self.height > 0
        &&& self.weight >= 0
        &&& self.cost >= 0
    }
}

impl ULD {
    pub open spec fn valid(&self) -> bool {
        &&& self.length > 0
        &&& self.width > 0
        &&& self.height > 0
        &&& self.weight >= 0
    }

    /// The weight this ULD can carry.
    pub fn capacity(&self) -> (r: i32)
        ensures
            r == self.weight,
    {
        self.weight
    }
}

pub open spec fn valid_packages(pkgs: Seq<Package>) -> bool {
    forall|i: int| 0 <= i < pkgs.len() ==> (#[trigger] pkgs[i]).valid()
}

pub open spec fn valid_ulds(ulds: Seq<ULD>) -> bool {
    forall|i: int| 0 <= i < ulds.len() ==> (#[trigger] ulds[i]).valid()
}

/// Package `pkg` occupies the box `(x1, y1, z1)..(x2, y2, z2)` of ULD `uld`.
#[derive(Clone, Copy, Debug, PartialEq, Eq, Structural)]
pub struct PlacementRecord {
    pub pkg: usize,
    pub uld: usize,
    pub x1: i32,
    pub y1: i32,
    pub z1: i32,
    pub x2: i32,
    pub y2: i32,
    pub z2: i32,
}

impl PlacementRecord {
    pub open spec fn lo(self) -> (int, int, int) {
        (self.x1 as int, self.y1 as int, self.z1 as int)
    }

    pub open spec fn hi(self) -> (int, int, int) {
        (self.x2 as int, self.y2 as int, self.z2 as int)
    }

    pub open spec fn size(self) -> (int, int, int) {
        (self.x2 - self.x1, self.y2 - self.y1, self.z2 - self.z1)
    }
}

/// A candidate point `(x, y, z)` of a ULD where a box's corner selected by
/// `tag` may be put.
#[derive(Clone, Copy, Debug, PartialEq, Eq, Structural)]
pub struct Anchor {
    pub x: i32,
    pub y: i32,
    pub z: i32,
    pub tag: i32,
}

impl Anchor {
    pub open spec fn point(self) -> (int, int, int) {
        (self.x as int, self.y as int, self.z as int)
    }
}

/// The anchor sets of all ULDs, as sequences.
pub open spec fn anchor_view(a: Seq<Vec<Anchor>>) -> Seq<Seq<Anchor>> {
    Seq::new(a.len(), |u: int| a[u]@)
}

/// Two records in the same ULD whose interiors meet.
pub open spec fn records_clash(r: PlacementRecord, s: PlacementRecord) -> bool {
    r.uld == s.uld && cuboids_intersect(r.lo(), r.hi(), s.lo(), s.hi())
}

/// The record lies inside its ULD and its size is an orientation of its package.
pub open spec fn record_fits(pkgs: Seq<Package>, ulds: Seq<ULD>, r: PlacementRecord) -> bool {
    &&& r.pkg < pkgs.len()
    &&& r.uld < ulds.len()
    &&& 0 <= r.x1 < r.x2 <= ulds[r.uld as int].length
    &&& 0 <= r.y1 < r.y2 <= ulds[r.uld as int].width
    &&& 0 <= r.z1 < r.z2 <= ulds[r.uld as int].height
    &&& is_orientation(
        pkgs[r.pkg as int].length as int,
        pkgs[r.pkg as int].width as int,
        pkgs[r.pkg as int].height as int,
        r.size(),
    )
}

pub open spec fn all_fit(pkgs: Seq<Package>, ulds: Seq<ULD>, recs: Seq<PlacementRecord>) -> bool {
    forall|i: int| 0 <= i < recs.len() ==> record_fits(pkgs, ulds, #[trigger] recs[i])
}

pub open spec fn non_overlapping(recs: Seq<PlacementRecord>) -> bool {
    forall|i: int, j: int|
        0 <= i < recs.len() && 0 <= j < recs.len() && i != j ==> !records_clash(
            #[trigger] recs[i],
            #[trigger] recs[j],
        )
}

pub open spec fn at_most_once(recs: Seq<PlacementRecord>) -> bool {
    forall|i: int, j: int|
        0 <= i < recs.len() && 0 <= j < recs.len() && i != j ==> (#[trigger] recs[i]).pkg
            != (#[trigger] recs[j]).pkg
}

/// Some record puts package `p` in ULD `u`.
pub open spec fn placed_in(recs: Seq<PlacementRecord>, p: int, u: int) -> bool {
    exists|i: int| 0 <= i < recs.len() && #[trigger] recs[i].pkg == p && recs[i].uld == u
}

/// Some record holds package `p`.
pub open spec fn is_placed(recs: Seq<PlacementRecord>, p: int) -> bool {
    exists|i: int| 0 <= i < recs.len() && #[trigger] recs[i].pkg == p
}

/// The weight that the records put in ULD `u`, counting packages `0..n`.
pub open spec fn uld_load(pkgs: Seq<Package>, recs: Seq<PlacementRecord>, u: int, n: int) -> int
    decreases n,
{
    if n <= 0 {
        0
    } else {
        uld_load(pkgs, recs, u, n - 1) + if placed_in(recs, n - 1, u) {
            pkgs[n - 1].weight as int
        } else {
            0
        }
    }
}

pub open spec fn within_capacity(
    pkgs: Seq<Package>,
    ulds: Seq<ULD>,
    recs: Seq<PlacementRecord>,
) -> bool {
    forall|u: int|
        0 <= u < ulds.len() ==> #[trigger] uld_load(pkgs, recs, u, pkgs.len() as int)
            <= ulds[u].weight
}

/// A placement set: every box inside its ULD in an orientation of its
/// package, no two boxes of a ULD overlapping, no package twice, and no ULD
/// over its capacity.
pub open spec fn valid_placement(
    pkgs: Seq<Package>,
    ulds: Seq<ULD>,
    recs: Seq<PlacementRecord>,
) -> bool {
    &&& all_fit(pkgs, ulds, recs)
    &&& non_overlapping(recs)
    &&& at_most_once(recs)
    &&& within_capacity(pkgs, ulds, recs)
}

pub proof fn lemma_load_nonneg(pkgs: Seq<Package>, recs: Seq<PlacementRecord>, u: int, n: int)
    requires
        valid_packages(pkgs),
        n <= pkgs.len(),
    ensures
        uld_load(pkgs, recs, u, n) >= 0,
    decreases n,
{
    if n > 0 {
        lemma_load_nonneg(pkgs, recs, u, n - 1);
        assert(pkgs[n - 1].valid());
    }
}

/// Loads depend only on which package is in which ULD.
pub proof fn lemma_load_same_contents(
    pkgs: Seq<Package>,
    a: Seq<PlacementRecord>,
    b: Seq<PlacementRecord>,
    u: int,
    n: int,
)
    requires
        forall|p: int| #![auto] 0 <= p < n ==> (placed_in(a, p, u) <==> placed_in(b, p, u)),
    ensures
        uld_load(pkgs, a, u, n) == uld_load(pkgs, b, u, n),
    decreases n,
{
    if n > 0 {
        lemma_load_same_contents(pkgs, a, b, u, n - 1);
    }
}

/// Adding a record for a package that no record holds adds its weight to
/// the load of its ULD and leaves the others alone.
pub proof fn lemma_load_push(
    pkgs: Seq<Package>,
    recs: Seq<PlacementRecord>,
    r: PlacementRecord,
    u: int,
    n: int,
)
    requires
        !is_placed(recs, r.pkg as int),
        0 <= n,
    ensures
        uld_load(pkgs, recs.push(r), u, n) == uld_load(pkgs, recs, u, n) + if u == r.uld && r.pkg
            < n {
            pkgs[r.pkg as int].weight as int
        } else {
            0
        },
    decreases n,
{
    if n > 0 {
        lemma_load_push(pkgs, recs, r, u, n - 1);
        let p = n - 1;
        let s = recs.push(r);
        if placed_in(recs, p, u) {
            let i = choose|i: int| 0 <= i < recs.len() && #[trigger] recs[i].pkg == p && recs[i].uld == u;
            assert(s[i] == recs[i]);
        }
        if placed_in(s, p, u) {
            let i = choose|i: int| 0 <= i < s.len() && #[trigger] s[i].pkg == p && s[i].uld == u;
            if i < recs.len() {
                assert(recs[i] == s[i]);
            }
        }
        if p == r.pkg && u == r.uld {
            assert(s[recs.len() as int] == r);
        }
        if p == r.pkg {
            assert(!placed_in(recs, p, u)) by {
                if placed_in(recs, p, u) {
                    let i = choose|i: int|
                        0 <= i < recs.len() && #[trigger] recs[i].pkg == p && recs[i].uld == u;
                    assert(recs[i].pkg == r.pkg);
                }
            }
        }
    }
}

} // verus!
