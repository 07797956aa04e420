//! A stable ordering of indices by integer keys.
use vstd::prelude::*;

verus! {

pub open spec fn lex_lt(a: (i128, i128, i128), b: (i128, i128, i128)) -> bool {
    a.0 < b.0 || (a.0 == b.0 && (a.1 < b.1 || (a.1 == b.1 && a.2 < b.2)))
}

/// Index `a` comes before index `b`: a smaller key, or an equal key and a
/// smaller index.
pub open spec fn index_before(keys: Seq<(i128, i128, i128)>, a: int, b: int) -> bool {
    lex_lt(keys[a], keys[b]) || (keys[a] == keys[b] && a < b)
}

/// `r` lists each of `0..keys.len()` once, in ascending key order, equal keys
/// in ascending index order.
pub open spec fn stably_sorted(keys: Seq<(i128, i128, i128)>, r: Seq<usize>) -> bool {
    &&& r.len() == keys.len()
    &&& forall|k: int| 0 <= k < r.len() ==> #[trigger] r[k] < keys.len()
    &&& forall|j: int| 0 <= j < keys.len() ==> #[trigger] r.contains(j as usize)
    &&& forall|a: int, b: int|
        0 <= a < b < r.len() ==> index_before(keys, #[trigger] r[a] as int, #[trigger] r[b] as int)
}

/// The position at which insertion sort puts index `j` into `s`, searching
/// from position `p`: before the first entry whose key is larger.
pub open spec fn insert_pos(keys: Seq<(i128, i128, i128)>, s: Seq<usize>, j: int, p: int) -> int
    decreases s.len() - p,
{
    if p >= s.len() || lex_lt(keys[j], keys[s[p] as int]) {
        p
    } else {
        insert_pos(keys, s, j, p + 1)
    }
}

/// Insertion sort of the indices `0..n` by key.
pub open spec fn sort_spec(keys: Seq<(i128, i128, i128)>, n: int) -> Seq<usize>
    decreases n,
{
    if n <= 0 {
        seq![]
    } else {
        let s = sort_spec(keys, n - 1);
        s.insert(insert_pos(keys, s, n - 1, 0), (n - 1) as usize)
    }
}

fn key_lt(a: (i128, i128, i128), b: (i128, i128, i128)) -> (r: bool)
    ensures
        r == lex_lt(a, b),
{
    a.0 < b.0 || (a.0 == b.0 && (a.1 < b.1 || (a.1 == b.1 && a.2 < b.2)))
}

/// The indices of `keys` in ascending key order; equal keys keep their
/// index order.
pub fn sort_indices(keys: &Vec<(i128, i128, i128)>) -> (r: Vec<usize>)
    ensures
        stably_sorted(keys@, r@),
        r@ == sort_spec(keys@, keys@.len() as int),
{
    let n = keys.len();
    let mut r: Vec<usize> = Vec::new();
    for j in 0..n
        invariant
            n == keys@.len(),
            r@.len() == j,
            r@ == sort_spec(keys@, j as int),
            forall|k: int| 0 <= k < r@.len() ==> #[trigger] r@[k] < j,
            forall|i: int| 0 <= i < j ==> #[trigger] r@.contains(i as usize),
            forall|a: int, b: int|
                0 <= a < b < r@.len() ==> index_before(
                    keys@,
                    #[trigger] r@[a] as int,
                    #[trigger] r@[b] as int,
                ),
    {
        let mut p: usize = 0;
        while p < r.len() && !key_lt(keys[j], keys[r[p]])
            invariant
                p <= r@.len(),
                n == keys@.len(),
                j < n,
                forall|k: int| 0 <= k < r@.len() ==> #[trigger] r@[k] < j,
                forall|q: int| 0 <= q < p ==> !lex_lt(keys@[j as int], keys@[#[trigger] r@[q] as int]),
                insert_pos(keys@, r@, j as int, 0) == insert_pos(keys@, r@, j as int, p as int),
            decreases r@.len() - p,
        {
            p = p + 1;
        }
        let ghost old_r = r@;
        r.insert(p, j);
        proof {
            assert forall|k: int| 0 <= k < r@.len() implies #[trigger] r@[k] < j + 1 by {
                if k < p {
                    assert(r@[k] == old_r[k]);
                } else if k > p {
                    assert(r@[k] == old_r[k - 1]);
                }
            }
            assert forall|i: int| 0 <= i < j + 1 implies #[trigger] r@.contains(i as usize) by {
                if i == j {
                    assert(r@[p as int] == j);
                } else {
                    assert(old_r.contains(i as usize));
                    let k = choose|k: int| 0 <= k < old_r.len() && old_r[k] == i as usize;
                    if k < p {
                        assert(r@[k] == old_r[k]);
                    } else {
                        assert(r@[k + 1] == old_r[k]);
                    }
                }
            }
            assert forall|a: int, b: int| 0 <= a < b < r@.len() implies index_before(
                keys@,
                #[trigger] r@[a] as int,
                #[trigger] r@[b] as int,
            ) by {
                if a < p && b < p {
                    assert(r@[a] == old_r[a] && r@[b] == old_r[b]);
                } else if a < p && b == p {
                    assert(r@[a] == old_r[a]);
                } else if a < p {
                    assert(r@[a] == old_r[a] && r@[b] == old_r[b - 1]);
                } else if a == p {
                    assert(r@[b] == old_r[b - 1]);
                    assert(lex_lt(keys@[j as int], keys@[old_r[p as int] as int]));
                    if b - 1 > p {
                        assert(index_before(keys@, old_r[p as int] as int, old_r[b - 1] as int));
                    }
                } else {
                    assert(r@[a] == old_r[a - 1] && r@[b] == old_r[b - 1]);
                }
            }
        }
    }
    r
}

} // verus!
