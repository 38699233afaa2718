//! Stable ranking of scored items: the best key first, ties in their prior order.
use vstd::prelude::*;

verus! {

/// Item `i` comes before item `j`: its key is greater, or the keys are equal and
/// it stood earlier.
pub open spec fn ranked_before(keys: Seq<Option<i128>>, i: int, j: int) -> bool {
    keys[i]->0 > keys[j]->0 || (keys[i]->0 == keys[j]->0 && i < j)
}

/// `r` lists the positions of the first `n` keys that are present, each once,
/// by key from greatest to least, ties in their prior order.
pub open spec fn ranks_prefix(keys: Seq<Option<i128>>, r: Seq<usize>, n: int) -> bool {
    &&& forall|k: int| 0 <= k < r.len() ==> #[trigger] r[k] < n && keys[r[k] as int] is Some
    &&& forall|i: int| 0 <= i < n && #[trigger] keys[i] is Some ==> r.contains(i as usize)
    &&& forall|a: int, b: int|
        0 <= a < b < r.len() ==> ranked_before(keys, #[trigger] r[a] as int, #[trigger] r[b] as int)
}

/// `r` is the stable ranking of `keys`: the positions of the keys that are
/// present, each once, by key from greatest to least, ties in their prior order.
/// Absent keys are left out.
pub open spec fn is_stable_rank(keys: Seq<Option<i128>>, r: Seq<usize>) -> bool {
    ranks_prefix(keys, r, keys.len() as int)
}

/// At most one sequence is the stable ranking of a list of keys.
pub proof fn lemma_stable_rank_unique(keys: Seq<Option<i128>>, r1: Seq<usize>, r2: Seq<usize>)
    requires
        keys.len() <= usize::MAX,
        is_stable_rank(keys, r1),
        is_stable_rank(keys, r2),
    ensures
        r1 == r2,
    decreases r1.len() + r2.len(),
{
    if r1.len() > 0 && r2.len() > 0 {
        // the first entry of each ranks before every other present key
        let x = r1[0];
        let y = r2[0];
        assert(r2.contains(x));
        assert(r1.contains(y));
        let i = choose|i: int| 0 <= i < r2.len() && r2[i] == x;
        let j = choose|j: int| 0 <= j < r1.len() && r1[j] == y;
        if x != y {
            assert(i > 0);
            assert(j > 0);
            assert(ranked_before(keys, x as int, y as int));
            assert(ranked_before(keys, y as int, x as int));
        }
        let k2 = keys.update(x as int, None);
        let s1 = r1.drop_first();
        let s2 = r2.drop_first();
        assert forall|a: int, b: int| 0 <= a < b < s1.len() implies ranked_before(
            k2,
            #[trigger] s1[a] as int,
            #[trigger] s1[b] as int,
        ) by {
            assert(ranked_before(keys, r1[a + 1] as int, r1[b + 1] as int));
            assert(r1[a + 1] != x && r1[b + 1] != x) by {
                assert(ranked_before(keys, r1[0] as int, r1[a + 1] as int));
                assert(ranked_before(keys, r1[0] as int, r1[b + 1] as int));
            }
        }
        assert forall|a: int, b: int| 0 <= a < b < s2.len() implies ranked_before(
            k2,
            #[trigger] s2[a] as int,
            #[trigger] s2[b] as int,
        ) by {
            assert(ranked_before(keys, r2[a + 1] as int, r2[b + 1] as int));
            assert(r2[a + 1] != x && r2[b + 1] != x) by {
                assert(ranked_before(keys, r2[0] as int, r2[a + 1] as int));
                assert(ranked_before(keys, r2[0] as int, r2[b + 1] as int));
            }
        }
        assert forall|k: int| 0 <= k < s1.len() implies #[trigger] s1[k] < k2.len()
            && k2[s1[k] as int] is Some by {
            assert(ranked_before(keys, r1[0] as int, r1[k + 1] as int));
        }
        assert forall|k: int| 0 <= k < s2.len() implies #[trigger] s2[k] < k2.len()
            && k2[s2[k] as int] is Some by {
            assert(ranked_before(keys, r2[0] as int, r2[k + 1] as int));
        }
        assert forall|i: int| 0 <= i < k2.len() && #[trigger] k2[i] is Some implies s1.contains(
            i as usize,
        ) && s2.contains(i as usize) by {
            assert(keys[i] is Some);
            assert(r1.contains(i as usize));
            assert(r2.contains(i as usize));
            let a = choose|a: int| 0 <= a < r1.len() && r1[a] == i as usize;
            let b = choose|b: int| 0 <= b < r2.len() && r2[b] == i as usize;
            assert(x == y);
            assert(i != x as int);
            assert((i as usize) != x);
            assert(a != 0 && b != 0);
            assert(s1[a - 1] == i as usize);
            assert(s2[b - 1] == i as usize);
        }
        lemma_stable_rank_unique(k2, s1, s2);
        assert(r1 =~= seq![x] + s1);
        assert(r2 =~= seq![y] + s2);
    } else if r1.len() > 0 {
        assert(r2.contains(r1[0]));
    } else if r2.len() > 0 {
        assert(r1.contains(r2[0]));
    } else {
        assert(r1 =~= r2);
    }
}

/// The stable ranking of `keys`: the positions of the present keys, greatest key
/// first, equal keys in their prior order.
pub fn stable_rank(keys: &Vec<Option<i128>>) -> (r: Vec<usize>)
    ensures
        is_stable_rank(keys@, r@),
{
    let mut r: Vec<usize> = Vec::new();
    let n = keys.len();
    for i in 0..n
        invariant
            n == keys.len(),
            ranks_prefix(keys@, r@, i as int),
    {
        if let Some(k) = keys[i] {
            // the entries whose key is at least `k` form a prefix of `r`
            let mut lo: usize = 0;
            let mut hi: usize = r.len();
            while lo < hi
                invariant
                    0 <= lo <= hi <= r.len(),
                    n == keys.len(),
                    i < n,
                    ranks_prefix(keys@, r@, i as int),
                    forall|q: int| 0 <= q < lo ==> keys@[#[trigger] r@[q] as int]->0 >= k,
                    forall|q: int| hi <= q < r.len() ==> keys@[#[trigger] r@[q] as int]->0 < k,
                decreases hi - lo,
            {
                let mid = lo + (hi - lo) / 2;
                assert(r@[mid as int] < i);
                let km = match keys[r[mid]] {
                    Some(x) => x,
                    None => 0,
                };
                if km >= k {
                    assert forall|q: int| 0 <= q <= mid implies keys@[#[trigger] r@[q] as int]->0
                        >= k by {
                        if q < mid {
                            assert(ranked_before(keys@, r@[q] as int, r@[mid as int] as int));
                        }
                    }
                    lo = mid + 1;
                } else {
                    assert forall|q: int| mid <= q < r.len() implies keys@[#[trigger] r@[
                        q
                    ] as int]->0 < k by {
                        if q > mid {
                            assert(ranked_before(keys@, r@[mid as int] as int, r@[q] as int));
                        }
                    }
                    hi = mid;
                }
            }
            let ghost old_r = r@;
            r.insert(lo, i);
            proof {
                assert forall|a: int, b: int| 0 <= a < b < r@.len() implies ranked_before(
                    keys@,
                    #[trigger] r@[a] as int,
                    #[trigger] r@[b] as int,
                ) by {
                    if b < lo {
                        assert(ranked_before(keys@, old_r[a] as int, old_r[b] as int));
                    } else if a < lo && b > lo {
                        assert(ranked_before(keys@, old_r[a] as int, old_r[b - 1] as int));
                    } else if a > lo {
                        assert(ranked_before(keys@, old_r[a - 1] as int, old_r[b - 1] as int));
                    } else if a == lo {
                        assert(keys@[old_r[b - 1] as int]->0 < k);
                    } else {
                        assert(b == lo);
                        assert(keys@[old_r[a] as int]->0 >= k);
                    }
                }
                assert forall|j: int| 0 <= j < i + 1 && #[trigger] keys@[j] is Some implies r@.contains(
                    j as usize,
                ) by {
                    if j < i {
                        assert(old_r.contains(j as usize));
                        let q = choose|q: int| 0 <= q < old_r.len() && old_r[q] == j as usize;
                        if q < lo {
                            assert(r@[q] == j as usize);
                        } else {
                            assert(r@[q + 1] == j as usize);
                        }
                    } else {
                        assert(r@[lo as int] == i);
                    }
                }
                assert forall|q: int| 0 <= q < r@.len() implies #[trigger] r@[q] < i + 1
                    && keys@[r@[q] as int] is Some by {
                    if q < lo {
                        assert(r@[q] == old_r[q]);
                    } else if q > lo {
                        assert(r@[q] == old_r[q - 1]);
                    }
                }
            }
        } else {
            assert forall|j: int| 0 <= j < i + 1 && #[trigger] keys@[j] is Some implies r@.contains(
                j as usize,
            ) by {}
        }
    }
    r
}

} // verus!
