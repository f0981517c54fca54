use vstd::prelude::*;

verus! {

/// `p` lists positions of `keys` by decreasing key, equal keys in their original order,
/// each position once.
pub open spec fn is_desc_order(keys: Seq<u128>, p: Seq<usize>) -> bool {
    &&& p.len() == keys.len()
    &&& forall|i: int| 0 <= i < p.len() ==> p[i] < keys.len()
    &&& forall|i: int, j: int|
        0 <= i < j < p.len() ==> keys[p[i] as int] > keys[p[j] as int] || (keys[p[i] as int]
            == keys[p[j] as int] && p[i] < p[j])
}

/// `p` lists every position below its length once.
pub open spec fn is_permutation(p: Seq<usize>) -> bool {
    &&& forall|i: int| 0 <= i < p.len() ==> p[i] < p.len()
    &&& forall|i: int, j: int| 0 <= i < j < p.len() ==> p[i] != p[j]
}

/// The positions of `keys` by decreasing key; equal keys keep their order (a stable
/// sort, largest first).
pub fn order_desc(keys: &Vec<u128>) -> (p: Vec<usize>)
    ensures
        is_desc_order(keys@, p@),
{
    let n = keys.len();
    let mut c: Vec<usize> = Vec::new();
    let mut i: usize = 0;
    while i < n
        invariant
            n == keys@.len(),
            0 <= i <= n,
            c@.len() == i,
            forall|j: int| 0 <= j < c@.len() ==> c@[j] < i,
            forall|a: int, b: int|
                0 <= a < b < c@.len() ==> keys@[c@[a] as int] > keys@[c@[b] as int] || (
                keys@[c@[a] as int] == keys@[c@[b] as int] && c@[a] < c@[b]),
        decreases n - i,
    {
        let k = keys[i];
        // first position whose key is smaller than key i
        let mut lo: usize = 0;
        let mut hi: usize = c.len();
        while lo < hi
            invariant
                0 <= lo <= hi <= c@.len(),
                c@.len() == i,
                i < n,
                n == keys@.len(),
                k == keys@[i as int],
                forall|j: int| 0 <= j < c@.len() ==> c@[j] < i,
                forall|k2: int| 0 <= k2 < lo ==> keys@[c@[k2] as int] >= k,
                forall|k2: int| hi <= k2 < c@.len() ==> keys@[c@[k2] as int] < k,
                forall|a: int, b: int|
                    0 <= a < b < c@.len() ==> keys@[c@[a] as int] > keys@[c@[b] as int] || (
                    keys@[c@[a] as int] == keys@[c@[b] as int] && c@[a] < c@[b]),
            decreases hi - lo,
        {
            let mid = lo + (hi - lo) / 2;
            if keys[c[mid]] >= k {
                assert forall|k2: int| 0 <= k2 < mid + 1 implies keys@[c@[k2] as int] >= k by {
                    if k2 < mid {
                        assert(keys@[c@[k2] as int] >= keys@[c@[mid as int] as int]);
                    }
                }
                lo = mid + 1;
            } else {
                assert forall|k2: int| mid <= k2 < c@.len() implies keys@[c@[k2] as int] < k by {
                    if k2 > mid {
                        assert(keys@[c@[mid as int] as int] >= keys@[c@[k2] as int]);
                    }
                }
                hi = mid;
            }
        }
        let ghost before = c@;
        c.insert(lo, i);
        proof {
            assert forall|a: int, b: int| 0 <= a < b < c@.len() implies keys@[c@[a] as int]
                > keys@[c@[b] as int] || (keys@[c@[a] as int] == keys@[c@[b] as int] && c@[a]
                < c@[b]) by {
                if b < lo {
                    assert(c@[a] == before[a] && c@[b] == before[b]);
                } else if b == lo {
                    assert(c@[a] == before[a]);
                } else if a < lo {
                    assert(c@[a] == before[a] && c@[b] == before[b - 1]);
                } else if a == lo {
                    assert(c@[b] == before[b - 1]);
                } else {
                    assert(c@[a] == before[a - 1] && c@[b] == before[b - 1]);
                }
            }
            assert forall|j: int| 0 <= j < c@.len() implies c@[j] < i + 1 by {
                if j < lo {
                    assert(c@[j] == before[j]);
                } else if j > lo {
                    assert(c@[j] == before[j - 1]);
                }
            }
        }
        i = i + 1;
    }
    c
}

/// A sequence of `n` distinct positions below `n` lists every position below `n`.
pub proof fn lemma_distinct_covers(p: Seq<usize>, n: int)
    requires
        p.len() == n,
        forall|i: int| 0 <= i < p.len() ==> p[i] < n,
        forall|i: int, j: int| 0 <= i < j < p.len() ==> p[i] != p[j],
    ensures
        forall|x: usize| (x as int) < n ==> #[trigger] p.contains(x),
{
    let q = p.map_values(|v: usize| v as int);
    assert(q.no_duplicates()) by {
        assert forall|i: int, j: int| 0 <= i < q.len() && 0 <= j < q.len() && i != j implies q[i]
            != q[j] by {
            if i < j {
                assert(p[i] != p[j]);
            } else {
                assert(p[j] != p[i]);
            }
        }
    }
    q.unique_seq_to_set();
    vstd::set_lib::lemma_int_range(0, n);
    let r = vstd::set_lib::set_int_range(0, n);
    assert(q.to_set().subset_of(r)) by {
        assert forall|x: int| q.to_set().contains(x) implies r.contains(x) by {
            let i = choose|i: int| 0 <= i < q.len() && q[i] == x;
            assert(q[i] == p[i] as int);
        }
    }
    vstd::set_lib::lemma_len_subset(q.to_set(), r);
    vstd::set_lib::lemma_subset_equality(q.to_set(), r);
    assert forall|x: usize| (x as int) < n implies #[trigger] p.contains(x) by {
        assert(r.contains(x as int));
        assert(q.to_set().contains(x as int));
        let i = choose|i: int| 0 <= i < q.len() && q[i] == x as int;
        assert(p[i] == x);
    }
}

/// A stable descending order lists every position exactly once: it is a permutation.
pub proof fn lemma_desc_order_permutation(keys: Seq<u128>, p: Seq<usize>)
    requires
        is_desc_order(keys, p),
    ensures
        forall|i: int, j: int| 0 <= i < j < p.len() ==> p[i] != p[j],
        forall|x: usize| (x as int) < keys.len() ==> #[trigger] p.contains(x),
{
    assert forall|i: int, j: int| 0 <= i < j < p.len() implies p[i] != p[j] by {
        assert(keys[p[i] as int] > keys[p[j] as int] || p[i] < p[j]);
    }
    lemma_distinct_covers(p, keys.len() as int);
}

} // verus!
