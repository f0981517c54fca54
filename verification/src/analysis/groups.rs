use vstd::prelude::*;

use crate::text::{copy_str, str_eq, string_views};

verus! {

/// Positions grouped by key, as values.
pub type KeyGroups = Seq<(Seq<char>, Seq<usize>)>;

/// The position of the group with the given key.
pub open spec fn find_group(g: KeyGroups, key: Seq<char>) -> Option<int>
    decreases g.len(),
{
    if g.len() == 0 {
        None
    } else if g.last().0 == key {
        Some(g.len() - 1)
    } else {
        find_group(g.drop_last(), key)
    }
}

/// The positions of the first `k` keys grouped by key: groups in order of first
/// appearance, each listing its positions in order.
pub open spec fn key_groups(keys: Seq<Seq<char>>, k: int) -> KeyGroups
    decreases k,
{
    if k <= 0 {
        Seq::empty()
    } else {
        let prev = key_groups(keys, k - 1);
        match find_group(prev, keys[k - 1]) {
            Some(j) => prev.update(j, (keys[k - 1], prev[j].1.push((k - 1) as usize))),
            None => prev.push((keys[k - 1], seq![(k - 1) as usize])),
        }
    }
}

pub proof fn lemma_find_group(g: KeyGroups, key: Seq<char>)
    ensures
        match find_group(g, key) {
            Some(k) => 0 <= k < g.len() && g[k].0 == key,
            None => forall|k: int| 0 <= k < g.len() ==> g[k].0 != key,
        },
    decreases g.len(),
{
    if g.len() > 0 && g.last().0 != key {
        lemma_find_group(g.drop_last(), key);
        let r = find_group(g.drop_last(), key);
        if r is Some {
            assert(g.drop_last()[r.unwrap()] == g[r.unwrap()]);
        } else {
            assert forall|k: int| 0 <= k < g.len() implies g[k].0 != key by {
                if k < g.len() - 1 {
                    assert(g.drop_last()[k] == g[k]);
                }
            }
        }
    }
}

/// Grouping puts each position in the group of its key: every listed position is one of
/// the first `k`, under its own key, and every one of the first `k` positions is listed in
/// the group of its key.
pub proof fn lemma_key_groups(keys: Seq<Seq<char>>, k: int)
    requires
        0 <= k <= keys.len(),
        k <= usize::MAX + 1,
    ensures
        forall|i: int, j: int|
            0 <= i < key_groups(keys, k).len() && 0 <= j < key_groups(keys, k)[i].1.len() ==> {
                let p = #[trigger] key_groups(keys, k)[i].1[j];
                &&& (p as int) < k
                &&& keys[p as int] == key_groups(keys, k)[i].0
            },
        forall|p: int|
            0 <= p < k ==> match find_group(key_groups(keys, k), #[trigger] keys[p]) {
                Some(i) => key_groups(keys, k)[i].1.contains(p as usize),
                None => false,
            },
    decreases k,
{
    if k > 0 {
        lemma_key_groups(keys, k - 1);
        let prev = key_groups(keys, k - 1);
        let g = key_groups(keys, k);
        let key = keys[k - 1];
        lemma_find_group(prev, key);
        assert forall|i: int, j: int| 0 <= i < g.len() && 0 <= j < g[i].1.len() implies {
            let p = #[trigger] g[i].1[j];
            &&& (p as int) < k
            &&& keys[p as int] == g[i].0
        } by {
            match find_group(prev, key) {
                Some(f) => {
                    if i != f {
                        assert(g[i] == prev[i]);
                    } else if j < prev[f].1.len() {
                        assert(g[i].1[j] == prev[f].1[j]);
                    }
                },
                None => {
                    if i < prev.len() {
                        assert(g[i] == prev[i]);
                    }
                },
            }
        }
        assert forall|p: int| 0 <= p < k implies match find_group(g, #[trigger] keys[p]) {
            Some(i) => g[i].1.contains(p as usize),
            None => false,
        } by {
            lemma_find_group(g, keys[p]);
            lemma_find_group(prev, keys[p]);
            match find_group(prev, key) {
                Some(f) => {
                    assert(g =~= prev.update(f, (key, prev[f].1.push((k - 1) as usize))));
                    lemma_find_group_update(prev, f, (key, prev[f].1.push((k - 1) as usize)), keys[p]);
                    if p == k - 1 {
                        assert(g[f].1.last() == (k - 1) as usize);
                        assert(g[f].1[g[f].1.len() - 1] == (k - 1) as usize);
                    } else {
                        let i = find_group(prev, keys[p]).unwrap();
                        assert(prev[i].1.contains(p as usize));
                        let j = choose|j: int| 0 <= j < prev[i].1.len() && prev[i].1[j] == p as usize;
                        if i == f {
                            assert(g[i].1[j] == p as usize);
                        } else {
                            assert(g[i] == prev[i]);
                        }
                    }
                },
                None => {
                    let ng = prev.push((key, seq![(k - 1) as usize]));
                    assert(g == ng);
                    assert(ng.drop_last() =~= prev);
                    if keys[p] == key {
                        assert(find_group(g, keys[p]) == Some(prev.len() as int));
                        if p == k - 1 {
                            assert(g[prev.len() as int].1[0] == (k - 1) as usize);
                        } else {
                            assert(find_group(prev, keys[p]) is Some);
                        }
                    } else {
                        assert(find_group(g, keys[p]) == find_group(prev, keys[p]));
                        let i = find_group(prev, keys[p]).unwrap();
                        assert(g[i] == prev[i]);
                    }
                },
            }
        }
    }
}

proof fn lemma_find_group_update(
    g: KeyGroups,
    f: int,
    e: (Seq<char>, Seq<usize>),
    key: Seq<char>,
)
    requires
        0 <= f < g.len(),
        e.0 == g[f].0,
    ensures
        find_group(g.update(f, e), key) == find_group(g, key),
    decreases g.len(),
{
    let u = g.update(f, e);
    if f < g.len() - 1 {
        assert(u.last() == g.last());
        if g.last().0 != key {
            assert(u.drop_last() =~= g.drop_last().update(f, e));
            lemma_find_group_update(g.drop_last(), f, e, key);
        }
    } else {
        assert(u.drop_last() =~= g.drop_last());
    }
}

/// Groups, as values.
pub open spec fn group_views(v: Seq<(String, Vec<usize>)>) -> KeyGroups {
    v.map_values(|e: (String, Vec<usize>)| (e.0@, e.1@))
}

/// The positions of the keys grouped by key, groups in order of first appearance.
pub fn group_positions(keys: &Vec<String>) -> (r: Vec<(String, Vec<usize>)>)
    ensures
        group_views(r@) == key_groups(string_views(keys@), keys@.len() as int),
{
    let ghost ks = string_views(keys@);
    let mut r: Vec<(String, Vec<usize>)> = Vec::new();
    let mut i: usize = 0;
    proof {
        assert(group_views(r@) =~= key_groups(ks, 0));
    }
    while i < keys.len()
        invariant
            ks == string_views(keys@),
            0 <= i <= keys@.len(),
            group_views(r@) == key_groups(ks, i as int),
        decreases keys@.len() - i,
    {
        let ghost prev = group_views(r@);
        proof {
            lemma_find_group(prev, ks[i as int]);
            assert(ks[i as int] == keys@[i as int]@);
        }
        let mut k: usize = r.len();
        let mut found: Option<usize> = None;
        proof {
            assert(prev.take(k as int) =~= prev);
        }
        while k > 0 && found.is_none()
            invariant
                0 <= k <= r@.len(),
                prev == group_views(r@),
                i < keys@.len(),
                ks == string_views(keys@),
                found is None ==> find_group(prev, ks[i as int]) == find_group(
                    prev.take(k as int),
                    ks[i as int],
                ),
                found matches Some(j) ==> j < r@.len() && find_group(prev, ks[i as int]) == Some(
                    j as int,
                ),
            decreases k, if found is None {
                1int
            } else {
                0int
            },
        {
            proof {
                assert(prev.take(k as int).drop_last() =~= prev.take(k - 1));
                assert(prev.take(k as int).last() == prev[k - 1]);
            }
            if str_eq(r[k - 1].0.as_str(), keys[i].as_str()) {
                found = Some(k - 1);
            } else {
                k = k - 1;
            }
        }
        if found.is_some() {
            let j = found.unwrap();
            r[j].1.push(i);
            proof {
                assert(group_views(r@) =~= prev.update(
                    j as int,
                    (ks[i as int], prev[j as int].1.push(i)),
                ));
            }
        } else {
            proof {
                assert(prev.take(0) =~= Seq::<(Seq<char>, Seq<usize>)>::empty());
            }
            let mut ids: Vec<usize> = Vec::new();
            ids.push(i);
            r.push((copy_str(keys[i].as_str()), ids));
            proof {
                assert(group_views(r@) =~= prev.push((ks[i as int], seq![i])));
            }
        }
        i = i + 1;
    }
    r
}

} // verus!
