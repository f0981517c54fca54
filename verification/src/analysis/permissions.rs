use vstd::prelude::*;

use super::detail::{detail_source, raw_detail};
use super::order::{is_desc_order, order_desc};
use super::time::ts_bound;
use crate::model::tool_event::{millis_toward_zero, wait_ms, LifecycleView, ToolCallLifecycle};
use crate::text::{copy_str, str_eq, string_views, truncate, truncated};

verus! {

/// The detail of a call as the permission reports show it: the raw detail cut to 40
/// bytes.
pub fn permission_detail(tool_name: &str, input: &str) -> (r: String)
    ensures
        r@ == truncated(raw_detail(tool_name@, input@), 40),
{
    let raw = detail_source(tool_name, input);
    truncate(raw.as_str(), 40)
}

/// Permission statistics of a group of tool calls.
#[derive(Debug)]
pub struct PermissionStats {
    pub name: String,
    pub calls: usize,
    pub prompted: usize,
    pub denied: usize,
    /// The summed permission waits, in milliseconds.
    pub wait_ms: i128,
}

/// Permission statistics, as values: name, calls, prompted, denied, wait.
pub type PermBuckets = Seq<(Seq<char>, int, int, int, int)>;

/// The lifecycles' permission waits are between bounded times.
pub open spec fn waits_bounded(ls: Seq<LifecycleView>) -> bool {
    forall|i: int|
        0 <= i < ls.len() ==> match ((#[trigger] ls[i]).permission_request, ls[i].completion) {
            (Some(p), Some(c)) => -ts_bound() <= p <= ts_bound() && -ts_bound() <= c <= ts_bound(),
            _ => true,
        }
}

/// Whether the lifecycles' permission waits are between bounded times.
pub fn waits_ok(ls: &Vec<ToolCallLifecycle>) -> (r: bool)
    ensures
        r == waits_bounded(ls@.map_values(|l: ToolCallLifecycle| l@)),
{
    let ghost vs = ls@.map_values(|l: ToolCallLifecycle| l@);
    let mut i: usize = 0;
    while i < ls.len()
        invariant
            vs == ls@.map_values(|l: ToolCallLifecycle| l@),
            0 <= i <= ls@.len(),
            forall|k: int|
                0 <= k < i ==> match ((#[trigger] vs[k]).permission_request, vs[k].completion) {
                    (Some(p), Some(c)) => -ts_bound() <= p <= ts_bound() && -ts_bound() <= c
                        <= ts_bound(),
                    _ => true,
                },
        decreases ls@.len() - i,
    {
        match (ls[i].permission_request, ls[i].completion) {
            (Some(p), Some(c)) => {
                let b: i128 = 0x1_0000_0000_0000_0000_0000;
                if p < -b || p > b || c < -b || c > b {
                    proof {
                        assert(vs[i as int] == ls@[i as int]@);
                    }
                    return false;
                }
            },
            _ => {},
        }
        i = i + 1;
    }
    true
}

/// The wait of a lifecycle counted in the sums (zero when it has none).
pub open spec fn wait_or_zero(l: LifecycleView) -> int {
    match wait_ms(l) {
        Some(w) => w,
        None => 0,
    }
}

/// The position of the entry with the given name.
pub open spec fn find_perm(b: PermBuckets, name: Seq<char>) -> Option<int>
    decreases b.len(),
{
    if b.len() == 0 {
        None
    } else if b.last().0 == name {
        Some(b.len() - 1)
    } else {
        find_perm(b.drop_last(), name)
    }
}

/// One more call under `name`.
pub open spec fn count_lifecycle(b: PermBuckets, name: Seq<char>, l: LifecycleView) -> PermBuckets {
    let p: int = if l.permission_request is Some {
        1
    } else {
        0
    };
    let d: int = if l.permission_request is Some && !l.succeeded {
        1
    } else {
        0
    };
    match find_perm(b, name) {
        Some(k) => b.update(k, (name, b[k].1 + 1, b[k].2 + p, b[k].3 + d, b[k].4 + wait_or_zero(l))),
        None => b.push((name, 1, p, d, wait_or_zero(l))),
    }
}

/// The statistics of the first `k` lifecycles that `selected` admits, each counted under
/// its key, groups in order of first appearance.
pub open spec fn perm_buckets(
    ls: Seq<LifecycleView>,
    keys: Seq<Seq<char>>,
    selected: Seq<bool>,
    k: int,
) -> PermBuckets
    decreases k,
{
    if k <= 0 {
        Seq::empty()
    } else {
        let prev = perm_buckets(ls, keys, selected, k - 1);
        if selected[k - 1] {
            count_lifecycle(prev, keys[k - 1], ls[k - 1])
        } else {
            prev
        }
    }
}

/// Among the first `k` lifecycles that `selected` admits with key `name`: how many, how
/// many were prompted, how many denied, and their summed waits.
pub open spec fn key_counts(
    ls: Seq<LifecycleView>,
    keys: Seq<Seq<char>>,
    selected: Seq<bool>,
    k: int,
    name: Seq<char>,
) -> (int, int, int, int)
    decreases k,
{
    if k <= 0 {
        (0, 0, 0, 0)
    } else {
        let r = key_counts(ls, keys, selected, k - 1, name);
        let l = ls[k - 1];
        if selected[k - 1] && keys[k - 1] == name {
            (
                r.0 + 1,
                r.1 + if l.permission_request is Some {
                    1int
                } else {
                    0int
                },
                r.2 + if l.permission_request is Some && !l.succeeded {
                    1int
                } else {
                    0int
                },
                r.3 + wait_or_zero(l),
            )
        } else {
            r
        }
    }
}

proof fn lemma_perm_names_distinct(ls: Seq<LifecycleView>, keys: Seq<Seq<char>>, selected: Seq<bool>, k: int)
    ensures
        forall|i: int, j: int|
            0 <= i < j < perm_buckets(ls, keys, selected, k).len() ==> perm_buckets(ls, keys, selected, k)[i].0
                != perm_buckets(ls, keys, selected, k)[j].0,
    decreases k,
{
    if k > 0 {
        lemma_perm_names_distinct(ls, keys, selected, k - 1);
        let prev = perm_buckets(ls, keys, selected, k - 1);
        if selected[k - 1] {
            let nm = keys[k - 1];
            lemma_find_perm(prev, nm);
            let r = count_lifecycle(prev, nm, ls[k - 1]);
            assert forall|i: int, j: int| 0 <= i < j < r.len() implies r[i].0 != r[j].0 by {
                if j < prev.len() {
                    assert(r[i].0 == prev[i].0 && r[j].0 == prev[j].0);
                } else {
                    assert(r[i].0 == prev[i].0);
                }
            }
        }
    }
}

/// The permission statistics count what happened: each key's entry holds the number of
/// its calls, of those that asked for permission, of those denied, and their summed
/// waits; a key that is not listed has no call.
pub proof fn lemma_perm_buckets_count(ls: Seq<LifecycleView>, keys: Seq<Seq<char>>, selected: Seq<bool>, k: int)
    ensures
        forall|i: int|
            0 <= i < perm_buckets(ls, keys, selected, k).len() ==> {
                let e = #[trigger] perm_buckets(ls, keys, selected, k)[i];
                key_counts(ls, keys, selected, k, e.0) == (e.1, e.2, e.3, e.4)
            },
        forall|name: Seq<char>|
            #![trigger key_counts(ls, keys, selected, k, name)]
            find_perm(perm_buckets(ls, keys, selected, k), name) is None ==> key_counts(
                ls,
                keys,
                selected,
                k,
                name,
            ) == (0int, 0int, 0int, 0int),
    decreases k,
{
    if k > 0 {
        lemma_perm_buckets_count(ls, keys, selected, k - 1);
        lemma_perm_names_distinct(ls, keys, selected, k - 1);
        let prev = perm_buckets(ls, keys, selected, k - 1);
        let b = perm_buckets(ls, keys, selected, k);
        if selected[k - 1] {
            let nm = keys[k - 1];
            lemma_find_perm(prev, nm);
            assert forall|i: int| 0 <= i < b.len() implies key_counts(ls, keys, selected, k, (#[trigger] b[i]).0)
                == (b[i].1, b[i].2, b[i].3, b[i].4) by {
                if i < prev.len() {
                    if prev[i].0 != nm {
                        assert(b[i] == prev[i]);
                    }
                } else {
                    assert(find_perm(prev, nm) is None);
                    assert(key_counts(ls, keys, selected, k - 1, nm) == (0int, 0int, 0int, 0int));
                }
            }
            assert forall|name: Seq<char>|
                #![trigger key_counts(ls, keys, selected, k, name)]
                find_perm(b, name) is None implies key_counts(ls, keys, selected, k, name) == (
                    0int,
                    0int,
                    0int,
                    0int,
                ) by {
                lemma_find_perm(b, name);
                if name == nm {
                    match find_perm(prev, nm) {
                        Some(j) => {
                            assert(b[j].0 == nm);
                        },
                        None => {
                            assert(b[prev.len() as int].0 == nm);
                        },
                    }
                } else {
                    lemma_find_perm(prev, name);
                    if find_perm(prev, name) is Some {
                        let j = find_perm(prev, name).unwrap();
                        assert(b[j].0 == name);
                    } else {
                        assert(key_counts(ls, keys, selected, k - 1, name) == (0int, 0int, 0int, 0int));
                    }
                }
            }
        } else {
            assert(b == prev);
            assert forall|name: Seq<char>|
                #![trigger key_counts(ls, keys, selected, k, name)]
                find_perm(b, name) is None implies key_counts(ls, keys, selected, k, name) == (
                    0int,
                    0int,
                    0int,
                    0int,
                ) by {
                assert(key_counts(ls, keys, selected, k - 1, name) == (0int, 0int, 0int, 0int));
            }
            assert forall|i: int| 0 <= i < b.len() implies key_counts(ls, keys, selected, k, (#[trigger] b[i]).0)
                == (b[i].1, b[i].2, b[i].3, b[i].4) by {
                assert(b[i] == prev[i]);
            }
        }
    }
}

/// The largest wait a bounded lifecycle can have, in milliseconds.
pub open spec fn wait_bound() -> int {
    0x4000_0000_0000_0000
}

/// Names are distinct; counts are at most `k`; waits are at most `k` waits.
pub open spec fn perms_ok(b: PermBuckets, k: int) -> bool {
    &&& forall|i: int|
        0 <= i < b.len() ==> 0 <= #[trigger] b[i].3 <= b[i].2 <= b[i].1 <= k && -k * wait_bound()
            <= b[i].4 <= k * wait_bound()
    &&& forall|i: int, j: int| 0 <= i < j < b.len() ==> b[i].0 != b[j].0
}

pub proof fn lemma_find_perm(b: PermBuckets, name: Seq<char>)
    ensures
        match find_perm(b, name) {
            Some(k) => 0 <= k < b.len() && b[k].0 == name,
            None => forall|k: int| 0 <= k < b.len() ==> b[k].0 != name,
        },
    decreases b.len(),
{
    if b.len() > 0 && b.last().0 != name {
        lemma_find_perm(b.drop_last(), name);
        let r = find_perm(b.drop_last(), name);
        if r is Some {
            assert(b.drop_last()[r.unwrap()] == b[r.unwrap()]);
        } else {
            assert forall|k: int| 0 <= k < b.len() implies b[k].0 != name by {
                if k < b.len() - 1 {
                    assert(b.drop_last()[k] == b[k]);
                }
            }
        }
    }
}

proof fn lemma_wait_bound(l: LifecycleView)
    requires
        match (l.permission_request, l.completion) {
            (Some(p), Some(c)) => -ts_bound() <= p <= ts_bound() && -ts_bound() <= c <= ts_bound(),
            _ => true,
        },
    ensures
        -wait_bound() <= wait_or_zero(l) <= wait_bound(),
{
    match (l.permission_request, l.completion) {
        (Some(p), Some(c)) => {
            let d = c - p;
            if d >= 0 {
                assert(d / 1_000_000 <= wait_bound()) by (nonlinear_arith)
                    requires
                        0 <= d <= 2 * 0x1_0000_0000_0000_0000_0000,
                ;
            } else {
                assert((-d) / 1_000_000 <= wait_bound()) by (nonlinear_arith)
                    requires
                        0 < -d <= 2 * 0x1_0000_0000_0000_0000_0000,
                ;
            }
        },
        _ => {},
    }
}

pub proof fn lemma_perm_buckets_ok(
    ls: Seq<LifecycleView>,
    keys: Seq<Seq<char>>,
    selected: Seq<bool>,
    k: int,
)
    requires
        waits_bounded(ls),
        0 <= k <= ls.len(),
        keys.len() == ls.len(),
        selected.len() == ls.len(),
    ensures
        perms_ok(perm_buckets(ls, keys, selected, k), k),
    decreases k,
{
    if k > 0 {
        lemma_perm_buckets_ok(ls, keys, selected, k - 1);
        let prev = perm_buckets(ls, keys, selected, k - 1);
        assert(k * wait_bound() == (k - 1) * wait_bound() + wait_bound()) by (nonlinear_arith);
        assert((k - 1) * wait_bound() >= 0) by (nonlinear_arith)
            requires
                k >= 1,
        ;
        if selected[k - 1] {
            let l = ls[k - 1];
            lemma_wait_bound(l);
            lemma_find_perm(prev, keys[k - 1]);
            let r = count_lifecycle(prev, keys[k - 1], l);
            assert forall|i: int, j: int| 0 <= i < j < r.len() implies r[i].0 != r[j].0 by {
                if j < prev.len() {
                    assert(r[i].0 == prev[i].0 && r[j].0 == prev[j].0);
                } else {
                    assert(r[i].0 == prev[i].0);
                }
            }
            assert forall|i: int| 0 <= i < r.len() implies 0 <= #[trigger] r[i].3 <= r[i].2 <= r[i].1
                <= k && -k * wait_bound() <= r[i].4 <= k * wait_bound() by {
                if i < prev.len() {
                    assert(0 <= prev[i].3 <= prev[i].2 <= prev[i].1 <= k - 1);
                }
            }
        } else {
            assert forall|i: int| 0 <= i < prev.len() implies 0 <= #[trigger] prev[i].3 <= prev[i].2
                <= prev[i].1 <= k && -k * wait_bound() <= prev[i].4 <= k * wait_bound() by {
                assert(0 <= prev[i].3 <= prev[i].2 <= prev[i].1 <= k - 1);
            }
        }
    }
}

/// Permission statistics, as values.
pub open spec fn perm_views(v: Seq<PermissionStats>) -> PermBuckets {
    v.map_values(
        |s: PermissionStats| (s.name@, s.calls as int, s.prompted as int, s.denied as int, s.wait_ms as int),
    )
}

/// The statistics in order of first appearance (see `perm_buckets`).
#[verifier::rlimit(40)]
fn collect_perms(ls: &Vec<ToolCallLifecycle>, keys: &Vec<String>, selected: &Vec<bool>) -> (r: Vec<
    PermissionStats,
>)
    requires
        keys@.len() == ls@.len(),
        selected@.len() == ls@.len(),
        waits_bounded(ls@.map_values(|l: ToolCallLifecycle| l@)),
    ensures
        perm_views(r@) == perm_buckets(
            ls@.map_values(|l: ToolCallLifecycle| l@),
            string_views(keys@),
            selected@,
            ls@.len() as int,
        ),
        perms_ok(perm_views(r@), ls@.len() as int),
{
    let ghost vs = ls@.map_values(|l: ToolCallLifecycle| l@);
    let ghost ks = string_views(keys@);
    let n = ls.len();
    let mut r: Vec<PermissionStats> = Vec::new();
    let mut i: usize = 0;
    proof {
        assert(perm_views(r@) =~= perm_buckets(vs, ks, selected@, 0));
    }
    while i < n
        invariant
            vs == ls@.map_values(|l: ToolCallLifecycle| l@),
            ks == string_views(keys@),
            n == ls@.len(),
            keys@.len() == n,
            selected@.len() == n,
            waits_bounded(vs),
            0 <= i <= n,
            perm_views(r@) == perm_buckets(vs, ks, selected@, i as int),
        decreases n - i,
    {
        proof {
            lemma_perm_buckets_ok(vs, ks, selected@, i as int);
        }
        if selected[i] {
            let l = &ls[i];
            let ghost prev = perm_views(r@);
            let ghost lv = vs[i as int];
            proof {
                assert(lv == l@);
                lemma_find_perm(prev, ks[i as int]);
                lemma_wait_bound(lv);
                assert(-(n * wait_bound()) >= -0x1_0000_0000_0000_0000 * wait_bound()
                    && n * wait_bound() <= 0x1_0000_0000_0000_0000 * wait_bound())
                    by (nonlinear_arith)
                    requires
                        n <= 0x1_0000_0000_0000_0000,
                ;
            }
            let p: usize = if l.permission_request.is_some() {
                1
            } else {
                0
            };
            let d: usize = if l.permission_request.is_some() && !l.succeeded {
                1
            } else {
                0
            };
            let w: i128 = match l.permission_wait_ms() {
                Some(w) => w,
                None => 0,
            };
            let mut k: usize = r.len();
            let mut found: Option<usize> = None;
            proof {
                assert(prev.take(k as int) =~= prev);
            }
            while k > 0 && found.is_none()
                invariant
                    0 <= k <= r@.len(),
                    prev == perm_views(r@),
                    i < n,
                    keys@.len() == n,
                    ks == string_views(keys@),
                    found is None ==> find_perm(prev, ks[i as int]) == find_perm(
                        prev.take(k as int),
                        ks[i as int],
                    ),
                    found matches Some(j) ==> j < r@.len() && find_perm(prev, ks[i as int]) == Some(
                        j as int,
                    ),
                decreases k, if found is None {
                    1int
                } else {
                    0int
                },
            {
                proof {
                    assert(prev.take(k as int).drop_last() =~= prev.take(k - 1));
                    assert(prev.take(k as int).last() == prev[k - 1]);
                }
                if str_eq(r[k - 1].name.as_str(), keys[i].as_str()) {
                    found = Some(k - 1);
                } else {
                    k = k - 1;
                }
            }
            if found.is_some() {
                let j = found.unwrap();
                proof {
                    assert(0 <= prev[j as int].3 <= prev[j as int].2 <= prev[j as int].1 <= i);
                    let x = prev[j as int].4;
                    assert(-(i * wait_bound()) <= x <= i * wait_bound());
                    assert((i + 1) * wait_bound() == i * wait_bound() + wait_bound()
                        && (i + 1) * wait_bound() <= 0x1_0000_0000_0000_0000 * wait_bound())
                        by (nonlinear_arith)
                        requires
                            i < 0x1_0000_0000_0000_0000,
                    ;
                }
                r[j].calls = r[j].calls + 1;
                r[j].prompted = r[j].prompted + p;
                r[j].denied = r[j].denied + d;
                r[j].wait_ms = r[j].wait_ms + w;
                proof {
                    assert(perm_views(r@) =~= count_lifecycle(prev, ks[i as int], lv));
                }
            } else {
                proof {
                    assert(prev.take(0) =~= Seq::<(Seq<char>, int, int, int, int)>::empty());
                }
                r.push(
                    PermissionStats {
                        name: copy_str(keys[i].as_str()),
                        calls: 1,
                        prompted: p,
                        denied: d,
                        wait_ms: w,
                    },
                );
                proof {
                    assert(perm_views(r@) =~= count_lifecycle(prev, ks[i as int], lv));
                }
            }
        }
        i = i + 1;
    }
    proof {
        lemma_perm_buckets_ok(vs, ks, selected@, n as int);
    }
    r
}

/// The statistics taken in the order `p`.
pub open spec fn reorder_perms(b: PermBuckets, p: Seq<usize>) -> PermBuckets {
    p.map_values(|i: usize| b[i as int])
}

/// The sort keys: calls, or prompted calls.
pub open spec fn perm_keys(b: PermBuckets, by_prompted: bool) -> Seq<u128> {
    b.map_values(
        |e: (Seq<char>, int, int, int, int)| if by_prompted {
            e.2 as u128
        } else {
            e.1 as u128
        },
    )
}

/// The statistics sorted by calls or by prompted calls, largest first (stable).
fn sort_perms(v: Vec<PermissionStats>, by_prompted: bool) -> (r: Vec<PermissionStats>)
    ensures
        exists|p: Seq<usize>|
            is_desc_order(perm_keys(perm_views(v@), by_prompted), p) && perm_views(r@)
                == reorder_perms(perm_views(v@), p),
        r@.len() == v@.len(),
        by_prompted ==> forall|i: int, j: int|
            0 <= i < j < r@.len() ==> r@[i].prompted >= r@[j].prompted,
        !by_prompted ==> forall|i: int, j: int|
            0 <= i < j < r@.len() ==> r@[i].calls >= r@[j].calls,
{
    let ghost b = perm_views(v@);
    let mut keys: Vec<u128> = Vec::new();
    let mut i: usize = 0;
    while i < v.len()
        invariant
            b == perm_views(v@),
            0 <= i <= v@.len(),
            keys@ == perm_keys(b, by_prompted).take(i as int),
        decreases v@.len() - i,
    {
        let key = if by_prompted {
            v[i].prompted as u128
        } else {
            v[i].calls as u128
        };
        keys.push(key);
        proof {
            assert(keys@ =~= perm_keys(b, by_prompted).take(i + 1));
        }
        i = i + 1;
    }
    proof {
        assert(keys@ =~= perm_keys(b, by_prompted));
    }
    let order = order_desc(&keys);
    let mut r: Vec<PermissionStats> = Vec::new();
    let mut j: usize = 0;
    while j < order.len()
        invariant
            b == perm_views(v@),
            is_desc_order(keys@, order@),
            keys@.len() == v@.len(),
            0 <= j <= order@.len(),
            perm_views(r@) == reorder_perms(b, order@.take(j as int)),
            r@.len() == j,
            forall|x: int|
                0 <= x < j ==> (#[trigger] r@[x]).prompted == v@[order@[x] as int].prompted
                    && r@[x].calls == v@[order@[x] as int].calls,
        decreases order@.len() - j,
    {
        let k = order[j];
        let ghost before = r@;
        r.push(
            PermissionStats {
                name: copy_str(v[k].name.as_str()),
                calls: v[k].calls,
                prompted: v[k].prompted,
                denied: v[k].denied,
                wait_ms: v[k].wait_ms,
            },
        );
        proof {
            assert forall|x: int| 0 <= x < j + 1 implies (#[trigger] r@[x]).prompted
                == v@[order@[x] as int].prompted && r@[x].calls == v@[order@[x] as int].calls by {
                if x < j {
                    assert(r@[x] == before[x]);
                }
            }
            assert(order@.take(j + 1) =~= order@.take(j as int).push(k));
            assert(perm_views(r@) =~= perm_views(before).push(b[k as int]));
            assert(reorder_perms(b, order@.take(j + 1)) =~= reorder_perms(b, order@.take(j as int)).push(
                b[k as int],
            ));
        }
        j = j + 1;
    }
    proof {
        assert(order@.take(j as int) =~= order@);
        assert forall|x: int, y: int| 0 <= x < y < r@.len() implies (by_prompted ==> r@[x].prompted
            >= r@[y].prompted) && (!by_prompted ==> r@[x].calls >= r@[y].calls) by {
            assert(keys@[order@[x] as int] >= keys@[order@[y] as int]);
            assert(keys@[order@[x] as int] == perm_keys(b, by_prompted)[order@[x] as int]);
            assert(keys@[order@[y] as int] == perm_keys(b, by_prompted)[order@[y] as int]);
        }
    }
    r
}

/// The tool names of the lifecycles.
pub open spec fn lifecycle_names(ls: Seq<LifecycleView>) -> Seq<Seq<char>> {
    ls.map_values(|l: LifecycleView| l.tool_name)
}

/// Permission statistics per tool: calls, prompted, denied and summed waits; most calls
/// first, ties in order of first appearance.
pub fn permission_summary(ls: &Vec<ToolCallLifecycle>) -> (r: Vec<PermissionStats>)
    requires
        waits_bounded(ls@.map_values(|l: ToolCallLifecycle| l@)),
    ensures
        ({
            let vs = ls@.map_values(|l: ToolCallLifecycle| l@);
            let b = perm_buckets(vs, lifecycle_names(vs), Seq::new(vs.len(), |i: int| true), vs.len() as int);
            exists|p: Seq<usize>| is_desc_order(perm_keys(b, false), p) && perm_views(r@) == reorder_perms(b, p)
        }),
        forall|i: int, j: int| 0 <= i < j < r@.len() ==> r@[i].calls >= r@[j].calls,
{
    let ghost vs = ls@.map_values(|l: ToolCallLifecycle| l@);
    let mut keys: Vec<String> = Vec::new();
    let mut selected: Vec<bool> = Vec::new();
    let mut i: usize = 0;
    while i < ls.len()
        invariant
            vs == ls@.map_values(|l: ToolCallLifecycle| l@),
            0 <= i <= ls@.len(),
            string_views(keys@) == lifecycle_names(vs).take(i as int),
            keys@.len() == i,
            selected@ == Seq::new(vs.len(), |i: int| true).take(i as int),
        decreases ls@.len() - i,
    {
        let ghost before = keys@;
        keys.push(copy_str(ls[i].tool_name.as_str()));
        selected.push(true);
        proof {
            assert(vs[i as int].tool_name == ls@[i as int].tool_name@);
            assert forall|k: int| 0 <= k < i + 1 implies #[trigger] string_views(keys@)[k]
                == lifecycle_names(vs).take(i + 1)[k] by {
                if k < i {
                    assert(keys@[k] == before[k]);
                    assert(string_views(before)[k] == lifecycle_names(vs).take(
                        i as int,
                    )[k]);
                }
            }
            assert(string_views(keys@) =~= lifecycle_names(vs).take(i + 1));
            assert(selected@ =~= Seq::new(vs.len(), |i: int| true).take(i + 1));
        }
        i = i + 1;
    }
    proof {
        assert(string_views(keys@) =~= lifecycle_names(vs));
        assert(selected@ =~= Seq::new(vs.len(), |i: int| true));
    }
    let v = collect_perms(ls, &keys, &selected);
    sort_perms(v, false)
}

/// Permission statistics for the calls of one tool, per detail (given per lifecycle in
/// `details`); most prompted first, ties in order of first appearance.
pub fn permission_detail_summary(
    ls: &Vec<ToolCallLifecycle>,
    tool_name: &str,
    details: &Vec<String>,
) -> (r: Vec<PermissionStats>)
    requires
        details@.len() == ls@.len(),
        waits_bounded(ls@.map_values(|l: ToolCallLifecycle| l@)),
    ensures
        ({
            let vs = ls@.map_values(|l: ToolCallLifecycle| l@);
            let b = perm_buckets(
                vs,
                string_views(details@),
                Seq::new(vs.len(), |i: int| vs[i].tool_name == tool_name@),
                vs.len() as int,
            );
            exists|p: Seq<usize>| is_desc_order(perm_keys(b, true), p) && perm_views(r@) == reorder_perms(b, p)
        }),
        forall|i: int, j: int| 0 <= i < j < r@.len() ==> r@[i].prompted >= r@[j].prompted,
{
    let ghost vs = ls@.map_values(|l: ToolCallLifecycle| l@);
    let mut selected: Vec<bool> = Vec::new();
    let mut i: usize = 0;
    while i < ls.len()
        invariant
            vs == ls@.map_values(|l: ToolCallLifecycle| l@),
            0 <= i <= ls@.len(),
            selected@ == Seq::new(vs.len(), |i: int| vs[i].tool_name == tool_name@).take(i as int),
        decreases ls@.len() - i,
    {
        selected.push(str_eq(ls[i].tool_name.as_str(), tool_name));
        proof {
            assert(selected@ =~= Seq::new(vs.len(), |i: int| vs[i].tool_name == tool_name@).take(i + 1));
        }
        i = i + 1;
    }
    proof {
        assert(selected@ =~= Seq::new(vs.len(), |i: int| vs[i].tool_name == tool_name@));
    }
    let v = collect_perms(ls, details, &selected);
    sort_perms(v, true)
}

/// The detail entry of a lifecycle: for a call of the tool, its detail cut to 40 bytes;
/// for other calls, empty.
pub open spec fn detail_entry_ok(l: ToolCallLifecycle, tool_name: Seq<char>, d: Seq<char>) -> bool {
    if l.tool_name@ == tool_name {
        d == truncated(raw_detail(l.tool_name@, l.tool_input@), 40)
    } else {
        d == Seq::<char>::empty()
    }
}

/// The details of the calls of one tool, per lifecycle (empty for the other tools'
/// lifecycles).
pub fn permission_details_for(ls: &Vec<ToolCallLifecycle>, tool_name: &str) -> (d: Vec<String>)
    ensures
        d@.len() == ls@.len(),
        forall|i: int|
            0 <= i < ls@.len() ==> detail_entry_ok(ls@[i], tool_name@, (#[trigger] d@[i])@),
{
    let mut d: Vec<String> = Vec::new();
    let mut i: usize = 0;
    while i < ls.len()
        invariant
            0 <= i <= ls@.len(),
            d@.len() == i,
            forall|k: int| 0 <= k < i ==> detail_entry_ok(ls@[k], tool_name@, (#[trigger] d@[k])@),
        decreases ls@.len() - i,
    {
        let ghost before = d@;
        if str_eq(ls[i].tool_name.as_str(), tool_name) {
            d.push(permission_detail(ls[i].tool_name.as_str(), ls[i].tool_input.as_str()));
        } else {
            d.push(String::new());
        }
        proof {
            assert forall|k: int| 0 <= k < i + 1 implies detail_entry_ok(
                ls@[k],
                tool_name@,
                (#[trigger] d@[k])@,
            ) by {
                if k < i {
                    assert(d@[k] == before[k]);
                }
            }
        }
        i = i + 1;
    }
    d
}

/// In every group, the denied calls are among the prompted ones, which are among the
/// calls; no group is empty.
pub proof fn lemma_permission_counts(
    ls: Seq<LifecycleView>,
    keys: Seq<Seq<char>>,
    selected: Seq<bool>,
    i: int,
)
    requires
        waits_bounded(ls),
        keys.len() == ls.len(),
        selected.len() == ls.len(),
        0 <= i < perm_buckets(ls, keys, selected, ls.len() as int).len(),
    ensures
        ({
            let e = perm_buckets(ls, keys, selected, ls.len() as int)[i];
            0 <= e.3 <= e.2 <= e.1
        }),
{
    lemma_perm_buckets_ok(ls, keys, selected, ls.len() as int);
}

} // verus!
