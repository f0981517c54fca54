use vstd::prelude::*;

use super::block::Block;
use super::session::{
    enumerates, lemma_enumerates_step, lemma_nth_ancestor_none_after, lemma_parent_node_range,
    nth_ancestor, parent_node, parent_step, Session,
};
use super::types::NodeId;
use crate::analysis::order::lemma_distinct_covers;

verus! {

// ─── The walk below a block, as specifications ──────────────────────────────

/// The indices below `n` that satisfy `pred`, in increasing order.
pub open spec fn indices_where(n: nat, pred: spec_fn(int) -> bool) -> Seq<usize>
    decreases n,
{
    if n == 0 {
        Seq::empty()
    } else {
        let s = indices_where((n - 1) as nat, pred);
        if pred(n - 1) {
            s.push((n - 1) as usize)
        } else {
            s
        }
    }
}

/// The children of block `t`: the blocks whose parent it is, in file order.
pub open spec fn children_in(bs: Seq<Block>, t: int) -> Seq<usize> {
    indices_where(bs.len(), |i: int| parent_node(bs, i) == Some(t))
}

/// What the walk adds below `t` when `f` levels are left: the children of `t`, then what
/// lies below each child, the last child first.
pub open spec fn below(bs: Seq<Block>, t: int, f: nat) -> Seq<usize>
    decreases f, 0nat,
{
    if f == 0 {
        Seq::empty()
    } else {
        let ch = children_in(bs, t);
        ch + below_all(bs, ch, (f - 1) as nat)
    }
}

/// What lies below each block of `s` (with `f` levels left), the last block first.
pub open spec fn below_all(bs: Seq<Block>, s: Seq<usize>, f: nat) -> Seq<usize>
    decreases f, s.len() + 1,
{
    if s.len() == 0 {
        Seq::empty()
    } else {
        below(bs, s.last() as int, f) + below_all(bs, s.drop_last(), f)
    }
}

/// The order in which `subtree` lists a block and its descendants: the block, its
/// children, then the descendants of each child in the same arrangement, the last child
/// first. No parent chain below a block that is not on a cycle is longer than the
/// number of blocks, so that many levels reach every descendant.
pub open spec fn subtree_order(bs: Seq<Block>, node: usize) -> Seq<usize> {
    seq![node] + below(bs, node as int, bs.len())
}

/// Following parent links from `node` leads back to `node`.
pub open spec fn on_cycle(bs: Seq<Block>, node: int) -> bool {
    exists|k: nat| k >= 1 && #[trigger] nth_ancestor(bs, node, k) == Some(node)
}

/// `x` lies below `t`: some number `k >= 1` of parent links leads from `x` to `t`.
pub open spec fn is_descendant(bs: Seq<Block>, x: int, t: int) -> bool {
    exists|k: nat| k >= 1 && #[trigger] nth_ancestor(bs, x, k) == Some(t)
}

/// `x` lies between one and `f` parent links below `t`.
spec fn within(bs: Seq<Block>, x: int, t: int, f: nat) -> bool {
    exists|k: nat| 1 <= k <= f && #[trigger] nth_ancestor(bs, x, k) == Some(t)
}

/// What lies below each block `s[k]` of the stack, with `fs[k]` levels left for it, the
/// top of the stack first.
spec fn below_each(bs: Seq<Block>, s: Seq<usize>, fs: Seq<nat>) -> Seq<usize>
    decreases s.len(),
{
    if s.len() == 0 {
        Seq::empty()
    } else {
        below(bs, s.last() as int, fs.last()) + below_each(bs, s.drop_last(), fs.drop_last())
    }
}

// ─── Lemmas ─────────────────────────────────────────────────────────────────

/// An increasing enumeration of the indices that satisfy a predicate is the only one.
proof fn lemma_enumeration_unique(s: Seq<usize>, n: nat, pred: spec_fn(int) -> bool)
    requires
        enumerates(s, n as int, pred),
        n <= usize::MAX,
    ensures
        s == indices_where(n, pred),
    decreases n,
{
    if n == 0 {
        if s.len() > 0 {
            assert(s[0] < 0);
        }
        assert(s =~= Seq::<usize>::empty());
    } else {
        let m = (n - 1) as nat;
        if pred(m as int) {
            assert(s.contains(m as usize));
            let k = choose|k: int| 0 <= k < s.len() && s[k] == m as usize;
            if k < s.len() - 1 {
                assert(s[k] < s[s.len() - 1]);
            }
            let t = s.drop_last();
            assert forall|x: int| 0 <= x < m && #[trigger] pred(x) implies t.contains(
                x as usize,
            ) by {
                assert(s.contains(x as usize));
                let i = choose|i: int| 0 <= i < s.len() && s[i] == x as usize;
                assert(i != s.len() - 1);
                assert(t[i] == x as usize);
            }
            assert forall|i: int| 0 <= i < t.len() implies t[i] < m && pred(t[i] as int) by {
                assert(s[i] < s[s.len() - 1]);
            }
            lemma_enumeration_unique(t, m, pred);
            assert(s =~= t.push(m as usize));
        } else {
            assert forall|i: int| 0 <= i < s.len() implies s[i] < m by {
                assert(pred(s[i] as int));
            }
            lemma_enumeration_unique(s, m, pred);
        }
    }
}

/// Following `a + b` parent links is following `a`, then `b` more.
proof fn lemma_nth_add(bs: Seq<Block>, x: int, a: nat, b: nat)
    ensures
        nth_ancestor(bs, x, a + b) == match nth_ancestor(bs, x, a) {
            Some(y) => nth_ancestor(bs, y, b),
            None => None,
        },
    decreases b,
{
    if b > 0 {
        lemma_nth_add(bs, x, a, (b - 1) as nat);
        assert((a + b - 1) as nat == a + (b - 1) as nat);
        match nth_ancestor(bs, x, a) {
            Some(y) => {},
            None => {},
        }
    }
}

/// Ancestors of a block are blocks.
proof fn lemma_nth_in_range(bs: Seq<Block>, x: int, j: nat)
    requires
        0 <= x < bs.len(),
    ensures
        nth_ancestor(bs, x, j) matches Some(v) ==> 0 <= v < bs.len(),
    decreases j,
{
    if j > 0 {
        lemma_nth_in_range(bs, x, (j - 1) as nat);
        if let Some(a) = nth_ancestor(bs, x, (j - 1) as nat) {
            lemma_parent_node_range(bs, a);
        }
    }
}

/// On the way from `c` up to a block that is not on a cycle, no block comes twice.
proof fn lemma_chain_distinct(bs: Seq<Block>, c: int, node: int, k: nat, i: nat, j: nat)
    requires
        nth_ancestor(bs, c, k) == Some(node),
        !on_cycle(bs, node),
        i < j <= k,
    ensures
        nth_ancestor(bs, c, i) != nth_ancestor(bs, c, j),
{
    if nth_ancestor(bs, c, i) == nth_ancestor(bs, c, j) {
        match nth_ancestor(bs, c, i) {
            Some(v) => {
                let gap = (j - i) as nat;
                lemma_nth_add(bs, c, i, (k - i) as nat);
                lemma_nth_add(bs, c, j, (k - i) as nat);
                lemma_nth_add(bs, c, k, gap);
                assert((i + (k - i) as nat) as nat == k);
                assert((j + (k - i) as nat) as nat == (k + gap) as nat);
                assert(nth_ancestor(bs, node, gap) == Some(node));
                assert(on_cycle(bs, node));
            },
            None => {
                lemma_nth_ancestor_none_after(bs, c, i, k);
            },
        }
    }
}

/// A block `k` links below a block that is not on a cycle has `k` smaller than the
/// number of blocks.
proof fn lemma_chain_bound(bs: Seq<Block>, c: int, node: int, k: nat)
    requires
        0 <= c < bs.len(),
        bs.len() <= usize::MAX,
        nth_ancestor(bs, c, k) == Some(node),
        !on_cycle(bs, node),
    ensures
        k < bs.len(),
{
    let n = bs.len() as int;
    if k >= n {
        assert forall|j: nat| j <= k implies #[trigger] nth_ancestor(bs, c, j) is Some by {
            if nth_ancestor(bs, c, j) is None {
                lemma_nth_ancestor_none_after(bs, c, j, k);
            }
        }
        let q = Seq::new((k + 1) as nat, |j: int| nth_ancestor(bs, c, j as nat).unwrap() as usize);
        assert forall|j: int| 0 <= j < q.len() implies q[j] < n by {
            assert(nth_ancestor(bs, c, j as nat) is Some);
            lemma_nth_in_range(bs, c, j as nat);
        }
        let p = q.take(n);
        assert forall|a: int, b: int| 0 <= a < b < p.len() implies p[a] != p[b] by {
            lemma_chain_distinct(bs, c, node, k, a as nat, b as nat);
            assert(nth_ancestor(bs, c, a as nat) is Some);
            assert(nth_ancestor(bs, c, b as nat) is Some);
            lemma_nth_in_range(bs, c, a as nat);
            lemma_nth_in_range(bs, c, b as nat);
            let va = nth_ancestor(bs, c, a as nat).unwrap();
            let vb = nth_ancestor(bs, c, b as nat).unwrap();
            assert(va != vb);
            assert(0 <= va < n && 0 <= vb < n);
            assert(q[a] == va as usize);
            assert(q[b] == vb as usize);
            assert(p[a] == q[a] && p[b] == q[b]);
        }
        lemma_distinct_covers(p, n);
        assert(p.contains(q[n]));
        let a = choose|a: int| 0 <= a < p.len() && p[a] == q[n];
        lemma_chain_distinct(bs, c, node, k, a as nat, n as nat);
        assert(nth_ancestor(bs, c, a as nat) is Some);
        assert(nth_ancestor(bs, c, n as nat) is Some);
        lemma_nth_in_range(bs, c, a as nat);
        lemma_nth_in_range(bs, c, n as nat);
        assert(p[a] == q[a]);
    }
}

/// Pushing blocks that all have `f` levels left puts what lies below them first.
proof fn lemma_below_each_push(bs: Seq<Block>, a: Seq<usize>, fa: Seq<nat>, b: Seq<usize>, f: nat)
    requires
        fa.len() == a.len(),
    ensures
        below_each(bs, a + b, fa + Seq::new(b.len(), |i: int| f)) == below_all(bs, b, f)
            + below_each(bs, a, fa),
    decreases b.len(),
{
    let fb = Seq::new(b.len(), |i: int| f);
    if b.len() == 0 {
        assert(a + b =~= a);
        assert(fa + fb =~= fa);
        assert(Seq::<usize>::empty() + below_each(bs, a, fa) =~= below_each(bs, a, fa));
    } else {
        let b0 = b.drop_last();
        let fb0 = Seq::new(b0.len(), |i: int| f);
        lemma_below_each_push(bs, a, fa, b0, f);
        assert((a + b).drop_last() =~= a + b0);
        assert((fa + fb).drop_last() =~= fa + fb0);
        assert((a + b).last() == b.last());
        assert((fa + fb).last() == f);
        assert(below_each(bs, a + b, fa + fb) == below(bs, b.last() as int, f) + below_each(
            bs,
            a + b0,
            fa + fb0,
        ));
        assert(below_all(bs, b, f) == below(bs, b.last() as int, f) + below_all(bs, b0, f));
        assert(below(bs, b.last() as int, f) + (below_all(bs, b0, f) + below_each(bs, a, fa))
            =~= (below(bs, b.last() as int, f) + below_all(bs, b0, f)) + below_each(bs, a, fa));
    }
}

/// The indices that satisfy a predicate, in increasing order, enumerate them.
proof fn lemma_indices_where_enumerates(n: nat, pred: spec_fn(int) -> bool)
    requires
        n <= usize::MAX,
    ensures
        enumerates(indices_where(n, pred), n as int, pred),
    decreases n,
{
    if n > 0 {
        lemma_indices_where_enumerates((n - 1) as nat, pred);
        lemma_enumerates_step(indices_where((n - 1) as nat, pred), n - 1, pred);
    }
}

/// One parent link up from a block with parent `t` is `t`.
proof fn lemma_first_link(bs: Seq<Block>, x: int, t: int)
    requires
        0 <= x < bs.len(),
        parent_node(bs, x) == Some(t),
    ensures
        nth_ancestor(bs, x, 1) == Some(t),
{
    assert(nth_ancestor(bs, x, 0) == Some(x));
}

/// A child of a block that is not on a cycle is not on a cycle either.
proof fn lemma_child_off_cycle(bs: Seq<Block>, c: int, t: int)
    requires
        0 <= c < bs.len(),
        parent_node(bs, c) == Some(t),
        !on_cycle(bs, t),
    ensures
        !on_cycle(bs, c),
{
    if on_cycle(bs, c) {
        let k = choose|k: nat| k >= 1 && #[trigger] nth_ancestor(bs, c, k) == Some(c);
        lemma_first_link(bs, c, t);
        lemma_nth_add(bs, c, 1, k);
        assert((1 + k) as nat == (k + 1) as nat);
        assert(nth_ancestor(bs, c, (k + 1) as nat) == parent_step(bs, c));
        assert(nth_ancestor(bs, t, k) == Some(t));
    }
}

/// Membership in what lies below each block of `s`.
proof fn lemma_below_all_contains(bs: Seq<Block>, s: Seq<usize>, f: nat)
    ensures
        forall|x: usize|
            #[trigger] below_all(bs, s, f).contains(x) <==> exists|j: int|
                0 <= j < s.len() && #[trigger] below(bs, s[j] as int, f).contains(x),
    decreases s.len(),
{
    broadcast use vstd::seq_lib::lemma_seq_concat_contains_all_elements;

    if s.len() > 0 {
        let s0 = s.drop_last();
        lemma_below_all_contains(bs, s0, f);
        assert forall|x: usize| #[trigger] below_all(bs, s, f).contains(x) <==> exists|j: int|
            0 <= j < s.len() && #[trigger] below(bs, s[j] as int, f).contains(x) by {
            if below(bs, s.last() as int, f).contains(x) {
                assert(below(bs, s[s.len() - 1] as int, f).contains(x));
            }
            if below_all(bs, s0, f).contains(x) {
                let j = choose|j: int| 0 <= j < s0.len() && #[trigger] below(bs, s0[j] as int, f).contains(x);
                assert(s[j] == s0[j]);
            }
            if exists|j: int| 0 <= j < s.len() && #[trigger] below(bs, s[j] as int, f).contains(x) {
                let j = choose|j: int| 0 <= j < s.len() && #[trigger] below(bs, s[j] as int, f).contains(x);
                if j < s.len() - 1 {
                    assert(s0[j] == s[j]);
                    assert(below(bs, s0[j] as int, f).contains(x));
                }
            }
        }
    }
}

/// What lies below `t` within `f` levels is exactly the blocks at most `f` links below it.
proof fn lemma_below_contains(bs: Seq<Block>, t: int, f: nat)
    requires
        bs.len() <= usize::MAX,
    ensures
        forall|x: usize|
            #[trigger] below(bs, t, f).contains(x) <==> ((x as int) < bs.len() && within(bs, x as int, t, f)),
    decreases f,
{
    broadcast use vstd::seq_lib::lemma_seq_concat_contains_all_elements;

    let n = bs.len();
    if f == 0 {
        assert forall|x: usize| !within(bs, x as int, t, f) by {}
    } else {
        let g = (f - 1) as nat;
        let pred = |i: int| parent_node(bs, i) == Some(t);
        let ch = children_in(bs, t);
        lemma_indices_where_enumerates(n, pred);
        lemma_below_all_contains(bs, ch, g);
        assert forall|x: usize| #[trigger] below(bs, t, f).contains(x) <==> ((x as int) < n && within(bs, x as int, t, f)) by {
            if ch.contains(x) {
                let i = choose|i: int| 0 <= i < ch.len() && ch[i] == x;
                assert(pred(ch[i] as int));
                lemma_first_link(bs, x as int, t);
                assert(within(bs, x as int, t, f));
            }
            if below_all(bs, ch, g).contains(x) {
                let j = choose|j: int| 0 <= j < ch.len() && #[trigger] below(bs, ch[j] as int, g).contains(x);
                let c = ch[j] as int;
                assert(pred(c));
                lemma_below_contains(bs, c, g);
                assert(within(bs, x as int, c, g));
                let k = choose|k: nat| 1 <= k <= g && #[trigger] nth_ancestor(bs, x as int, k) == Some(c);
                assert(nth_ancestor(bs, x as int, (k + 1) as nat) == parent_step(bs, c));
                assert(within(bs, x as int, t, f));
            }
            if (x as int) < n && within(bs, x as int, t, f) {
                let k = choose|k: nat| 1 <= k <= f && #[trigger] nth_ancestor(bs, x as int, k) == Some(t);
                if k == 1 {
                    assert(nth_ancestor(bs, x as int, 0) == Some(x as int));
                    assert(pred(x as int));
                    assert(ch.contains(x));
                } else {
                    let k0 = (k - 1) as nat;
                    if nth_ancestor(bs, x as int, k0) is None {
                        assert(nth_ancestor(bs, x as int, k) is None);
                    }
                    let c = nth_ancestor(bs, x as int, k0).unwrap();
                    lemma_nth_in_range(bs, x as int, k0);
                    assert(parent_step(bs, c) == Some(t));
                    assert(pred(c));
                    assert(ch.contains(c as usize));
                    let j = choose|j: int| 0 <= j < ch.len() && ch[j] == c as usize;
                    lemma_below_contains(bs, c, g);
                    assert(within(bs, x as int, c, g));
                    assert(below(bs, ch[j] as int, g).contains(x));
                    assert(below_all(bs, ch, g).contains(x));
                }
            }
        }
    }
}

/// What lies below the blocks of `s` comes once each, when what lies below each block
/// does and no two of them share a block.
proof fn lemma_below_all_distinct(bs: Seq<Block>, s: Seq<usize>, f: nat)
    requires
        forall|j: int| 0 <= j < s.len() ==> (#[trigger] below(bs, s[j] as int, f)).no_duplicates(),
        forall|j1: int, j2: int, x: usize|
            0 <= j1 < j2 < s.len() && #[trigger] below(bs, s[j1] as int, f).contains(x)
                ==> !#[trigger] below(bs, s[j2] as int, f).contains(x),
    ensures
        below_all(bs, s, f).no_duplicates(),
    decreases s.len(),
{
    broadcast use vstd::seq_lib::lemma_seq_concat_contains_all_elements;

    if s.len() > 0 {
        let s0 = s.drop_last();
        let last = s.len() - 1;
        assert forall|j: int| 0 <= j < s0.len() implies (#[trigger] below(bs, s0[j] as int, f)).no_duplicates() by {
            assert(s0[j] == s[j]);
        }
        assert forall|j1: int, j2: int, x: usize|
            0 <= j1 < j2 < s0.len() && #[trigger] below(bs, s0[j1] as int, f).contains(x)
                implies !#[trigger] below(bs, s0[j2] as int, f).contains(x) by {
            assert(s0[j1] == s[j1] && s0[j2] == s[j2]);
        }
        lemma_below_all_distinct(bs, s0, f);
        lemma_below_all_contains(bs, s0, f);
        let a = below(bs, s[last] as int, f);
        let b = below_all(bs, s0, f);
        assert forall|i: int, j: int| 0 <= i < a.len() && 0 <= j < b.len() implies a[i] != b[j] by {
            if a[i] == b[j] {
                let x = a[i];
                assert(a.contains(x));
                assert(b.contains(x));
                let j0 = choose|j0: int| 0 <= j0 < s0.len() && #[trigger] below(bs, s0[j0] as int, f).contains(x);
                assert(s0[j0] == s[j0]);
                assert(below(bs, s[j0] as int, f).contains(x));
            }
        }
        vstd::seq_lib::lemma_no_dup_in_concat(a, b);
    }
}

/// What lies below a block that is not on a cycle comes once each.
proof fn lemma_below_distinct(bs: Seq<Block>, t: int, f: nat)
    requires
        bs.len() <= usize::MAX,
        !on_cycle(bs, t),
    ensures
        below(bs, t, f).no_duplicates(),
    decreases f,
{
    broadcast use vstd::seq_lib::lemma_seq_concat_contains_all_elements;

    if f > 0 {
        let n = bs.len();
        let g = (f - 1) as nat;
        let pred = |i: int| parent_node(bs, i) == Some(t);
        let ch = children_in(bs, t);
        lemma_indices_where_enumerates(n, pred);
        assert forall|j: int| 0 <= j < ch.len() implies (#[trigger] below(bs, ch[j] as int, g)).no_duplicates() by {
            assert(pred(ch[j] as int));
            lemma_child_off_cycle(bs, ch[j] as int, t);
            lemma_below_distinct(bs, ch[j] as int, g);
        }
        assert forall|j1: int, j2: int, x: usize|
            0 <= j1 < j2 < ch.len() && #[trigger] below(bs, ch[j1] as int, g).contains(x)
                implies !#[trigger] below(bs, ch[j2] as int, g).contains(x) by {
            if below(bs, ch[j2] as int, g).contains(x) {
                let c1 = ch[j1] as int;
                let c2 = ch[j2] as int;
                assert(pred(c1) && pred(c2));
                lemma_below_contains(bs, c1, g);
                lemma_below_contains(bs, c2, g);
                let k1 = choose|k: nat| 1 <= k <= g && #[trigger] nth_ancestor(bs, x as int, k) == Some(c1);
                let k2 = choose|k: nat| 1 <= k <= g && #[trigger] nth_ancestor(bs, x as int, k) == Some(c2);
                assert(nth_ancestor(bs, x as int, (k1 + 1) as nat) == parent_step(bs, c1));
                assert(nth_ancestor(bs, x as int, (k2 + 1) as nat) == parent_step(bs, c2));
                if k1 < k2 {
                    lemma_nth_add(bs, x as int, (k1 + 1) as nat, (k2 - k1) as nat);
                    assert(((k1 + 1) + (k2 - k1)) as nat == (k2 + 1) as nat);
                    assert(nth_ancestor(bs, t, (k2 - k1) as nat) == Some(t));
                } else if k2 < k1 {
                    lemma_nth_add(bs, x as int, (k2 + 1) as nat, (k1 - k2) as nat);
                    assert(((k2 + 1) + (k1 - k2)) as nat == (k1 + 1) as nat);
                    assert(nth_ancestor(bs, t, (k1 - k2) as nat) == Some(t));
                } else {
                    assert(ch[j1] < ch[j2]);
                }
            }
        }
        lemma_below_all_distinct(bs, ch, g);
        lemma_below_all_contains(bs, ch, g);
        let b = below_all(bs, ch, g);
        assert forall|i: int, j: int| 0 <= i < ch.len() && 0 <= j < b.len() implies ch[i] != b[j] by {
            if ch[i] == b[j] {
                let x = ch[i];
                assert(pred(x as int));
                lemma_first_link(bs, x as int, t);
                assert(b.contains(x));
                let j0 = choose|j0: int| 0 <= j0 < ch.len() && #[trigger] below(bs, ch[j0] as int, g).contains(x);
                let c = ch[j0] as int;
                assert(pred(c));
                lemma_below_contains(bs, c, g);
                let k = choose|k: nat| 1 <= k <= g && #[trigger] nth_ancestor(bs, x as int, k) == Some(c);
                assert(nth_ancestor(bs, x as int, (k + 1) as nat) == parent_step(bs, c));
                lemma_nth_add(bs, x as int, 1, k);
                assert((1 + k) as nat == (k + 1) as nat);
                assert(nth_ancestor(bs, t, k) == Some(t));
            }
        }
        assert(ch.no_duplicates()) by {
            assert forall|i: int, j: int| 0 <= i < ch.len() && 0 <= j < ch.len() && i != j implies ch[i] != ch[j] by {
                if i < j {
                    assert(ch[i] < ch[j]);
                } else {
                    assert(ch[j] < ch[i]);
                }
            }
        }
        vstd::seq_lib::lemma_no_dup_in_concat(ch, b);
    }
}

// ─── Laws of the walk ───────────────────────────────────────────────────────

/// The subtree of a block that is not on a cycle lists the block first, then each of its
/// descendants, every block exactly once and nothing else.
pub proof fn lemma_subtree_members(s: Session, node: usize)
    requires
        !on_cycle(s.blocks@, node as int),
    ensures
        subtree_order(s.blocks@, node)[0] == node,
        subtree_order(s.blocks@, node).no_duplicates(),
        forall|x: usize|
            #[trigger] subtree_order(s.blocks@, node).contains(x) <==> (x == node || ((x as int)
                < s.blocks@.len() && is_descendant(s.blocks@, x as int, node as int))),
{
    broadcast use vstd::seq_lib::lemma_seq_concat_contains_all_elements;

    let bs = s.blocks@;
    let n = bs.len();
    assert(s.blocks.len() == n);
    let b = below(bs, node as int, n);
    lemma_below_contains(bs, node as int, n);
    lemma_below_distinct(bs, node as int, n);
    assert forall|x: usize| #[trigger] b.contains(x) <==> ((x as int) < n && is_descendant(bs, x as int, node as int)) by {
        if (x as int) < n && is_descendant(bs, x as int, node as int) {
            let k = choose|k: nat| k >= 1 && #[trigger] nth_ancestor(bs, x as int, k) == Some(node as int);
            lemma_chain_bound(bs, x as int, node as int, k);
            assert(within(bs, x as int, node as int, n));
        }
    }
    assert(!b.contains(node)) by {
        if b.contains(node) {
            let k = choose|k: nat| 1 <= k <= n && #[trigger] nth_ancestor(bs, node as int, k) == Some(node as int);
            assert(on_cycle(bs, node as int));
        }
    }
    let head = seq![node];
    assert(head[0] == node);
    assert(head.contains(node));
    assert forall|i: int, j: int| 0 <= i < head.len() && 0 <= j < b.len() implies head[i] != b[j] by {
        assert(b.contains(b[j]));
    }
    vstd::seq_lib::lemma_no_dup_in_concat(head, b);
}

// ─── The walk ───────────────────────────────────────────────────────────────

impl Session {
    /// A block and all its descendants: the block first, then, for each block taken from
    /// a stack, its children in file order (pushed onto the stack in turn).
    pub fn subtree(&self, node: NodeId) -> (r: Vec<NodeId>)
        requires
            self.wf(),
            !on_cycle(self.blocks@, node as int),
        ensures
            r@ == subtree_order(self.blocks@, node),
    {
        let ghost bs = self.blocks@;
        let ghost n: nat = bs.len();
        let count = self.blocks.len();
        let ghost target = subtree_order(bs, node);
        let mut result: Vec<NodeId> = Vec::new();
        result.push(node);
        let mut stack: Vec<NodeId> = Vec::new();
        stack.push(node);
        let ghost mut ds: Seq<nat> = seq![0nat];
        let ghost mut fs: Seq<nat> = seq![n];
        proof {
            assert(stack@.drop_last() =~= Seq::<usize>::empty());
            assert(fs.drop_last() =~= Seq::<nat>::empty());
            assert(stack@.last() == node && fs.last() == n);
            assert(below_each(bs, stack@, fs) == below(bs, node as int, n) + below_each(
                bs,
                Seq::<usize>::empty(),
                Seq::<nat>::empty(),
            ));
            assert(below_each(bs, stack@, fs) =~= below(bs, node as int, n));
        }
        while stack.len() > 0
            invariant
                self.wf(),
                bs == self.blocks@,
                n == bs.len(),
                n == count,
                !on_cycle(bs, node as int),
                ds.len() == stack@.len(),
                fs.len() == stack@.len(),
                forall|k: int|
                    0 <= k < stack@.len() ==> nth_ancestor(bs, #[trigger] stack@[k] as int, ds[k])
                        == Some(node as int) && fs[k] + ds[k] == n,
                result@ + below_each(bs, stack@, fs) == target,
            decreases target.len() - result@.len() + stack@.len(),
        {
            let ghost stack_before = stack@;
            let ghost fs_before = fs;
            let ghost d = ds.last();
            let ghost f = fs.last();
            let ghost result0 = result@;
            let current = stack.pop().unwrap();
            let ghost stack0 = stack@;
            proof {
                assert(stack0 =~= stack_before.drop_last());
                ds = ds.drop_last();
                fs = fs.drop_last();
            }
            let kids = self.children_of(current);
            proof {
                let pred = |i: int| parent_node(bs, i) == Some(current as int);
                lemma_enumeration_unique(kids@, n, pred);
                assert(kids@ == children_in(bs, current as int));
                if kids@.len() > 0 {
                    let c = kids@[0] as int;
                    assert(pred(c));
                    assert(nth_ancestor(bs, c, 0) == Some(c));
                    assert(nth_ancestor(bs, c, 1) == parent_step(bs, c));
                    lemma_nth_add(bs, c, 1, d);
                    assert((1 + d) as nat == (d + 1) as nat);
                    lemma_chain_bound(bs, c, node as int, (d + 1) as nat);
                    assert(f >= 1);
                    assert(below(bs, current as int, f) == kids@ + below_all(
                        bs,
                        kids@,
                        (f - 1) as nat,
                    ));
                } else {
                    assert(below(bs, current as int, f) =~= Seq::<usize>::empty());
                }
            }
            let mut j: usize = 0;
            while j < kids.len()
                invariant
                    j <= kids@.len(),
                    result@ == result0 + kids@.take(j as int),
                    stack@ == stack0 + kids@.take(j as int),
                decreases kids@.len() - j,
            {
                let c = kids[j];
                result.push(c);
                stack.push(c);
                proof {
                    assert(kids@.take(j + 1) =~= kids@.take(j as int).push(c));
                }
                j = j + 1;
            }
            proof {
                assert(kids@.take(j as int) =~= kids@);
                let g = (f - 1) as nat;
                let ds0 = ds;
                let fs0 = fs;
                ds = ds0 + Seq::new(kids@.len(), |i: int| (d + 1) as nat);
                fs = fs0 + Seq::new(kids@.len(), |i: int| g);
                assert forall|k: int| 0 <= k < stack@.len() implies nth_ancestor(
                    bs,
                    #[trigger] stack@[k] as int,
                    ds[k],
                ) == Some(node as int) && fs[k] + ds[k] == n by {
                    if k < stack0.len() {
                        assert(stack@[k] == stack_before[k]);
                    } else {
                        let c = kids@[k - stack0.len()] as int;
                        assert(stack@[k] as int == c);
                        assert(parent_node(bs, c) == Some(current as int));
                        assert(nth_ancestor(bs, c, 0) == Some(c));
                        assert(nth_ancestor(bs, c, 1) == parent_step(bs, c));
                        lemma_nth_add(bs, c, 1, d);
                        assert((1 + d) as nat == (d + 1) as nat);
                        lemma_chain_bound(bs, c, node as int, (d + 1) as nat);
                    }
                }
                lemma_below_each_push(bs, stack0, fs0, kids@, g);
                if kids@.len() == 0 {
                    assert(stack@ =~= stack0);
                    assert(fs =~= fs0);
                    assert(result@ =~= result0);
                }
                assert(below_each(bs, stack_before, fs_before) == below(bs, current as int, f)
                    + below_each(bs, stack0, fs0));
                assert(result@ + below_each(bs, stack@, fs) =~= result0 + below_each(
                    bs,
                    stack_before,
                    fs_before,
                ));
            }
        }
        proof {
            assert(below_each(bs, stack@, fs) =~= Seq::<usize>::empty());
            assert(result@ =~= target);
        }
        result
    }
}

} // verus!
