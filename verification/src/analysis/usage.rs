use vstd::prelude::*;

use super::order::{is_desc_order, order_desc};
use super::tokens::{token_value, token_value_of};
use crate::model::block::{block_token_total, spec_block_type, spec_tokens, tokens_total, Block, BlockInfo};
use crate::model::session::{
    distinct_indices, lemma_sum_at_distinct, lemma_sum_at_nonneg, lemma_usage_sum_total, sum_at,
    usage_parts, usage_sum, Session,
};
use crate::model::types::{BlockType, TokenUsage};
use crate::text::{copy_str, str_eq};

verus! {

/// The indices `0..n`.
pub open spec fn all_indices(n: int) -> Seq<usize> {
    Seq::new(n as nat, |i: int| i as usize)
}

pub proof fn lemma_all_indices_distinct(n: int)
    requires
        0 <= n <= usize::MAX,
    ensures
        distinct_indices(all_indices(n), n),
        forall|i: int| 0 <= i < n ==> all_indices(n)[i] == i,
{
    assert forall|i: int| 0 <= i < n implies all_indices(n)[i] == i by {
        assert(all_indices(n)[i] == i as usize);
    }
}

/// The component-wise sum of two four-part token counts.
pub open spec fn add_parts(a: (int, int, int, int), b: (int, int, int, int)) -> (int, int, int, int) {
    (a.0 + b.0, a.1 + b.1, a.2 + b.2, a.3 + b.3)
}

/// The sum of the four parts.
pub open spec fn parts_total(a: (int, int, int, int)) -> int {
    a.0 + a.1 + a.2 + a.3
}

/// All four parts are at least zero.
pub open spec fn parts_nonneg(a: (int, int, int, int)) -> bool {
    a.0 >= 0 && a.1 >= 0 && a.2 >= 0 && a.3 >= 0
}

/// The usage with the given parts.
pub open spec fn parts_usage(a: (int, int, int, int)) -> TokenUsage {
    TokenUsage {
        input_tokens: a.0 as u64,
        output_tokens: a.1 as u64,
        cache_creation_input_tokens: a.2 as u64,
        cache_read_input_tokens: a.3 as u64,
    }
}

/// The token usage of every block of the session, summed component-wise (only
/// assistant blocks carry tokens).
pub fn total_usage(session: &Session) -> (t: TokenUsage)
    requires
        tokens_total(session.blocks@) <= u64::MAX,
    ensures
        usage_parts(t) == usage_sum(session.blocks@, all_indices(session.blocks@.len() as int)),
        t.spec_total() == tokens_total(session.blocks@),
{
    let ghost bs = session.blocks@;
    let ghost n = bs.len() as int;
    let mut t = TokenUsage::default();
    let mut i: usize = 0;
    proof {
        assert(all_indices(0) =~= Seq::<usize>::empty());
    }
    while i < session.blocks.len()
        invariant
            bs == session.blocks@,
            n == bs.len(),
            tokens_total(bs) <= u64::MAX,
            0 <= i <= n,
            usage_parts(t) == usage_sum(bs, all_indices(i as int)),
        decreases n - i,
    {
        proof {
            assert(all_indices(i + 1).drop_last() =~= all_indices(i as int));
            assert(all_indices(i + 1).last() == i);
            assert(distinct_indices(all_indices(i + 1), n));
            lemma_sum_at_distinct(bs, all_indices(i + 1));
            lemma_usage_sum_total(bs, all_indices(i + 1));
        }
        match session.blocks[i].tokens() {
            Some(u) => {
                t.merge(u);
            },
            None => {},
        }
        i = i + 1;
    }
    proof {
        assert(all_indices(n) =~= Seq::new(n as nat, |i: int| i as usize));
        lemma_usage_sum_total(bs, all_indices(n));
        lemma_sum_at_all(bs);
    }
    t
}

/// Summing over every index gives the total of the blocks.
pub proof fn lemma_sum_at_all(bs: Seq<Block>)
    requires
        bs.len() <= usize::MAX,
    ensures
        sum_at(bs, all_indices(bs.len() as int)) == tokens_total(bs),
    decreases bs.len(),
{
    if bs.len() > 0 {
        let m = bs.len() - 1;
        lemma_sum_at_all(bs.drop_last());
        assert(all_indices(bs.len() as int).drop_last() =~= all_indices(m));
        lemma_all_indices_distinct(bs.len() as int);
        lemma_all_indices_distinct(m);
        assert(all_indices(bs.len() as int).last() == m);
        lemma_sum_at_prefix_blocks(bs, all_indices(m));
        assert(bs[m] == bs.last());
    }
}

proof fn lemma_sum_at_prefix_blocks(bs: Seq<Block>, s: Seq<usize>)
    requires
        bs.len() > 0,
        forall|i: int| 0 <= i < s.len() ==> s[i] < bs.len() - 1,
    ensures
        sum_at(bs, s) == sum_at(bs.drop_last(), s),
    decreases s.len(),
{
    if s.len() > 0 {
        lemma_sum_at_prefix_blocks(bs, s.drop_last());
        assert(bs.drop_last()[s.last() as int] == bs[s.last() as int]);
    }
}

// ─── Tokens by tool ─────────────────────────────────────────────────────────

/// Named token counts, as values.
pub type Buckets = Seq<(Seq<char>, (int, int, int, int))>;

/// The position of the bucket with the given name.
pub open spec fn find_bucket(b: Buckets, name: Seq<char>) -> Option<int>
    decreases b.len(),
{
    if b.len() == 0 {
        None
    } else if b.last().0 == name {
        Some(b.len() - 1)
    } else {
        find_bucket(b.drop_last(), name)
    }
}

/// `u` added to the bucket of `name`, which is appended when there is none yet.
pub open spec fn add_to_bucket(b: Buckets, name: Seq<char>, u: (int, int, int, int)) -> Buckets {
    match find_bucket(b, name) {
        Some(k) => b.update(k, (name, add_parts(b[k].1, u))),
        None => b.push((name, u)),
    }
}

/// An equal share of each component of `t` for each of `n` tool calls (integer
/// division).
pub open spec fn tool_share(t: TokenUsage, n: int) -> (int, int, int, int) {
    (
        t.input_tokens as int / n,
        t.output_tokens as int / n,
        t.cache_creation_input_tokens as int / n,
        t.cache_read_input_tokens as int / n,
    )
}

/// The share added to the bucket of each tool name, in order.
pub open spec fn add_shares(b: Buckets, names: Seq<Seq<char>>, share: (int, int, int, int)) -> Buckets
    decreases names.len(),
{
    if names.len() == 0 {
        b
    } else {
        add_to_bucket(add_shares(b, names.drop_last(), share), names.last(), share)
    }
}

/// The tool names of an assistant block's calls.
pub open spec fn call_names(b: Block) -> Seq<Seq<char>> {
    match b {
        Block::Assistant(a) => Seq::new(a.tool_calls@.len(), |j: int| a.tool_calls@[j].tool_name@),
        _ => Seq::empty(),
    }
}

/// The tokens of the first `k` blocks by tool: an assistant block without tool calls
/// counts under `(no tool)`; one with `n` calls gives each call's tool an `n`-th of each
/// component. Buckets come in the order their names first appear.
pub open spec fn tool_buckets(bs: Seq<Block>, k: int) -> Buckets
    decreases k,
{
    if k <= 0 {
        Seq::empty()
    } else {
        let prev = tool_buckets(bs, k - 1);
        match bs[k - 1] {
            Block::Assistant(a) => if a.tool_calls@.len() == 0 {
                add_to_bucket(prev, "(no tool)"@, usage_parts(a.tokens))
            } else {
                add_shares(prev, call_names(bs[k - 1]), tool_share(a.tokens, a.tool_calls@.len() as int))
            },
            _ => prev,
        }
    }
}

/// The sum of all parts of all buckets.
pub open spec fn buckets_total(b: Buckets) -> int
    decreases b.len(),
{
    if b.len() == 0 {
        0
    } else {
        buckets_total(b.drop_last()) + parts_total(b.last().1)
    }
}

/// Every bucket's parts are at least zero, and no two buckets share a name.
pub open spec fn buckets_ok(b: Buckets) -> bool {
    &&& forall|k: int| 0 <= k < b.len() ==> parts_nonneg(#[trigger] b[k].1)
    &&& forall|i: int, j: int| 0 <= i < j < b.len() ==> b[i].0 != b[j].0
}

pub proof fn lemma_find_bucket(b: Buckets, name: Seq<char>)
    ensures
        match find_bucket(b, name) {
            Some(k) => 0 <= k < b.len() && b[k].0 == name,
            None => forall|k: int| 0 <= k < b.len() ==> b[k].0 != name,
        },
    decreases b.len(),
{
    if b.len() > 0 && b.last().0 != name {
        lemma_find_bucket(b.drop_last(), name);
        let r = find_bucket(b.drop_last(), name);
        if r is Some {
            assert(b.drop_last()[r.unwrap()] == b[r.unwrap()]);
        } else {
            assert forall|k: int| 0 <= k < b.len() implies b[k].0 != name by {
                if k < b.len() - 1 {
                    assert(b.drop_last()[k] == b[k]);
                }
            }
        }
    }
}

proof fn lemma_buckets_total_update(b: Buckets, k: int, v: (Seq<char>, (int, int, int, int)))
    requires
        0 <= k < b.len(),
    ensures
        buckets_total(b.update(k, v)) == buckets_total(b) - parts_total(b[k].1) + parts_total(v.1),
    decreases b.len(),
{
    if k == b.len() - 1 {
        assert(b.update(k, v).drop_last() =~= b.drop_last());
    } else {
        lemma_buckets_total_update(b.drop_last(), k, v);
        assert(b.update(k, v).drop_last() =~= b.drop_last().update(k, v));
    }
}

proof fn lemma_bucket_le_total(b: Buckets, k: int)
    requires
        buckets_ok(b),
        0 <= k < b.len(),
    ensures
        0 <= parts_total(b[k].1) <= buckets_total(b),
        buckets_total(b) >= 0,
    decreases b.len(),
{
    let d = b.drop_last();
    assert forall|j: int| 0 <= j < d.len() implies parts_nonneg(#[trigger] d[j].1) by {
        assert(d[j] == b[j]);
    }
    assert forall|i: int, j: int| 0 <= i < j < d.len() implies d[i].0 != d[j].0 by {
        assert(d[i] == b[i] && d[j] == b[j]);
    }
    assert(parts_nonneg(b[b.len() - 1].1));
    assert(parts_nonneg(b[k].1));
    if d.len() > 0 {
        lemma_bucket_le_total(d, 0);
    }
    assert(buckets_total(d) >= 0);
    if k < b.len() - 1 {
        lemma_bucket_le_total(d, k);
        assert(d[k] == b[k]);
    }
}

/// Adding to a bucket keeps the buckets consistent and adds to their total.
pub proof fn lemma_add_to_bucket(b: Buckets, name: Seq<char>, u: (int, int, int, int))
    requires
        buckets_ok(b),
        parts_nonneg(u),
    ensures
        buckets_ok(add_to_bucket(b, name, u)),
        buckets_total(add_to_bucket(b, name, u)) == buckets_total(b) + parts_total(u),
{
    lemma_find_bucket(b, name);
    let r = add_to_bucket(b, name, u);
    match find_bucket(b, name) {
        Some(k) => {
            lemma_buckets_total_update(b, k, (name, add_parts(b[k].1, u)));
            assert forall|j: int| 0 <= j < r.len() implies parts_nonneg(#[trigger] r[j].1) by {
                if j != k {
                    assert(r[j] == b[j]);
                }
            }
            assert forall|i: int, j: int| 0 <= i < j < r.len() implies r[i].0 != r[j].0 by {
                assert(r[i].0 == b[i].0 && r[j].0 == b[j].0);
            }
        },
        None => {
            assert(r.drop_last() =~= b);
            assert forall|j: int| 0 <= j < r.len() implies parts_nonneg(#[trigger] r[j].1) by {
                if j < b.len() {
                    assert(r[j] == b[j]);
                }
            }
            assert forall|i: int, j: int| 0 <= i < j < r.len() implies r[i].0 != r[j].0 by {
                assert(r[i] == b[i]);
                if j < b.len() {
                    assert(r[j] == b[j]);
                }
            }
        },
    }
}

proof fn lemma_add_shares(b: Buckets, names: Seq<Seq<char>>, share: (int, int, int, int))
    requires
        buckets_ok(b),
        parts_nonneg(share),
    ensures
        buckets_ok(add_shares(b, names, share)),
        buckets_total(add_shares(b, names, share)) == buckets_total(b) + names.len() * parts_total(
            share,
        ),
    decreases names.len(),
{
    if names.len() > 0 {
        lemma_add_shares(b, names.drop_last(), share);
        lemma_add_to_bucket(add_shares(b, names.drop_last(), share), names.last(), share);
        assert(names.len() * parts_total(share) == (names.len() - 1) * parts_total(share)
            + parts_total(share)) by (nonlinear_arith);
    }
}

proof fn lemma_share_bound(t: TokenUsage, n: int)
    requires
        n >= 1,
    ensures
        parts_nonneg(tool_share(t, n)),
        n * parts_total(tool_share(t, n)) <= t.spec_total(),
{
    let s = tool_share(t, n);
    let a = t.input_tokens as int;
    let b = t.output_tokens as int;
    let c = t.cache_creation_input_tokens as int;
    let d = t.cache_read_input_tokens as int;
    assert(n * (a / n) <= a) by (nonlinear_arith)
        requires
            n >= 1,
            a >= 0,
    ;
    assert(n * (b / n) <= b) by (nonlinear_arith)
        requires
            n >= 1,
            b >= 0,
    ;
    assert(n * (c / n) <= c) by (nonlinear_arith)
        requires
            n >= 1,
            c >= 0,
    ;
    assert(n * (d / n) <= d) by (nonlinear_arith)
        requires
            n >= 1,
            d >= 0,
    ;
    assert(a / n >= 0 && b / n >= 0 && c / n >= 0 && d / n >= 0) by (nonlinear_arith)
        requires
            n >= 1,
            a >= 0,
            b >= 0,
            c >= 0,
            d >= 0,
    ;
    let s0 = a / n;
    let s1 = b / n;
    let s2 = c / n;
    let s3 = d / n;
    assert(n * (s0 + s1 + s2 + s3) == n * s0 + n * s1 + n * s2 + n * s3) by (nonlinear_arith);
    assert(parts_total(s) == s0 + s1 + s2 + s3);
}

/// The buckets never hold more tokens than the blocks they come from.
pub proof fn lemma_tool_buckets(bs: Seq<Block>, k: int)
    requires
        0 <= k <= bs.len(),
        bs.len() <= usize::MAX,
    ensures
        buckets_ok(tool_buckets(bs, k)),
        buckets_total(tool_buckets(bs, k)) <= sum_at(bs, all_indices(k)),
    decreases k,
{
    if k > 0 {
        lemma_tool_buckets(bs, k - 1);
        assert(all_indices(k).drop_last() =~= all_indices(k - 1));
        lemma_all_indices_distinct(k);
        assert(all_indices(k).last() == k - 1);
        assert(sum_at(bs, all_indices(k)) == sum_at(bs, all_indices(k - 1)) + block_token_total(
            bs[k - 1],
        ));
        let prev = tool_buckets(bs, k - 1);
        match bs[k - 1] {
            Block::Assistant(a) => {
                if a.tool_calls@.len() == 0 {
                    lemma_add_to_bucket(prev, "(no tool)"@, usage_parts(a.tokens));
                } else {
                    let n = a.tool_calls@.len() as int;
                    lemma_share_bound(a.tokens, n);
                    lemma_add_shares(prev, call_names(bs[k - 1]), tool_share(a.tokens, n));
                }
            },
            _ => {},
        }
    }
}

/// The position of the bucket with the given name, searching from the end.
fn bucket_index(b: &Vec<(String, TokenUsage)>, name: &str) -> (r: Option<usize>)
    ensures
        match r {
            Some(k) => k < b@.len() && find_bucket(bucket_views(b@), name@) == Some(k as int),
            None => find_bucket(bucket_views(b@), name@) is None,
        },
{
    let ghost vs = bucket_views(b@);
    let mut i: usize = b.len();
    proof {
        assert(vs.take(i as int) =~= vs);
        lemma_find_bucket(vs, name@);
    }
    while i > 0
        invariant
            0 <= i <= b@.len(),
            vs == bucket_views(b@),
            find_bucket(vs, name@) == find_bucket(vs.take(i as int), name@),
        decreases i,
    {
        proof {
            assert(vs.take(i as int).drop_last() =~= vs.take(i - 1));
        }
        if str_eq(b[i - 1].0.as_str(), name) {
            return Some(i - 1);
        }
        i = i - 1;
    }
    None
}

/// Buckets of usages, as values.
pub open spec fn bucket_views(b: Seq<(String, TokenUsage)>) -> Buckets {
    b.map_values(|e: (String, TokenUsage)| (e.0@, usage_parts(e.1)))
}

/// Adds `u` to the bucket of `name`.
fn add_usage(b: &mut Vec<(String, TokenUsage)>, name: &str, u: &TokenUsage)
    requires
        buckets_ok(bucket_views(old(b)@)),
        buckets_total(bucket_views(old(b)@)) + u.spec_total() <= u64::MAX,
    ensures
        bucket_views(final(b)@) == add_to_bucket(bucket_views(old(b)@), name@, usage_parts(*u)),
{
    let ghost vs = bucket_views(b@);
    proof {
        lemma_find_bucket(vs, name@);
    }
    match bucket_index(b, name) {
        Some(k) => {
            proof {
                lemma_bucket_le_total(vs, k as int);
                assert(vs[k as int] == (b@[k as int].0@, usage_parts(b@[k as int].1)));
            }
            b[k].1.merge(u);
            proof {
                assert(bucket_views(b@) =~= vs.update(
                    k as int,
                    (name@, add_parts(vs[k as int].1, usage_parts(*u))),
                ));
            }
        },
        None => {
            b.push((copy_str(name), *u));
            proof {
                assert(bucket_views(b@) =~= vs.push((name@, usage_parts(*u))));
            }
        },
    }
}

/// The token buckets by tool over all blocks, in order of first appearance (see
/// `tool_buckets`).
fn tool_token_buckets(session: &Session) -> (b: Vec<(String, TokenUsage)>)
    requires
        tokens_total(session.blocks@) <= u64::MAX,
    ensures
        bucket_views(b@) == tool_buckets(session.blocks@, session.blocks@.len() as int),
{
    let ghost bs = session.blocks@;
    let ghost n = bs.len() as int;
    let mut b: Vec<(String, TokenUsage)> = Vec::new();
    let mut i: usize = 0;
    proof {
        assert(bucket_views(b@) =~= tool_buckets(bs, 0));
    }
    while i < session.blocks.len()
        invariant
            bs == session.blocks@,
            n == bs.len(),
            tokens_total(bs) <= u64::MAX,
            0 <= i <= n,
            bucket_views(b@) == tool_buckets(bs, i as int),
        decreases n - i,
    {
        proof {
            lemma_tool_buckets(bs, i as int);
            assert(all_indices(i + 1).drop_last() =~= all_indices(i as int));
            lemma_all_indices_distinct(i + 1);
            assert(all_indices(i + 1).last() == i);
            assert(distinct_indices(all_indices(i + 1), n));
            lemma_sum_at_distinct(bs, all_indices(i + 1));
            lemma_sum_at_nonneg(bs, all_indices(i as int));
            assert(sum_at(bs, all_indices(i + 1)) == sum_at(bs, all_indices(i as int))
                + block_token_total(bs[i as int]));
        }
        match &session.blocks[i] {
            Block::Assistant(a) => {
                if a.tool_calls.len() == 0 {
                    add_usage(&mut b, "(no tool)", &a.tokens);
                } else {
                    let n_calls = a.tool_calls.len() as u64;
                    let share = TokenUsage {
                        input_tokens: a.tokens.input_tokens / n_calls,
                        output_tokens: a.tokens.output_tokens / n_calls,
                        cache_creation_input_tokens: a.tokens.cache_creation_input_tokens / n_calls,
                        cache_read_input_tokens: a.tokens.cache_read_input_tokens / n_calls,
                    };
                    let ghost names = call_names(bs[i as int]);
                    let ghost prev = bucket_views(b@);
                    let ghost sh = tool_share(a.tokens, n_calls as int);
                    proof {
                        lemma_share_bound(a.tokens, n_calls as int);
                        assert(usage_parts(share) == sh);
                    }
                    let mut j: usize = 0;
                    while j < a.tool_calls.len()
                        invariant
                            0 <= j <= a.tool_calls@.len(),
                            n_calls == a.tool_calls@.len(),
                            names == Seq::new(
                                a.tool_calls@.len(),
                                |j: int| a.tool_calls@[j].tool_name@,
                            ),
                            usage_parts(share) == sh,
                            parts_nonneg(sh),
                            n_calls * parts_total(sh) <= a.tokens.spec_total(),
                            buckets_ok(prev),
                            buckets_total(prev) + a.tokens.spec_total() <= u64::MAX,
                            bucket_views(b@) == add_shares(prev, names.take(j as int), sh),
                        decreases a.tool_calls@.len() - j,
                    {
                        proof {
                            assert(names.take(j + 1).drop_last() =~= names.take(j as int));
                            lemma_add_shares(prev, names.take(j as int), sh);
                            assert((j + 1) * parts_total(sh) <= n_calls * parts_total(sh) && (j
                                + 1) * parts_total(sh) == j * parts_total(sh) + parts_total(sh))
                                by (nonlinear_arith)
                                requires
                                    j < n_calls,
                                    parts_total(sh) >= 0,
                            ;
                            assert(names.take(j as int).len() == j);
                        }
                        add_usage(&mut b, a.tool_calls[j].tool_name.as_str(), &share);
                        j = j + 1;
                    }
                    proof {
                        assert(names.take(j as int) =~= names);
                    }
                }
            },
            _ => {},
        }
        i = i + 1;
    }
    b
}

/// The stable descending order of the buckets by a token component.
pub open spec fn bucket_keys(b: Buckets, tt: Seq<char>) -> Seq<u128> {
    b.map_values(|e: (Seq<char>, (int, int, int, int))| token_value_of(parts_usage(e.1), tt) as u128)
}

/// The buckets taken in the order `p`.
pub open spec fn reorder(b: Buckets, p: Seq<usize>) -> Buckets {
    p.map_values(|i: usize| b[i as int])
}

/// Tokens by tool: each tool's tokens (an equal share of each assistant response for
/// each of its tool calls; `(no tool)` for responses without calls), largest first by
/// the primary token type, ties in order of first appearance.
pub fn tokens_by_tool(session: &Session, primary: &str) -> (r: Vec<(String, TokenUsage)>)
    requires
        tokens_total(session.blocks@) <= u64::MAX,
    ensures
        ({
            let b = tool_buckets(session.blocks@, session.blocks@.len() as int);
            exists|p: Seq<usize>|
                is_desc_order(bucket_keys(b, primary@), p) && bucket_views(r@) == reorder(b, p)
        }),
        forall|k: int| 0 <= k < r@.len() ==> (#[trigger] r@[k]).1.spec_total() <= u64::MAX,
        forall|i: int, j: int|
            0 <= i < j < r@.len() ==> token_value_of(r@[i].1, primary@) >= token_value_of(
                r@[j].1,
                primary@,
            ),
{
    let nb = session.blocks.len();
    assert(nb == session.blocks@.len());
    let b = tool_token_buckets(session);
    let ghost bv = bucket_views(b@);
    proof {
        lemma_tool_buckets(session.blocks@, session.blocks@.len() as int);
        lemma_sum_at_all(session.blocks@);
    }
    let mut keys: Vec<u128> = Vec::new();
    let mut i: usize = 0;
    while i < b.len()
        invariant
            bv == bucket_views(b@),
            buckets_ok(bv),
            buckets_total(bv) <= u64::MAX,
            0 <= i <= b@.len(),
            keys@ == bucket_keys(bv, primary@).take(i as int),
            forall|x: int| 0 <= x < i ==> #[trigger] keys@[x] as int == token_value_of(b@[x].1, primary@),
        decreases b@.len() - i,
    {
        proof {
            lemma_bucket_le_total(bv, i as int);
            assert(usage_parts(b@[i as int].1) == bv[i as int].1);
            assert(parts_usage(bv[i as int].1) == b@[i as int].1);
        }
        let v = token_value(&b[i].1, primary);
        keys.push(v as u128);
        proof {
            assert(keys@ =~= bucket_keys(bv, primary@).take(i + 1));
        }
        i = i + 1;
    }
    proof {
        assert(keys@ =~= bucket_keys(bv, primary@));
    }
    let order = order_desc(&keys);
    let mut r: Vec<(String, TokenUsage)> = Vec::new();
    let mut j: usize = 0;
    while j < order.len()
        invariant
            bv == bucket_views(b@),
            buckets_ok(bv),
            buckets_total(bv) <= u64::MAX,
            is_desc_order(keys@, order@),
            keys@.len() == b@.len(),
            0 <= j <= order@.len(),
            bucket_views(r@) == reorder(bv, order@.take(j as int)),
            forall|k: int| 0 <= k < r@.len() ==> (#[trigger] r@[k]).1.spec_total() <= u64::MAX,
            forall|x: int| 0 <= x < b@.len() ==> #[trigger] keys@[x] as int == token_value_of(b@[x].1, primary@),
            r@.len() == j,
            forall|x: int| 0 <= x < j ==> (#[trigger] r@[x]).1 == b@[order@[x] as int].1,
        decreases order@.len() - j,
    {
        let k = order[j];
        proof {
            lemma_bucket_le_total(bv, k as int);
        }
        let ghost before = r@;
        r.push((copy_str(b[k].0.as_str()), b[k].1));
        proof {
            assert forall|x: int| 0 <= x < j + 1 implies (#[trigger] r@[x]).1 == b@[order@[x] as int].1 by {
                if x < j {
                    assert(r@[x] == before[x]);
                }
            }
            assert(order@.take(j + 1) =~= order@.take(j as int).push(k));
            assert(bv[k as int] == (b@[k as int].0@, usage_parts(b@[k as int].1)));
            assert(bucket_views(r@) =~= bucket_views(before).push(bv[k as int]));
            assert(reorder(bv, order@.take(j + 1)) =~= reorder(bv, order@.take(j as int)).push(
                bv[k as int],
            ));
        }
        j = j + 1;
    }
    proof {
        assert(order@.take(j as int) =~= order@);
        assert forall|x: int, y: int| 0 <= x < y < r@.len() implies token_value_of(r@[x].1, primary@)
            >= token_value_of(r@[y].1, primary@) by {
            assert(keys@[order@[x] as int] >= keys@[order@[y] as int]);
        }
    }
    r
}

/// Tokens by block type: only assistant blocks carry tokens, so there is one bucket,
/// `assistant`, when the session has an assistant block, and none otherwise.
pub fn tokens_by_type(session: &Session) -> (r: Vec<(String, TokenUsage)>)
    requires
        session.wf(),
        tokens_total(session.blocks@) <= u64::MAX,
    ensures
        (exists|i: int|
            0 <= i < session.blocks@.len() && spec_block_type(session.blocks@[i])
                == BlockType::Assistant) ==> r@.len() == 1 && r@[0].0@ == "assistant"@
            && usage_parts(r@[0].1) == usage_sum(
            session.blocks@,
            all_indices(session.blocks@.len() as int),
        ),
        !(exists|i: int|
            0 <= i < session.blocks@.len() && spec_block_type(session.blocks@[i])
                == BlockType::Assistant) ==> r@.len() == 0,
{
    let mut r: Vec<(String, TokenUsage)> = Vec::new();
    let mut i: usize = 0;
    while i < session.blocks.len()
        invariant
            0 <= i <= session.blocks@.len(),
            r@.len() == 0,
            tokens_total(session.blocks@) <= u64::MAX,
            forall|j: int| 0 <= j < i ==> spec_block_type(session.blocks@[j]) != BlockType::Assistant,
        decreases session.blocks@.len() - i,
    {
        if session.blocks[i].block_type() == BlockType::Assistant {
            let t = total_usage(session);
            r.push((BlockType::Assistant.to_string(), t));
            return r;
        }
        i = i + 1;
    }
    r
}

/// The parts recorded under `name` (zero when there is no bucket of that name).
pub open spec fn lookup(b: Buckets, name: Seq<char>) -> (int, int, int, int) {
    match find_bucket(b, name) {
        Some(k) => b[k].1,
        None => (0, 0, 0, 0),
    }
}

/// How many of `names` are `name`.
pub open spec fn occurrences(names: Seq<Seq<char>>, name: Seq<char>) -> int
    decreases names.len(),
{
    if names.len() == 0 {
        0
    } else {
        occurrences(names.drop_last(), name) + if names.last() == name {
            1int
        } else {
            0int
        }
    }
}

/// Each part times `n`.
pub open spec fn scaled(p: (int, int, int, int), n: int) -> (int, int, int, int) {
    (p.0 * n, p.1 * n, p.2 * n, p.3 * n)
}

/// What one block adds to the tokens of `name`: an assistant block without tool calls
/// adds all its tokens to `(no tool)`; one with calls adds an equal share for each of its
/// calls of that tool.
pub open spec fn block_tokens_for(b: Block, name: Seq<char>) -> (int, int, int, int) {
    match b {
        Block::Assistant(a) => if a.tool_calls@.len() == 0 {
            if name == "(no tool)"@ {
                usage_parts(a.tokens)
            } else {
                (0, 0, 0, 0)
            }
        } else {
            scaled(tool_share(a.tokens, a.tool_calls@.len() as int), occurrences(call_names(b), name))
        },
        _ => (0, 0, 0, 0),
    }
}

/// The tokens of `name` over the first `k` blocks.
pub open spec fn tokens_for(bs: Seq<Block>, k: int, name: Seq<char>) -> (int, int, int, int)
    decreases k,
{
    if k <= 0 {
        (0, 0, 0, 0)
    } else {
        add_parts(tokens_for(bs, k - 1, name), block_tokens_for(bs[k - 1], name))
    }
}

proof fn lemma_find_bucket_update(b: Buckets, k: int, e: (Seq<char>, (int, int, int, int)), name: Seq<char>)
    requires
        0 <= k < b.len(),
        e.0 == b[k].0,
    ensures
        find_bucket(b.update(k, e), name) == find_bucket(b, name),
    decreases b.len(),
{
    let u = b.update(k, e);
    if k < b.len() - 1 {
        assert(u.last() == b.last());
        if b.last().0 != name {
            assert(u.drop_last() =~= b.drop_last().update(k, e));
            lemma_find_bucket_update(b.drop_last(), k, e, name);
        }
    } else {
        assert(u.drop_last() =~= b.drop_last());
    }
}

proof fn lemma_lookup_add(b: Buckets, n: Seq<char>, v: (int, int, int, int), name: Seq<char>)
    ensures
        lookup(add_to_bucket(b, n, v), name) == if name == n {
            add_parts(lookup(b, n), v)
        } else {
            lookup(b, name)
        },
{
    lemma_find_bucket(b, n);
    match find_bucket(b, n) {
        Some(k) => {
            lemma_find_bucket_update(b, k, (n, add_parts(b[k].1, v)), name);
            lemma_find_bucket(b, name);
            if name == n {
            } else {
                if let Some(j) = find_bucket(b, name) {
                    assert(j != k);
                }
            }
        },
        None => {
            let r = b.push((n, v));
            assert(r.drop_last() =~= b);
            if name != n {
                assert(find_bucket(r, name) == find_bucket(b, name));
                lemma_find_bucket(b, name);
                if let Some(j) = find_bucket(b, name) {
                    assert(r[j] == b[j]);
                }
            }
        },
    }
}

proof fn lemma_lookup_shares(b: Buckets, names: Seq<Seq<char>>, share: (int, int, int, int), name: Seq<char>)
    ensures
        lookup(add_shares(b, names, share), name) == add_parts(
            lookup(b, name),
            scaled(share, occurrences(names, name)),
        ),
    decreases names.len(),
{
    if names.len() == 0 {
        assert(scaled(share, 0) == (0int, 0int, 0int, 0int));
    } else {
        lemma_lookup_shares(b, names.drop_last(), share, name);
        let prev = add_shares(b, names.drop_last(), share);
        lemma_lookup_add(prev, names.last(), share, name);
        let c = occurrences(names.drop_last(), name);
        assert(scaled(share, c + 1) == add_parts(scaled(share, c), share)) by (nonlinear_arith);
    }
}

/// Tokens by tool add up what each tool got: the bucket of every name holds exactly that
/// name's tokens: for `(no tool)` the tokens of the assistant blocks without tool calls,
/// for a tool an equal share of each assistant block's tokens per call of it; a name
/// without a bucket got nothing.
pub proof fn lemma_tool_buckets_hold(bs: Seq<Block>, k: int)
    ensures
        forall|name: Seq<char>| #[trigger] lookup(tool_buckets(bs, k), name) == tokens_for(bs, k, name),
    decreases k,
{
    if k > 0 {
        lemma_tool_buckets_hold(bs, k - 1);
        let prev = tool_buckets(bs, k - 1);
        assert forall|name: Seq<char>| #[trigger] lookup(tool_buckets(bs, k), name) == tokens_for(
            bs,
            k,
            name,
        ) by {
            assert(lookup(prev, name) == tokens_for(bs, k - 1, name));
            match bs[k - 1] {
                Block::Assistant(a) => {
                    if a.tool_calls@.len() == 0 {
                        lemma_lookup_add(prev, "(no tool)"@, usage_parts(a.tokens), name);
                    } else {
                        lemma_lookup_shares(
                            prev,
                            call_names(bs[k - 1]),
                            tool_share(a.tokens, a.tool_calls@.len() as int),
                            name,
                        );
                    }
                },
                _ => {},
            }
        }
    }
}

/// Tokens are never created by the split among tools: the tokens of all tool buckets
/// add up to at most the session's total.
pub proof fn lemma_tool_tokens_bounded(bs: Seq<Block>)
    requires
        bs.len() <= usize::MAX,
    ensures
        buckets_total(tool_buckets(bs, bs.len() as int)) <= tokens_total(bs),
{
    lemma_tool_buckets(bs, bs.len() as int);
    lemma_sum_at_all(bs);
}

} // verus!
