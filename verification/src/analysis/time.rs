use vstd::prelude::*;

use super::order::{is_desc_order, order_desc};
use crate::model::block::{spec_block_type, spec_timestamp, tokens_total, Block, BlockInfo};
use crate::model::session::{is_chronological, Session};
use crate::model::turn::Turn;
use crate::model::types::block_type_name;
use crate::text::{copy_str, str_eq};

verus! {

/// The bound on timestamps (in nanoseconds from the epoch) that the time computations
/// accept: far beyond any date a log can hold.
pub open spec fn ts_bound() -> int {
    0x1_0000_0000_0000_0000_0000
}

/// Every block's timestamp is within `ts_bound` of the epoch.
pub open spec fn timestamps_bounded(bs: Seq<Block>) -> bool {
    forall|i: int| 0 <= i < bs.len() ==> -ts_bound() <= #[trigger] spec_timestamp(bs[i]) <= ts_bound()
}

/// Whether every block's timestamp is within `ts_bound` of the epoch.
pub fn timestamps_ok(session: &Session) -> (r: bool)
    ensures
        r == timestamps_bounded(session.blocks@),
{
    let mut i: usize = 0;
    while i < session.blocks.len()
        invariant
            0 <= i <= session.blocks@.len(),
            forall|j: int|
                0 <= j < i ==> -ts_bound() <= #[trigger] spec_timestamp(session.blocks@[j])
                    <= ts_bound(),
        decreases session.blocks@.len() - i,
    {
        let t = session.blocks[i].timestamp();
        if t < -0x1_0000_0000_0000_0000_0000i128 || t > 0x1_0000_0000_0000_0000_0000i128 {
            return false;
        }
        i = i + 1;
    }
    true
}

/// The estimated duration of the block at position `i` of the chronological order `c`:
/// the time until the next block, in whole milliseconds (none for the last block).
pub open spec fn duration_at(bs: Seq<Block>, c: Seq<usize>, i: int) -> int {
    if i + 1 < c.len() {
        let d = spec_timestamp(bs[c[i + 1] as int]) - spec_timestamp(bs[c[i] as int]);
        if d > 0 {
            d / 1_000_000
        } else {
            0
        }
    } else {
        0
    }
}

/// A block's estimated duration is the time until the next block in time, in whole
/// milliseconds rounded down: within a millisecond below the gap when the next block is
/// later, zero when it is not later, and zero for the last block.
pub proof fn lemma_duration_at_meaning(bs: Seq<Block>, c: Seq<usize>, i: int)
    ensures
        duration_at(bs, c, i) >= 0,
        i + 1 >= c.len() ==> duration_at(bs, c, i) == 0,
        i + 1 < c.len() ==> {
            let gap = spec_timestamp(bs[c[i + 1] as int]) - spec_timestamp(bs[c[i] as int]);
            &&& gap <= 0 ==> duration_at(bs, c, i) == 0
            &&& gap > 0 ==> duration_at(bs, c, i) * 1_000_000 <= gap < duration_at(bs, c, i)
                * 1_000_000 + 1_000_000
        },
{
    if i + 1 < c.len() {
        let gap = spec_timestamp(bs[c[i + 1] as int]) - spec_timestamp(bs[c[i] as int]);
        if gap > 0 {
            assert((gap / 1_000_000) * 1_000_000 <= gap < (gap / 1_000_000) * 1_000_000 + 1_000_000)
                by (nonlinear_arith)
                requires
                    gap > 0,
            ;
        }
    }
}

/// The estimated duration of one block.
#[derive(Debug, Clone, Copy)]
pub struct BlockDuration {
    pub index: usize,
    pub duration_ms: u64,
}

/// A duration in milliseconds between two bounded timestamps fits in 62 bits.
pub open spec fn duration_bound() -> int {
    0x4000_0000_0000_0000
}

proof fn lemma_duration_at_bound(bs: Seq<Block>, c: Seq<usize>, i: int)
    requires
        timestamps_bounded(bs),
        forall|j: int| 0 <= j < c.len() ==> c[j] < bs.len(),
        0 <= i < c.len(),
    ensures
        0 <= duration_at(bs, c, i) < duration_bound(),
{
    if i + 1 < c.len() {
        let a = spec_timestamp(bs[c[i] as int]);
        let b = spec_timestamp(bs[c[i + 1] as int]);
        let d = b - a;
        if d > 0 {
            assert(d / 1_000_000 < duration_bound()) by (nonlinear_arith)
                requires
                    0 < d <= 2 * 0x1_0000_0000_0000_0000_0000,
            ;
        }
    }
}

/// The duration of each block, in chronological order: the time until the next block
/// in whole milliseconds, and zero for the last one.
pub fn estimate_durations(session: &Session) -> (r: Vec<BlockDuration>)
    requires
        session.wf(),
        timestamps_bounded(session.blocks@),
    ensures
        r@.len() == session.chronological@.len(),
        forall|i: int|
            0 <= i < r@.len() ==> (#[trigger] r@[i]).index == session.chronological@[i]
                && r@[i].duration_ms == duration_at(session.blocks@, session.chronological@, i),
{
    let ghost bs = session.blocks@;
    let ghost c = session.chronological@;
    let n = session.chronological.len();
    proof {
        session.lemma_wf_chronological();
    }
    let mut r: Vec<BlockDuration> = Vec::new();
    let mut i: usize = 0;
    while i < n
        invariant
            bs == session.blocks@,
            c == session.chronological@,
            n == c.len(),
            timestamps_bounded(bs),
            is_chronological(bs, c),
            0 <= i <= n,
            r@.len() == i,
            forall|k: int|
                0 <= k < i ==> (#[trigger] r@[k]).index == c[k] && r@[k].duration_ms
                    == duration_at(bs, c, k),
        decreases n - i,
    {
        let id = session.chronological[i];
        let ts = session.blocks[id].timestamp();
        proof {
            lemma_duration_at_bound(bs, c, i as int);
            assert(-ts_bound() <= spec_timestamp(bs[id as int]) <= ts_bound());
        }
        let dur: u64 = if i + 1 < n {
            let next = session.blocks[session.chronological[i + 1]].timestamp();
            proof {
                assert(-ts_bound() <= spec_timestamp(bs[c[i + 1] as int]) <= ts_bound());
            }
            let d = next - ts;
            if d > 0 {
                (d / 1_000_000) as u64
            } else {
                0
            }
        } else {
            0
        };
        r.push(BlockDuration { index: id, duration_ms: dur });
        i = i + 1;
    }
    r
}

// ─── Time aggregates ────────────────────────────────────────────────────────

/// Named sample counts and sums, as values: name, count, sum.
pub type AggBuckets = Seq<(Seq<char>, int, int)>;

/// The position of the entry with the given name.
pub open spec fn find_agg(b: AggBuckets, name: Seq<char>) -> Option<int>
    decreases b.len(),
{
    if b.len() == 0 {
        None
    } else if b.last().0 == name {
        Some(b.len() - 1)
    } else {
        find_agg(b.drop_last(), name)
    }
}

/// One more sample `v` under `name`.
pub open spec fn add_sample(b: AggBuckets, name: Seq<char>, v: int) -> AggBuckets {
    match find_agg(b, name) {
        Some(k) => b.update(k, (name, b[k].1 + 1, b[k].2 + v)),
        None => b.push((name, 1, v)),
    }
}

/// The group of a block for time aggregates: its tool name (tool blocks only) or its
/// type's name.
pub open spec fn time_group(b: Block, by_tool: bool) -> Option<Seq<char>> {
    if by_tool {
        match b {
            Block::Tool(t) => Some(t.tool_name@),
            _ => None,
        }
    } else {
        Some(block_type_name(spec_block_type(b)))
    }
}

/// Time by tool takes tool blocks only, each under its tool's name; time by type takes
/// every block, under the name of its type.
pub proof fn lemma_time_group_names(b: Block)
    ensures
        b matches Block::Tool(t) ==> time_group(b, true) == Some(t.tool_name@),
        !(b is Tool) ==> time_group(b, true) is None,
        time_group(b, false) == Some(block_type_name(spec_block_type(b))),
{
}

/// The estimated time of the blocks at the first `k` chronological positions, grouped
/// (see `time_group`), groups in order of first appearance.
pub open spec fn time_buckets(bs: Seq<Block>, c: Seq<usize>, k: int, by_tool: bool) -> AggBuckets
    decreases k,
{
    if k <= 0 {
        Seq::empty()
    } else {
        let prev = time_buckets(bs, c, k - 1, by_tool);
        match time_group(bs[c[k - 1] as int], by_tool) {
            Some(name) => add_sample(prev, name, duration_at(bs, c, k - 1)),
            None => prev,
        }
    }
}

/// Names are distinct; counts are at most `k` and sums at most `k` durations.
pub open spec fn aggs_ok(b: AggBuckets, k: int) -> bool {
    &&& forall|i: int|
        0 <= i < b.len() ==> 0 <= #[trigger] b[i].1 <= k && 0 <= b[i].2 <= k * duration_bound()
    &&& forall|i: int, j: int| 0 <= i < j < b.len() ==> b[i].0 != b[j].0
}

pub proof fn lemma_find_agg(b: AggBuckets, name: Seq<char>)
    ensures
        match find_agg(b, name) {
            Some(k) => 0 <= k < b.len() && b[k].0 == name,
            None => forall|k: int| 0 <= k < b.len() ==> b[k].0 != name,
        },
    decreases b.len(),
{
    if b.len() > 0 && b.last().0 != name {
        lemma_find_agg(b.drop_last(), name);
        let r = find_agg(b.drop_last(), name);
        if r is Some {
            assert(b.drop_last()[r.unwrap()] == b[r.unwrap()]);
        } else {
            assert forall|k: int| 0 <= k < b.len() implies b[k].0 != name by {
                if k < b.len() - 1 {
                    assert(b.drop_last()[k] == b[k]);
                }
            }
        }
    }
}

pub proof fn lemma_time_buckets_ok(bs: Seq<Block>, c: Seq<usize>, k: int, by_tool: bool)
    requires
        timestamps_bounded(bs),
        forall|j: int| 0 <= j < c.len() ==> c[j] < bs.len(),
        0 <= k <= c.len(),
    ensures
        aggs_ok(time_buckets(bs, c, k, by_tool), k),
    decreases k,
{
    if k > 0 {
        lemma_time_buckets_ok(bs, c, k - 1, by_tool);
        let prev = time_buckets(bs, c, k - 1, by_tool);
        lemma_duration_at_bound(bs, c, k - 1);
        match time_group(bs[c[k - 1] as int], by_tool) {
            Some(name) => {
                lemma_find_agg(prev, name);
                let v = duration_at(bs, c, k - 1);
                let r = add_sample(prev, name, v);
                assert forall|i: int, j: int| 0 <= i < j < r.len() implies r[i].0 != r[j].0 by {
                    if j < prev.len() {
                        assert(r[i].0 == prev[i].0 && r[j].0 == prev[j].0);
                    } else {
                        assert(r[i].0 == prev[i].0);
                    }
                }
                assert forall|i: int| 0 <= i < r.len() implies 0 <= #[trigger] r[i].1 <= k && 0
                    <= r[i].2 <= k * duration_bound() by {
                    assert(k * duration_bound() == (k - 1) * duration_bound() + duration_bound())
                        by (nonlinear_arith);
                    assert((k - 1) * duration_bound() >= 0) by (nonlinear_arith)
                        requires
                            k >= 1,
                    ;
                    if i < prev.len() {
                        assert(0 <= prev[i].1 <= k - 1 && 0 <= prev[i].2 <= (k - 1) * duration_bound());
                    }
                }
            },
            None => {
                assert forall|i: int| 0 <= i < prev.len() implies 0 <= #[trigger] prev[i].1 <= k
                    && 0 <= prev[i].2 <= k * duration_bound() by {
                    assert(k * duration_bound() >= (k - 1) * duration_bound()) by (nonlinear_arith);
                    assert(0 <= prev[i].1 <= k - 1 && 0 <= prev[i].2 <= (k - 1) * duration_bound());
                }
            },
        }
    }
}

/// The number of blocks among the first `k` chronological positions that fall in group
/// `name`.
pub open spec fn group_count(bs: Seq<Block>, c: Seq<usize>, k: int, by_tool: bool, name: Seq<char>) -> int
    decreases k,
{
    if k <= 0 {
        0
    } else {
        group_count(bs, c, k - 1, by_tool, name) + if time_group(bs[c[k - 1] as int], by_tool)
            == Some(name) {
            1int
        } else {
            0int
        }
    }
}

/// The summed estimated durations of those blocks.
pub open spec fn group_time(bs: Seq<Block>, c: Seq<usize>, k: int, by_tool: bool, name: Seq<char>) -> int
    decreases k,
{
    if k <= 0 {
        0
    } else {
        group_time(bs, c, k - 1, by_tool, name) + if time_group(bs[c[k - 1] as int], by_tool)
            == Some(name) {
            duration_at(bs, c, k - 1)
        } else {
            0int
        }
    }
}

proof fn lemma_time_names_distinct(bs: Seq<Block>, c: Seq<usize>, k: int, by_tool: bool)
    ensures
        forall|i: int, j: int|
            0 <= i < j < time_buckets(bs, c, k, by_tool).len() ==> time_buckets(bs, c, k, by_tool)[i].0
                != time_buckets(bs, c, k, by_tool)[j].0,
    decreases k,
{
    if k > 0 {
        lemma_time_names_distinct(bs, c, k - 1, by_tool);
        let prev = time_buckets(bs, c, k - 1, by_tool);
        match time_group(bs[c[k - 1] as int], by_tool) {
            Some(name) => {
                lemma_find_agg(prev, name);
                let r = add_sample(prev, name, duration_at(bs, c, k - 1));
                assert forall|i: int, j: int| 0 <= i < j < r.len() implies r[i].0 != r[j].0 by {
                    if j < prev.len() {
                        assert(r[i].0 == prev[i].0 && r[j].0 == prev[j].0);
                    } else {
                        assert(r[i].0 == prev[i].0);
                    }
                }
            },
            None => {},
        }
    }
}

/// The time aggregates count what happened: each group's count is the number of its
/// blocks and its total the sum of their estimated durations, and a group that is not
/// listed has no block.
pub proof fn lemma_time_buckets_count(bs: Seq<Block>, c: Seq<usize>, k: int, by_tool: bool)
    ensures
        forall|i: int|
            0 <= i < time_buckets(bs, c, k, by_tool).len() ==> (#[trigger] time_buckets(bs, c, k, by_tool)[i]).1
                == group_count(bs, c, k, by_tool, time_buckets(bs, c, k, by_tool)[i].0)
                && time_buckets(bs, c, k, by_tool)[i].2 == group_time(
                bs,
                c,
                k,
                by_tool,
                time_buckets(bs, c, k, by_tool)[i].0,
            ),
        forall|name: Seq<char>|
            #![trigger group_count(bs, c, k, by_tool, name)]
            find_agg(time_buckets(bs, c, k, by_tool), name) is None ==> group_count(bs, c, k, by_tool, name)
                == 0 && group_time(bs, c, k, by_tool, name) == 0,
    decreases k,
{
    if k > 0 {
        lemma_time_buckets_count(bs, c, k - 1, by_tool);
        lemma_time_names_distinct(bs, c, k - 1, by_tool);
        let prev = time_buckets(bs, c, k - 1, by_tool);
        let b = time_buckets(bs, c, k, by_tool);
        let g = time_group(bs[c[k - 1] as int], by_tool);
        match g {
            Some(nm) => {
                lemma_find_agg(prev, nm);
                assert forall|i: int| 0 <= i < b.len() implies (#[trigger] b[i]).1 == group_count(
                    bs,
                    c,
                    k,
                    by_tool,
                    b[i].0,
                ) && b[i].2 == group_time(bs, c, k, by_tool, b[i].0) by {
                    if i < prev.len() {
                        if prev[i].0 != nm {
                            assert(b[i] == prev[i]);
                        }
                    } else {
                        assert(find_agg(prev, nm) is None);
                        assert(group_count(bs, c, k - 1, by_tool, nm) == 0);
                    }
                }
                assert forall|name: Seq<char>|
                    #![trigger group_count(bs, c, k, by_tool, name)]
                    find_agg(b, name) is None implies group_count(bs, c, k, by_tool, name) == 0
                        && group_time(bs, c, k, by_tool, name) == 0 by {
                    lemma_find_agg(b, name);
                    if name == nm {
                        match find_agg(prev, nm) {
                            Some(j) => {
                                assert(b[j].0 == nm);
                            },
                            None => {
                                assert(b[prev.len() as int].0 == nm);
                            },
                        }
                    } else {
                        lemma_find_agg(prev, name);
                        if find_agg(prev, name) is Some {
                            let j = find_agg(prev, name).unwrap();
                            assert(b[j].0 == name);
                        } else {
                            assert(group_count(bs, c, k - 1, by_tool, name) == 0);
                        }
                    }
                }
            },
            None => {
                assert(b == prev);
                assert forall|name: Seq<char>|
                    #![trigger group_count(bs, c, k, by_tool, name)]
                    find_agg(b, name) is None implies group_count(bs, c, k, by_tool, name) == 0
                        && group_time(bs, c, k, by_tool, name) == 0 by {
                    assert(group_count(bs, c, k - 1, by_tool, name) == 0);
                }
                assert forall|i: int| 0 <= i < b.len() implies (#[trigger] b[i]).1 == group_count(
                    bs,
                    c,
                    k,
                    by_tool,
                    b[i].0,
                ) && b[i].2 == group_time(bs, c, k, by_tool, b[i].0) by {
                    assert(b[i] == prev[i]);
                }
            },
        }
    }
}

/// The estimated time of a group of blocks: how many, and their total in milliseconds.
#[derive(Debug)]
pub struct TimeAgg {
    pub name: String,
    pub count: usize,
    pub total_ms: u128,
}

/// Time aggregates, as values.
pub open spec fn agg_views(v: Seq<TimeAgg>) -> AggBuckets {
    v.map_values(|a: TimeAgg| (a.name@, a.count as int, a.total_ms as int))
}

/// The group name of a block (see `time_group`).
fn group_of(b: &Block, by_tool: bool) -> (r: Option<String>)
    ensures
        match r {
            Some(s) => time_group(*b, by_tool) == Some(s@),
            None => time_group(*b, by_tool) is None,
        },
{
    if by_tool {
        match b {
            Block::Tool(t) => Some(copy_str(t.tool_name.as_str())),
            _ => None,
        }
    } else {
        Some(b.block_type().to_string())
    }
}

/// The time aggregates in order of first appearance (see `time_buckets`).
fn collect_time(session: &Session, by_tool: bool) -> (r: Vec<TimeAgg>)
    requires
        session.wf(),
        timestamps_bounded(session.blocks@),
    ensures
        agg_views(r@) == time_buckets(
            session.blocks@,
            session.chronological@,
            session.chronological@.len() as int,
            by_tool,
        ),
        aggs_ok(agg_views(r@), session.chronological@.len() as int),
{
    let ghost bs = session.blocks@;
    let ghost c = session.chronological@;
    let durations = estimate_durations(session);
    let n = durations.len();
    proof {
        session.lemma_wf_chronological();
    }
    let mut r: Vec<TimeAgg> = Vec::new();
    let mut i: usize = 0;
    proof {
        assert(agg_views(r@) =~= time_buckets(bs, c, 0, by_tool));
    }
    while i < n
        invariant
            bs == session.blocks@,
            c == session.chronological@,
            n == c.len(),
            durations@.len() == n,
            forall|k: int|
                0 <= k < n ==> (#[trigger] durations@[k]).index == c[k]
                    && durations@[k].duration_ms == duration_at(bs, c, k),
            timestamps_bounded(bs),
            is_chronological(bs, c),
            0 <= i <= n,
            agg_views(r@) == time_buckets(bs, c, i as int, by_tool),
        decreases n - i,
    {
        proof {
            lemma_time_buckets_ok(bs, c, i as int, by_tool);
            lemma_duration_at_bound(bs, c, i as int);
        }
        let bd = durations[i];
        let id = bd.index;
        match group_of(&session.blocks[id], by_tool) {
            Some(name) => {
                let ghost prev = agg_views(r@);
                proof {
                    lemma_find_agg(prev, name@);
                }
                let mut k: usize = r.len();
                let mut found: Option<usize> = None;
                proof {
                    assert(prev.take(k as int) =~= prev);
                }
                while k > 0 && found.is_none()
                    invariant
                        0 <= k <= r@.len(),
                        prev == agg_views(r@),
                        found is None ==> find_agg(prev, name@) == find_agg(
                            prev.take(k as int),
                            name@,
                        ),
                        found matches Some(j) ==> j < r@.len() && find_agg(prev, name@) == Some(
                            j as int,
                        ),
                    decreases k, if found is None {
                        1int
                    } else {
                        0int
                    },
                {
                    proof {
                        assert(prev.take(k as int).drop_last() =~= prev.take(k - 1));
                        assert(prev.take(k as int).last() == prev[k - 1]);
                    }
                    if str_eq(r[k - 1].name.as_str(), name.as_str()) {
                        found = Some(k - 1);
                    } else {
                        k = k - 1;
                    }
                }
                if found.is_some() {
                    let j = found.unwrap();
                    proof {
                        assert(0 <= prev[j as int].1 <= i && 0 <= prev[j as int].2 <= i
                            * duration_bound());
                        assert(i * duration_bound() <= 0x1_0000_0000_0000_0000 * duration_bound())
                            by (nonlinear_arith)
                            requires
                                i <= 0x1_0000_0000_0000_0000,
                        ;
                    }
                    r[j].count = r[j].count + 1;
                    r[j].total_ms = r[j].total_ms + bd.duration_ms as u128;
                    proof {
                        assert(agg_views(r@) =~= add_sample(prev, name@, duration_at(bs, c, i as int)));
                    }
                } else {
                    proof {
                        assert(prev.take(0) =~= Seq::<(Seq<char>, int, int)>::empty());
                    }
                    r.push(TimeAgg { name, count: 1, total_ms: bd.duration_ms as u128 });
                    proof {
                        assert(agg_views(r@) =~= add_sample(prev, name@, duration_at(bs, c, i as int)));
                    }
                }
            },
            None => {},
        }
        i = i + 1;
    }
    proof {
        lemma_time_buckets_ok(bs, c, n as int, by_tool);
    }
    r
}

/// The totals of the aggregates.
pub open spec fn agg_totals(b: AggBuckets) -> Seq<u128> {
    b.map_values(|e: (Seq<char>, int, int)| e.2 as u128)
}

/// The aggregates taken in the order `p`.
pub open spec fn reorder_aggs(b: AggBuckets, p: Seq<usize>) -> AggBuckets {
    p.map_values(|i: usize| b[i as int])
}

/// Estimated time grouped by tool (tool blocks only) or by block type: count and total
/// per group, largest total first, ties in order of first appearance.
pub fn time_by_group(session: &Session, by_tool: bool) -> (r: Vec<TimeAgg>)
    requires
        session.wf(),
        timestamps_bounded(session.blocks@),
    ensures
        ({
            let b = time_buckets(
                session.blocks@,
                session.chronological@,
                session.chronological@.len() as int,
                by_tool,
            );
            exists|p: Seq<usize>|
                is_desc_order(agg_totals(b), p) && agg_views(r@) == reorder_aggs(b, p)
        }),
        forall|i: int, j: int|
            #![trigger r@[i], r@[j]]
            0 <= i < j < r@.len() ==> r@[i].total_ms >= r@[j].total_ms,
{
    let v = collect_time(session, by_tool);
    let ghost b = agg_views(v@);
    let mut keys: Vec<u128> = Vec::new();
    let mut i: usize = 0;
    while i < v.len()
        invariant
            b == agg_views(v@),
            0 <= i <= v@.len(),
            keys@ == agg_totals(b).take(i as int),
        decreases v@.len() - i,
    {
        keys.push(v[i].total_ms);
        proof {
            assert(keys@ =~= agg_totals(b).take(i + 1));
        }
        i = i + 1;
    }
    proof {
        assert(keys@ =~= agg_totals(b));
    }
    let order = order_desc(&keys);
    let mut r: Vec<TimeAgg> = Vec::new();
    let mut j: usize = 0;
    while j < order.len()
        invariant
            b == agg_views(v@),
            is_desc_order(keys@, order@),
            keys@.len() == v@.len(),
            0 <= j <= order@.len(),
            agg_views(r@) == reorder_aggs(b, order@.take(j as int)),
            keys@ == agg_totals(b),
            r@.len() == j,
            forall|x: int| 0 <= x < j ==> (#[trigger] r@[x]).total_ms == keys@[order@[x] as int],
        decreases order@.len() - j,
    {
        let k = order[j];
        let ghost before = r@;
        r.push(TimeAgg { name: copy_str(v[k].name.as_str()), count: v[k].count, total_ms: v[k].total_ms });
        proof {
            assert(b[k as int] == (v@[k as int].name@, v@[k as int].count as int, v@[k as int].total_ms as int));
            assert(keys@[k as int] == v@[k as int].total_ms);
            assert forall|x: int| 0 <= x < j + 1 implies (#[trigger] r@[x]).total_ms == keys@[order@[x] as int] by {
                if x < j {
                    assert(r@[x] == before[x]);
                }
            }
            assert(order@.take(j + 1) =~= order@.take(j as int).push(k));
            assert(agg_views(r@) =~= agg_views(before).push(b[k as int]));
            assert(reorder_aggs(b, order@.take(j + 1)) =~= reorder_aggs(b, order@.take(j as int)).push(
                b[k as int],
            ));
        }
        j = j + 1;
    }
    proof {
        assert(order@.take(j as int) =~= order@);
        assert forall|x: int, y: int|
            #![trigger r@[x], r@[y]]
            0 <= x < y < r@.len() implies r@[x].total_ms >= r@[y].total_ms by {
            assert(keys@[order@[x] as int] >= keys@[order@[y] as int]);
        }
    }
    r
}

// ─── Turns by time ──────────────────────────────────────────────────────────

/// The duration of each block by block index (zero for an index the chronological
/// order does not list).
pub fn durations_by_block(session: &Session) -> (v: Vec<u64>)
    requires
        session.wf(),
        timestamps_bounded(session.blocks@),
    ensures
        v@.len() == session.blocks@.len(),
        forall|i: int|
            0 <= i < session.chronological@.len() ==> v@[#[trigger] session.chronological@[i] as int]
                == duration_at(session.blocks@, session.chronological@, i),
        forall|j: int| 0 <= j < v@.len() ==> v@[j] < duration_bound(),
{
    let ghost bs = session.blocks@;
    let ghost c = session.chronological@;
    let durations = estimate_durations(session);
    proof {
        session.lemma_wf_chronological();
        crate::model::session::lemma_chronological_distinct(bs, c);
    }
    let mut v: Vec<u64> = Vec::new();
    let mut k: usize = 0;
    while k < session.blocks.len()
        invariant
            0 <= k <= bs.len(),
            bs == session.blocks@,
            v@.len() == k,
            forall|j: int| 0 <= j < k ==> v@[j] == 0,
        decreases bs.len() - k,
    {
        v.push(0);
        k = k + 1;
    }
    let mut i: usize = 0;
    while i < durations.len()
        invariant
            bs == session.blocks@,
            c == session.chronological@,
            is_chronological(bs, c),
            crate::model::session::distinct_indices(c, bs.len() as int),
            timestamps_bounded(bs),
            durations@.len() == c.len(),
            forall|k: int|
                0 <= k < c.len() ==> (#[trigger] durations@[k]).index == c[k]
                    && durations@[k].duration_ms == duration_at(bs, c, k),
            v@.len() == bs.len(),
            0 <= i <= c.len(),
            forall|k: int| 0 <= k < i ==> v@[#[trigger] c[k] as int] == duration_at(bs, c, k),
            forall|j: int| 0 <= j < v@.len() ==> v@[j] < duration_bound(),
        decreases c.len() - i,
    {
        let bd = durations[i];
        proof {
            lemma_duration_at_bound(bs, c, i as int);
        }
        v.set(bd.index, bd.duration_ms);
        proof {
            assert forall|k: int| 0 <= k < i + 1 implies v@[#[trigger] c[k] as int] == duration_at(
                bs,
                c,
                k,
            ) by {
                if k < i {
                    assert(c[k] != c[i as int]);
                }
            }
        }
        i = i + 1;
    }
    v
}

/// The sum of the durations of the blocks `ids` (zero for an index without one).
pub open spec fn durations_sum(durs: Seq<u64>, ids: Seq<usize>) -> int
    decreases ids.len(),
{
    if ids.len() == 0 {
        0
    } else {
        durations_sum(durs, ids.drop_last()) + if (ids.last() as int) < durs.len() {
            durs[ids.last() as int] as int
        } else {
            0
        }
    }
}

/// The sum of the durations of the blocks `ids`.
pub fn sum_durations(durs: &Vec<u64>, ids: &Vec<usize>) -> (s: u128)
    requires
        forall|j: int| 0 <= j < durs@.len() ==> durs@[j] < duration_bound(),
    ensures
        s == durations_sum(durs@, ids@),
{
    let mut s: u128 = 0;
    let mut i: usize = 0;
    while i < ids.len()
        invariant
            forall|j: int| 0 <= j < durs@.len() ==> durs@[j] < duration_bound(),
            0 <= i <= ids@.len(),
            s == durations_sum(durs@, ids@.take(i as int)),
            s <= i * duration_bound(),
        decreases ids@.len() - i,
    {
        proof {
            assert(ids@.take(i + 1).drop_last() =~= ids@.take(i as int));
            assert(ids@.take(i + 1).last() == ids@[i as int]);
            assert((i + 1) * duration_bound() == i * duration_bound() + duration_bound())
                by (nonlinear_arith);
            assert((i + 1) * duration_bound() <= 0x1_0000_0000_0000_0000 * duration_bound())
                by (nonlinear_arith)
                requires
                    i < 0x1_0000_0000_0000_0000,
            ;
        }
        let id = ids[i];
        if id < durs.len() {
            s = s + durs[id] as u128;
        }
        i = i + 1;
    }
    proof {
        assert(ids@.take(i as int) =~= ids@);
    }
    s
}

/// The value turns are sorted by: `time` is the recorded turn duration, or else the
/// sum of the turn's block durations; `tool-calls` the number of tool blocks; anything
/// else the total tokens.
pub open spec fn turn_key(t: Turn, durs: Seq<u64>, sort_by: Seq<char>) -> int {
    if sort_by == "time"@ {
        match t.duration_ms {
            Some(d) => d as int,
            None => durations_sum(durs, t.all_blocks@),
        }
    } else if sort_by == "tool-calls"@ {
        t.tool_blocks@.len() as int
    } else {
        t.total_tokens.spec_total()
    }
}

/// The sort values: `tool-calls` sorts turns by their number of tool calls, `tokens` by
/// their total tokens, and `time` by their recorded duration, or the summed durations of
/// their blocks when none was recorded.
pub proof fn lemma_turn_key_meaning(durs: Seq<u64>)
    ensures
        "tool-calls"@ != "time"@,
        "tokens"@ != "time"@,
        forall|t: Turn| #[trigger] turn_key(t, durs, "tool-calls"@) == t.tool_blocks@.len(),
        forall|t: Turn| #[trigger] turn_key(t, durs, "tokens"@) == t.total_tokens.spec_total(),
        forall|t: Turn|
            #[trigger] turn_key(t, durs, "time"@) == match t.duration_ms {
                Some(d) => d as int,
                None => durations_sum(durs, t.all_blocks@),
            },
{
    reveal_strlit("tool-calls");
    reveal_strlit("tokens");
    reveal_strlit("time");
    assert("tool-calls"@[1] != "time"@[1]);
    assert("tokens"@[1] != "time"@[1]);
    assert("tokens"@[2] != "tool-calls"@[2]);
}

/// A sort value other than time is never negative and fits the `u128` it is computed in.
proof fn lemma_turn_key_fits(t: Turn, durs: Seq<u64>, sort_by: Seq<char>)
    requires
        t.total_tokens.spec_total() <= u64::MAX,
    ensures
        sort_by != "time"@ ==> 0 <= turn_key(t, durs, sort_by) <= u128::MAX,
{
    assert(t.tool_blocks.len() == t.tool_blocks@.len());
}

/// The value a turn is sorted by (see `turn_key`).
pub fn turn_sort_value(turn: &Turn, durs: &Vec<u64>, sort_by: &str) -> (v: u128)
    requires
        forall|j: int| 0 <= j < durs@.len() ==> durs@[j] < duration_bound(),
        turn.total_tokens.spec_total() <= u64::MAX,
    ensures
        v == turn_key(*turn, durs@, sort_by@),
{
    if str_eq(sort_by, "time") {
        match turn.duration_ms {
            Some(d) => d as u128,
            None => sum_durations(durs, &turn.all_blocks),
        }
    } else if str_eq(sort_by, "tool-calls") {
        turn.tool_blocks.len() as u128
    } else {
        turn.total_tokens.total() as u128
    }
}

/// Two turns are the same turn.
pub open spec fn same_turn(a: Turn, b: Turn) -> bool {
    &&& a.index == b.index
    &&& a.user_block == b.user_block
    &&& a.all_blocks@ == b.all_blocks@
    &&& a.tool_blocks@ == b.tool_blocks@
    &&& a.assistant_blocks@ == b.assistant_blocks@
    &&& a.system_blocks@ == b.system_blocks@
    &&& a.total_tokens == b.total_tokens
    &&& a.duration_ms == b.duration_ms
}

fn copy_ids(v: &Vec<usize>) -> (r: Vec<usize>)
    ensures
        r@ == v@,
{
    let mut r: Vec<usize> = Vec::new();
    let mut i: usize = 0;
    while i < v.len()
        invariant
            0 <= i <= v@.len(),
            r@ == v@.take(i as int),
        decreases v@.len() - i,
    {
        r.push(v[i]);
        proof {
            assert(r@ =~= v@.take(i + 1));
        }
        i = i + 1;
    }
    proof {
        assert(v@.take(i as int) =~= v@);
    }
    r
}

/// A copy of a turn.
pub fn copy_turn(t: &Turn) -> (r: Turn)
    ensures
        same_turn(r, *t),
{
    Turn {
        index: t.index,
        user_block: t.user_block,
        all_blocks: copy_ids(&t.all_blocks),
        tool_blocks: copy_ids(&t.tool_blocks),
        assistant_blocks: copy_ids(&t.assistant_blocks),
        system_blocks: copy_ids(&t.system_blocks),
        total_tokens: t.total_tokens,
        duration_ms: t.duration_ms,
    }
}

/// The sort keys of the turns.
pub open spec fn turn_keys(ts: Seq<Turn>, durs: Seq<u64>, sort_by: Seq<char>) -> Seq<u128> {
    ts.map_values(|t: Turn| turn_key(t, durs, sort_by) as u128)
}

/// Sorts the turns by the given value (see `turn_key`), largest first; turns with equal
/// values keep their order.
pub fn sort_turns(turns: &mut Vec<Turn>, session: &Session, sort_by: &str)
    requires
        session.wf(),
        sort_by@ == "time"@ ==> timestamps_bounded(session.blocks@),
        forall|k: int| 0 <= k < old(turns)@.len() ==> (#[trigger] old(turns)@[k]).total_tokens.spec_total() <= u64::MAX,
    ensures
        exists|durs: Seq<u64>, p: Seq<usize>|
            (sort_by@ == "time"@ ==> durs.len() == session.blocks@.len() && forall|i: int|
                0 <= i < session.chronological@.len() ==> durs[#[trigger] session.chronological@[i] as int]
                    == duration_at(session.blocks@, session.chronological@, i))
            && is_desc_order(turn_keys(old(turns)@, durs, sort_by@), p) && final(turns)@.len() == p.len()
            && forall|i: int| 0 <= i < p.len() ==> same_turn(#[trigger] final(turns)@[i], old(turns)@[p[i] as int]),
        final(turns)@.len() == old(turns)@.len(),
        sort_by@ == "tool-calls"@ ==> forall|i: int, j: int|
            0 <= i < j < final(turns)@.len() ==> final(turns)@[i].tool_blocks@.len()
                >= final(turns)@[j].tool_blocks@.len(),
        sort_by@ == "tokens"@ ==> forall|i: int, j: int|
            0 <= i < j < final(turns)@.len() ==> final(turns)@[i].total_tokens.spec_total()
                >= final(turns)@[j].total_tokens.spec_total(),
{
    let durs: Vec<u64> = if str_eq(sort_by, "time") {
        durations_by_block(session)
    } else {
        Vec::new()
    };
    let ghost ts = turns@;
    let mut keys: Vec<u128> = Vec::new();
    let mut i: usize = 0;
    while i < turns.len()
        invariant
            ts == turns@,
            forall|j: int| 0 <= j < durs@.len() ==> durs@[j] < duration_bound(),
            forall|k: int| 0 <= k < ts.len() ==> (#[trigger] ts[k]).total_tokens.spec_total() <= u64::MAX,
            0 <= i <= ts.len(),
            keys@ == turn_keys(ts, durs@, sort_by@).take(i as int),
        decreases ts.len() - i,
    {
        let v = turn_sort_value(&turns[i], &durs, sort_by);
        keys.push(v);
        proof {
            assert(keys@ =~= turn_keys(ts, durs@, sort_by@).take(i + 1));
        }
        i = i + 1;
    }
    proof {
        assert(keys@ =~= turn_keys(ts, durs@, sort_by@));
    }
    let order = order_desc(&keys);
    let mut sorted: Vec<Turn> = Vec::new();
    let mut j: usize = 0;
    while j < order.len()
        invariant
            ts == turns@,
            is_desc_order(keys@, order@),
            keys@.len() == ts.len(),
            0 <= j <= order@.len(),
            sorted@.len() == j,
            forall|k: int| 0 <= k < j ==> same_turn(#[trigger] sorted@[k], ts[order@[k] as int]),
        decreases order@.len() - j,
    {
        let k = order[j];
        sorted.push(copy_turn(&turns[k]));
        j = j + 1;
    }
    proof {
        lemma_turn_key_meaning(durs@);
        assert forall|x: int, y: int| 0 <= x < y < sorted@.len() implies (sort_by@ == "tool-calls"@
            ==> sorted@[x].tool_blocks@.len() >= sorted@[y].tool_blocks@.len()) && (sort_by@
            == "tokens"@ ==> sorted@[x].total_tokens.spec_total()
            >= sorted@[y].total_tokens.spec_total()) by {
            let a = ts[order@[x] as int];
            let b = ts[order@[y] as int];
            assert(same_turn(sorted@[x], a));
            assert(same_turn(sorted@[y], b));
            assert(keys@[order@[x] as int] >= keys@[order@[y] as int]);
            assert(keys@[order@[x] as int] == turn_key(a, durs@, sort_by@) as u128);
            assert(keys@[order@[y] as int] == turn_key(b, durs@, sort_by@) as u128);
            lemma_turn_key_fits(a, durs@, sort_by@);
            lemma_turn_key_fits(b, durs@, sort_by@);
            if sort_by@ == "tool-calls"@ {
                assert(turn_key(a, durs@, "tool-calls"@) == a.tool_blocks@.len());
                assert(turn_key(b, durs@, "tool-calls"@) == b.tool_blocks@.len());
            }
            if sort_by@ == "tokens"@ {
                assert(turn_key(a, durs@, "tokens"@) == a.total_tokens.spec_total());
                assert(turn_key(b, durs@, "tokens"@) == b.total_tokens.spec_total());
            }
        }
    }
    *turns = sorted;
}

} // verus!
