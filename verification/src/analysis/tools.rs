use vstd::prelude::*;

use super::order::{is_desc_order, order_desc};
use crate::model::block::Block;
use crate::model::session::Session;
use crate::text::{
    copy_str, lemma_lex_lt_asymmetric, lemma_lex_lt_irreflexive, lemma_lex_lt_total,
    lemma_lex_lt_transitive, lex_lt, str_eq, str_lt,
};

verus! {

/// The calls of one tool: how many, and how many failed.
#[derive(Debug)]
pub struct ToolStat {
    pub name: String,
    pub count: usize,
    pub errors: usize,
}

/// Per-tool counts, as values: name, calls, errors.
pub type StatBuckets = Seq<(Seq<char>, int, int)>;

/// The position of the entry with the given name.
pub open spec fn find_stat(b: StatBuckets, name: Seq<char>) -> Option<int>
    decreases b.len(),
{
    if b.len() == 0 {
        None
    } else if b.last().0 == name {
        Some(b.len() - 1)
    } else {
        find_stat(b.drop_last(), name)
    }
}

/// One more call of `name`, failed or not.
pub open spec fn count_call(b: StatBuckets, name: Seq<char>, failed: bool) -> StatBuckets {
    let e: int = if failed {
        1
    } else {
        0
    };
    match find_stat(b, name) {
        Some(k) => b.update(k, (name, b[k].1 + 1, b[k].2 + e)),
        None => b.push((name, 1, e)),
    }
}

/// The calls of each tool among the first `k` blocks, in order of first appearance.
pub open spec fn tool_stats_of(bs: Seq<Block>, k: int) -> StatBuckets
    decreases k,
{
    if k <= 0 {
        Seq::empty()
    } else {
        let prev = tool_stats_of(bs, k - 1);
        match bs[k - 1] {
            Block::Tool(t) => count_call(prev, t.tool_name@, t.is_error),
            _ => prev,
        }
    }
}

/// Names are distinct and counts are bounded by the blocks seen.
pub open spec fn stats_ok(b: StatBuckets, k: int) -> bool {
    &&& forall|i: int| 0 <= i < b.len() ==> 0 <= #[trigger] b[i].2 <= b[i].1 <= k
    &&& forall|i: int, j: int| 0 <= i < j < b.len() ==> b[i].0 != b[j].0
}

pub proof fn lemma_find_stat(b: StatBuckets, name: Seq<char>)
    ensures
        match find_stat(b, name) {
            Some(k) => 0 <= k < b.len() && b[k].0 == name,
            None => forall|k: int| 0 <= k < b.len() ==> b[k].0 != name,
        },
    decreases b.len(),
{
    if b.len() > 0 && b.last().0 != name {
        lemma_find_stat(b.drop_last(), name);
        let r = find_stat(b.drop_last(), name);
        if r is Some {
            assert(b.drop_last()[r.unwrap()] == b[r.unwrap()]);
        } else {
            assert forall|k: int| 0 <= k < b.len() implies b[k].0 != name by {
                if k < b.len() - 1 {
                    assert(b.drop_last()[k] == b[k]);
                }
            }
        }
    }
}

pub proof fn lemma_tool_stats_ok(bs: Seq<Block>, k: int)
    requires
        0 <= k <= bs.len(),
    ensures
        stats_ok(tool_stats_of(bs, k), k),
    decreases k,
{
    if k > 0 {
        lemma_tool_stats_ok(bs, k - 1);
        let prev = tool_stats_of(bs, k - 1);
        match bs[k - 1] {
            Block::Tool(t) => {
                lemma_find_stat(prev, t.tool_name@);
                let r = count_call(prev, t.tool_name@, t.is_error);
                assert forall|i: int, j: int| 0 <= i < j < r.len() implies r[i].0 != r[j].0 by {
                    if j < prev.len() {
                        assert(r[i].0 == prev[i].0 && r[j].0 == prev[j].0);
                    } else {
                        assert(r[i].0 == prev[i].0);
                    }
                }
                assert forall|i: int| 0 <= i < r.len() implies 0 <= #[trigger] r[i].2 <= r[i].1 <= k by {
                    if i < prev.len() {
                        assert(0 <= prev[i].2 <= prev[i].1 <= k - 1);
                    }
                }
            },
            _ => {},
        }
    }
}

/// The number of calls of tool `name` among the first `k` blocks.
pub open spec fn named_calls(bs: Seq<Block>, k: int, name: Seq<char>) -> int
    decreases k,
{
    if k <= 0 {
        0
    } else {
        named_calls(bs, k - 1, name) + if bs[k - 1] matches Block::Tool(t) && t.tool_name@ == name {
            1int
        } else {
            0int
        }
    }
}

/// The number of failed calls of tool `name` among the first `k` blocks.
pub open spec fn named_failures(bs: Seq<Block>, k: int, name: Seq<char>) -> int
    decreases k,
{
    if k <= 0 {
        0
    } else {
        named_failures(bs, k - 1, name) + if bs[k - 1] matches Block::Tool(t) && t.tool_name@
            == name && t.is_error {
            1int
        } else {
            0int
        }
    }
}

/// The statistics count what happened: each listed tool's count is the number of its
/// calls and its error count the number of those that failed, and a tool that is not
/// listed was never called.
pub proof fn lemma_tool_stats_count(bs: Seq<Block>, k: int)
    requires
        0 <= k <= bs.len(),
    ensures
        forall|i: int|
            0 <= i < tool_stats_of(bs, k).len() ==> (#[trigger] tool_stats_of(bs, k)[i]).1
                == named_calls(bs, k, tool_stats_of(bs, k)[i].0) && tool_stats_of(bs, k)[i].2
                == named_failures(bs, k, tool_stats_of(bs, k)[i].0),
        forall|name: Seq<char>|
            #![trigger named_calls(bs, k, name)]
            find_stat(tool_stats_of(bs, k), name) is None ==> named_calls(bs, k, name) == 0,
    decreases k,
{
    if k > 0 {
        lemma_tool_stats_count(bs, k - 1);
        lemma_tool_stats_ok(bs, k - 1);
        let prev = tool_stats_of(bs, k - 1);
        let b = tool_stats_of(bs, k);
        match bs[k - 1] {
            Block::Tool(t) => {
                let nm = t.tool_name@;
                lemma_find_stat(prev, nm);
                assert forall|i: int| 0 <= i < b.len() implies (#[trigger] b[i]).1 == named_calls(
                    bs,
                    k,
                    b[i].0,
                ) && b[i].2 == named_failures(bs, k, b[i].0) by {
                    if i < prev.len() {
                        if prev[i].0 != nm {
                            assert(b[i] == prev[i]);
                        }
                    } else {
                        assert(find_stat(prev, nm) is None);
                        assert(named_calls(bs, k - 1, nm) == 0);
                        assert(named_failures(bs, k - 1, nm) <= named_calls(bs, k - 1, nm)) by {
                            lemma_failures_le_calls(bs, k - 1, nm);
                        }
                        lemma_failures_nonneg(bs, k - 1, nm);
                    }
                }
                assert forall|name: Seq<char>|
                    #![trigger named_calls(bs, k, name)]
                    find_stat(b, name) is None implies named_calls(bs, k, name) == 0 by {
                    lemma_find_stat(b, name);
                    if name == nm {
                        match find_stat(prev, nm) {
                            Some(j) => {
                                assert(b[j].0 == nm);
                            },
                            None => {
                                assert(b[prev.len() as int].0 == nm);
                            },
                        }
                    } else {
                        lemma_find_stat(prev, name);
                        if find_stat(prev, name) is Some {
                            let j = find_stat(prev, name).unwrap();
                            assert(b[j].0 == name);
                        } else {
                            assert(named_calls(bs, k, name) == named_calls(bs, k - 1, name));
                            assert(named_calls(bs, k - 1, name) == 0);
                        }
                    }
                }
            },
            _ => {
                assert(b == prev);
                assert forall|name: Seq<char>|
                    #![trigger named_calls(bs, k, name)]
                    find_stat(b, name) is None implies named_calls(bs, k, name) == 0 by {
                    assert(named_calls(bs, k, name) == named_calls(bs, k - 1, name));
                    assert(named_calls(bs, k - 1, name) == 0);
                }
                assert forall|i: int| 0 <= i < b.len() implies (#[trigger] b[i]).1 == named_calls(
                    bs,
                    k,
                    b[i].0,
                ) && b[i].2 == named_failures(bs, k, b[i].0) by {
                    assert(b[i] == prev[i]);
                    assert(named_calls(bs, k, b[i].0) == named_calls(bs, k - 1, b[i].0));
                    assert(named_failures(bs, k, b[i].0) == named_failures(bs, k - 1, b[i].0));
                }
            },
        }
    }
}

proof fn lemma_failures_nonneg(bs: Seq<Block>, k: int, name: Seq<char>)
    ensures
        named_failures(bs, k, name) >= 0,
    decreases k,
{
    if k > 0 {
        lemma_failures_nonneg(bs, k - 1, name);
    }
}

proof fn lemma_failures_le_calls(bs: Seq<Block>, k: int, name: Seq<char>)
    ensures
        named_failures(bs, k, name) <= named_calls(bs, k, name),
    decreases k,
{
    if k > 0 {
        lemma_failures_le_calls(bs, k - 1, name);
    }
}

/// Per-tool counts, as values.
pub open spec fn stat_views(v: Seq<ToolStat>) -> StatBuckets {
    v.map_values(|s: ToolStat| (s.name@, s.count as int, s.errors as int))
}

/// The calls of each tool, in order of first appearance (see `tool_stats_of`).
fn count_tool_calls(session: &Session) -> (r: Vec<ToolStat>)
    ensures
        stat_views(r@) == tool_stats_of(session.blocks@, session.blocks@.len() as int),
{
    let ghost bs = session.blocks@;
    let mut r: Vec<ToolStat> = Vec::new();
    let mut i: usize = 0;
    proof {
        assert(stat_views(r@) =~= tool_stats_of(bs, 0));
    }
    while i < session.blocks.len()
        invariant
            bs == session.blocks@,
            0 <= i <= bs.len(),
            stat_views(r@) == tool_stats_of(bs, i as int),
        decreases bs.len() - i,
    {
        proof {
            lemma_tool_stats_ok(bs, i as int);
        }
        match &session.blocks[i] {
            Block::Tool(t) => {
                let ghost prev = stat_views(r@);
                proof {
                    lemma_find_stat(prev, t.tool_name@);
                }
                let mut k: usize = r.len();
                let mut found: Option<usize> = None;
                proof {
                    assert(prev.take(k as int) =~= prev);
                }
                while k > 0 && found.is_none()
                    invariant
                        0 <= k <= r@.len(),
                        prev == stat_views(r@),
                        found is None ==> find_stat(prev, t.tool_name@) == find_stat(
                            prev.take(k as int),
                            t.tool_name@,
                        ),
                        found matches Some(j) ==> j < r@.len() && find_stat(prev, t.tool_name@)
                            == Some(j as int),
                    decreases k, if found is None {
                        1int
                    } else {
                        0int
                    },
                {
                    proof {
                        assert(prev.take(k as int).drop_last() =~= prev.take(k - 1));
                        assert(prev.take(k as int).last() == prev[k - 1]);
                    }
                    if str_eq(r[k - 1].name.as_str(), t.tool_name.as_str()) {
                        found = Some(k - 1);
                    } else {
                        k = k - 1;
                    }
                }
                if found.is_some() {
                    let e: usize = if t.is_error {
                        1
                    } else {
                        0
                    };
                    let j = found.unwrap();
                    proof {
                        assert(0 <= prev[j as int].2 <= prev[j as int].1 <= i);
                    }
                    r[j].count = r[j].count + 1;
                    r[j].errors = r[j].errors + e;
                    proof {
                        assert(stat_views(r@) =~= count_call(prev, t.tool_name@, t.is_error));
                    }
                } else {
                    proof {
                        assert(prev.take(0) =~= Seq::<(Seq<char>, int, int)>::empty());
                    }
                    r.push(
                        ToolStat {
                            name: copy_str(t.tool_name.as_str()),
                            count: 1,
                            errors: if t.is_error {
                                1
                            } else {
                                0
                            },
                        },
                    );
                    proof {
                        assert(stat_views(r@) =~= count_call(prev, t.tool_name@, t.is_error));
                    }
                }
            },
            _ => {},
        }
        i = i + 1;
    }
    r
}

/// Entry `x` is listed before entry `y`: by name, or by count (larger first) with the
/// name breaking ties.
pub open spec fn stat_before(b: StatBuckets, by_name: bool, x: int, y: int) -> bool {
    if by_name {
        lex_lt(b[x].0, b[y].0)
    } else {
        b[x].1 > b[y].1 || (b[x].1 == b[y].1 && lex_lt(b[x].0, b[y].0))
    }
}

/// `p` lists every entry of `b` once, in the order of `stat_before`.
pub open spec fn is_stat_order(b: StatBuckets, by_name: bool, p: Seq<usize>) -> bool {
    &&& p.len() == b.len()
    &&& forall|i: int| 0 <= i < p.len() ==> p[i] < b.len()
    &&& forall|i: int, j: int|
        0 <= i < j < p.len() ==> stat_before(b, by_name, p[i] as int, p[j] as int)
}

proof fn lemma_stat_before_order(b: StatBuckets, by_name: bool, x: int, y: int, z: int)
    requires
        0 <= x < b.len(),
        0 <= y < b.len(),
        0 <= z < b.len(),
        forall|i: int, j: int| 0 <= i < j < b.len() ==> b[i].0 != b[j].0,
    ensures
        !stat_before(b, by_name, x, x),
        x != y ==> stat_before(b, by_name, x, y) || stat_before(b, by_name, y, x),
        stat_before(b, by_name, x, y) ==> !stat_before(b, by_name, y, x),
        stat_before(b, by_name, x, y) && stat_before(b, by_name, y, z) ==> stat_before(
            b,
            by_name,
            x,
            z,
        ),
{
    lemma_lex_lt_irreflexive(b[x].0);
    lemma_lex_lt_total(b[x].0, b[y].0);
    lemma_lex_lt_asymmetric(b[x].0, b[y].0);
    if x != y {
        if x < y {
            assert(b[x].0 != b[y].0);
        } else {
            assert(b[y].0 != b[x].0);
        }
    }
    if lex_lt(b[x].0, b[y].0) && lex_lt(b[y].0, b[z].0) {
        lemma_lex_lt_transitive(b[x].0, b[y].0, b[z].0);
    }
}

/// Entry `x` is listed before entry `y` (see `stat_before`).
fn stat_precedes(v: &Vec<ToolStat>, by_name: bool, x: usize, y: usize) -> (r: bool)
    requires
        x < v@.len(),
        y < v@.len(),
    ensures
        r == stat_before(stat_views(v@), by_name, x as int, y as int),
{
    let lt = str_lt(v[x].name.as_str(), v[y].name.as_str());
    if by_name {
        lt
    } else {
        v[x].count > v[y].count || (v[x].count == v[y].count && lt)
    }
}

/// The entries in the order of `stat_before`.
fn order_stats(v: &Vec<ToolStat>, by_name: bool) -> (p: Vec<usize>)
    requires
        forall|i: int, j: int|
            0 <= i < j < v@.len() ==> stat_views(v@)[i].0 != stat_views(v@)[j].0,
    ensures
        is_stat_order(stat_views(v@), by_name, p@),
{
    let ghost b = stat_views(v@);
    let n = v.len();
    let mut c: Vec<usize> = Vec::new();
    let mut i: usize = 0;
    while i < n
        invariant
            b == stat_views(v@),
            n == b.len(),
            forall|i: int, j: int| 0 <= i < j < b.len() ==> b[i].0 != b[j].0,
            0 <= i <= n,
            c@.len() == i,
            forall|j: int| 0 <= j < c@.len() ==> c@[j] < i,
            forall|a: int, d: int|
                0 <= a < d < c@.len() ==> stat_before(b, by_name, c@[a] as int, c@[d] as int),
        decreases n - i,
    {
        let mut pos: usize = 0;
        let mut found = false;
        while pos < c.len() && !found
            invariant
                found ==> pos < c@.len() && stat_before(b, by_name, i as int, c@[pos as int] as int),
                b == stat_views(v@),
                n == b.len(),
                i < n,
                forall|i: int, j: int| 0 <= i < j < b.len() ==> b[i].0 != b[j].0,
                0 <= pos <= c@.len(),
                forall|j: int| 0 <= j < c@.len() ==> c@[j] < i,
                forall|k: int| 0 <= k < pos ==> stat_before(b, by_name, c@[k] as int, i as int),
            decreases c@.len() - pos, if found {
                0int
            } else {
                1int
            },
        {
            if stat_precedes(v, by_name, i, c[pos]) {
                found = true;
            } else {
                proof {
                    lemma_stat_before_order(b, by_name, c@[pos as int] as int, i as int, i as int);
                }
                pos = pos + 1;
            }
        }
        let ghost before = c@;
        proof {
            if pos < c@.len() {
                assert(stat_before(b, by_name, i as int, c@[pos as int] as int));
            }
        }
        c.insert(pos, i);
        proof {
            assert forall|a: int, d: int| 0 <= a < d < c@.len() implies stat_before(
                b,
                by_name,
                c@[a] as int,
                c@[d] as int,
            ) by {
                if d < pos {
                    assert(c@[a] == before[a] && c@[d] == before[d]);
                } else if d == pos {
                    assert(c@[a] == before[a]);
                } else if a < pos {
                    assert(c@[a] == before[a] && c@[d] == before[d - 1]);
                    lemma_stat_before_order(
                        b,
                        by_name,
                        before[a] as int,
                        i as int,
                        before[d - 1] as int,
                    );
                    if pos < d - 1 {
                        assert(stat_before(b, by_name, before[pos as int] as int, before[d - 1] as int));
                        lemma_stat_before_order(
                            b,
                            by_name,
                            i as int,
                            before[pos as int] as int,
                            before[d - 1] as int,
                        );
                    }
                } else if a == pos {
                    assert(c@[d] == before[d - 1]);
                    if pos < d - 1 {
                        assert(stat_before(b, by_name, before[pos as int] as int, before[d - 1] as int));
                        lemma_stat_before_order(
                            b,
                            by_name,
                            i as int,
                            before[pos as int] as int,
                            before[d - 1] as int,
                        );
                    }
                } else {
                    assert(c@[a] == before[a - 1] && c@[d] == before[d - 1]);
                }
            }
            assert forall|j: int| 0 <= j < c@.len() implies c@[j] < i + 1 by {
                if j < pos {
                    assert(c@[j] == before[j]);
                } else if j > pos {
                    assert(c@[j] == before[j - 1]);
                }
            }
        }
        i = i + 1;
    }
    c
}

/// The statistics taken in the order `p`.
pub open spec fn reorder_stats(b: StatBuckets, p: Seq<usize>) -> StatBuckets {
    p.map_values(|i: usize| b[i as int])
}

fn copy_stat(s: &ToolStat) -> (r: ToolStat)
    ensures
        r.name@ == s.name@,
        r.count == s.count,
        r.errors == s.errors,
{
    ToolStat { name: copy_str(s.name.as_str()), count: s.count, errors: s.errors }
}

proof fn lemma_count_order(v: Seq<ToolStat>)
    requires
        forall|x: int, y: int| 0 <= x < y < v.len() ==> stat_before(stat_views(v), false, x, y),
    ensures
        forall|i: int, j: int|
            #![trigger v[i], v[j]]
            0 <= i < j < v.len() ==> (v[i].count > v[j].count || (v[i].count == v[j].count
                && lex_lt(v[i].name@, v[j].name@))),
{
    assert forall|i: int, j: int|
        #![trigger v[i], v[j]]
        0 <= i < j < v.len() implies (v[i].count > v[j].count || (v[i].count == v[j].count
            && lex_lt(v[i].name@, v[j].name@))) by {
        assert(stat_before(stat_views(v), false, i, j));
        assert(stat_views(v)[i] == (v[i].name@, v[i].count as int, v[i].errors as int));
        assert(stat_views(v)[j] == (v[j].name@, v[j].count as int, v[j].errors as int));
    }
}

/// The tools used in the session with their call and error counts: by name when `sort`
/// is `name`, otherwise by count (largest first) and then name.
pub fn tool_stats(session: &Session, sort: &str) -> (r: Vec<ToolStat>)
    ensures
        exists|p: Seq<usize>|
            is_stat_order(
                tool_stats_of(session.blocks@, session.blocks@.len() as int),
                sort@ == "name"@,
                p,
            ) && stat_views(r@) == reorder_stats(
                tool_stats_of(session.blocks@, session.blocks@.len() as int),
                p,
            ),
        sort@ == "name"@ ==> forall|i: int, j: int|
            0 <= i < j < r@.len() ==> lex_lt(r@[i].name@, r@[j].name@),
        sort@ != "name"@ ==> forall|i: int, j: int|
            0 <= i < j < r@.len() ==> (r@[i].count > r@[j].count || (r@[i].count == r@[j].count
                && lex_lt(r@[i].name@, r@[j].name@))),
{
    let by_name = str_eq(sort, "name");
    let v = count_tool_calls(session);
    proof {
        lemma_tool_stats_ok(session.blocks@, session.blocks@.len() as int);
    }
    let order = order_stats(&v, by_name);
    let mut r: Vec<ToolStat> = Vec::new();
    let mut j: usize = 0;
    while j < order.len()
        invariant
            is_stat_order(stat_views(v@), by_name, order@),
            0 <= j <= order@.len(),
            stat_views(r@) == reorder_stats(stat_views(v@), order@.take(j as int)),
        decreases order@.len() - j,
    {
        let k = order[j];
        let ghost before = r@;
        r.push(copy_stat(&v[k]));
        proof {
            assert(order@.take(j + 1) =~= order@.take(j as int).push(k));
            assert(stat_views(r@) =~= stat_views(before).push(stat_views(v@)[k as int]));
            assert(reorder_stats(stat_views(v@), order@.take(j + 1)) =~= reorder_stats(
                stat_views(v@),
                order@.take(j as int),
            ).push(stat_views(v@)[k as int]));
        }
        j = j + 1;
    }
    proof {
        assert(order@.take(j as int) =~= order@);
        let b = stat_views(v@);
        assert forall|x: int, y: int| 0 <= x < y < r@.len() implies stat_before(
            stat_views(r@),
            by_name,
            x,
            y,
        ) by {
            assert(stat_views(r@)[x] == b[order@[x] as int]);
            assert(stat_views(r@)[y] == b[order@[y] as int]);
            assert(stat_before(b, by_name, order@[x] as int, order@[y] as int));
        }
        assert forall|x: int, y: int| 0 <= x < y < r@.len() implies (by_name ==> lex_lt(
            r@[x].name@,
            r@[y].name@,
        )) && (!by_name ==> r@[x].count > r@[y].count || (r@[x].count == r@[y].count && lex_lt(
            r@[x].name@,
            r@[y].name@,
        ))) by {
            assert(stat_before(stat_views(r@), by_name, x, y));
            assert(stat_views(r@)[x] == (r@[x].name@, r@[x].count as int, r@[x].errors as int));
            assert(stat_views(r@)[y] == (r@[y].name@, r@[y].count as int, r@[y].errors as int));
        }
        if !by_name {
            lemma_count_order(r@);
        }
    }
    r
}

/// The call counts of the entries.
pub open spec fn stat_counts(b: StatBuckets) -> Seq<u128> {
    b.map_values(|e: (Seq<char>, int, int)| e.1 as u128)
}

/// The number of calls of each tool, largest first; tools with equal counts in order of
/// first appearance.
pub fn tool_call_counts(session: &Session) -> (r: Vec<(String, usize)>)
    ensures
        ({
            let b = tool_stats_of(session.blocks@, session.blocks@.len() as int);
            exists|p: Seq<usize>|
                is_desc_order(stat_counts(b), p) && r@.len() == p.len() && forall|i: int|
                    0 <= i < p.len() ==> (#[trigger] r@[i]).0@ == b[p[i] as int].0 && r@[i].1
                        == b[p[i] as int].1
        }),
        forall|i: int, j: int| 0 <= i < j < r@.len() ==> r@[i].1 >= r@[j].1,
{
    let v = count_tool_calls(session);
    let ghost b = stat_views(v@);
    let mut keys: Vec<u128> = Vec::new();
    let mut i: usize = 0;
    while i < v.len()
        invariant
            b == stat_views(v@),
            0 <= i <= v@.len(),
            keys@ == stat_counts(b).take(i as int),
        decreases v@.len() - i,
    {
        keys.push(v[i].count as u128);
        proof {
            assert(keys@ =~= stat_counts(b).take(i + 1));
        }
        i = i + 1;
    }
    proof {
        assert(keys@ =~= stat_counts(b));
    }
    let order = order_desc(&keys);
    let mut r: Vec<(String, usize)> = Vec::new();
    let mut j: usize = 0;
    while j < order.len()
        invariant
            b == stat_views(v@),
            is_desc_order(keys@, order@),
            keys@.len() == v@.len(),
            0 <= j <= order@.len(),
            r@.len() == j,
            forall|k: int|
                0 <= k < j ==> (#[trigger] r@[k]).0@ == b[order@[k] as int].0 && r@[k].1
                    == b[order@[k] as int].1,
        decreases order@.len() - j,
    {
        let k = order[j];
        r.push((copy_str(v[k].name.as_str()), v[k].count));
        j = j + 1;
    }
    proof {
        assert forall|x: int, y: int| 0 <= x < y < r@.len() implies r@[x].1 >= r@[y].1 by {
            assert(keys@[order@[x] as int] >= keys@[order@[y] as int]);
            assert(b[order@[x] as int] == stat_views(v@)[order@[x] as int]);
            assert(b[order@[y] as int] == stat_views(v@)[order@[y] as int]);
        }
    }
    r
}

/// The sum of the call counts.
pub open spec fn calls_total(b: StatBuckets) -> int
    decreases b.len(),
{
    if b.len() == 0 {
        0
    } else {
        calls_total(b.drop_last()) + b.last().1
    }
}

proof fn lemma_calls_total_update(b: StatBuckets, k: int, v: (Seq<char>, int, int))
    requires
        0 <= k < b.len(),
    ensures
        calls_total(b.update(k, v)) == calls_total(b) - b[k].1 + v.1,
    decreases b.len(),
{
    if k == b.len() - 1 {
        assert(b.update(k, v).drop_last() =~= b.drop_last());
    } else {
        lemma_calls_total_update(b.drop_last(), k, v);
        assert(b.update(k, v).drop_last() =~= b.drop_last().update(k, v));
    }
}

/// The number of tool blocks among the first `k` blocks.
pub open spec fn tool_block_count(bs: Seq<Block>, k: int) -> int
    decreases k,
{
    if k <= 0 {
        0
    } else {
        tool_block_count(bs, k - 1) + if bs[k - 1] is Tool {
            1int
        } else {
            0int
        }
    }
}

/// Every tool block is counted once: the call counts of all tools add up to the number
/// of tool blocks.
pub proof fn lemma_calls_total(bs: Seq<Block>, k: int)
    requires
        0 <= k <= bs.len(),
    ensures
        calls_total(tool_stats_of(bs, k)) == tool_block_count(bs, k),
    decreases k,
{
    if k > 0 {
        lemma_calls_total(bs, k - 1);
        let prev = tool_stats_of(bs, k - 1);
        match bs[k - 1] {
            Block::Tool(t) => {
                lemma_find_stat(prev, t.tool_name@);
                match find_stat(prev, t.tool_name@) {
                    Some(j) => {
                        let e: int = if t.is_error {
                            1
                        } else {
                            0
                        };
                        lemma_calls_total_update(prev, j, (t.tool_name@, prev[j].1 + 1, prev[j].2 + e));
                    },
                    None => {
                        let e: int = if t.is_error {
                            1
                        } else {
                            0
                        };
                        assert(prev.push((t.tool_name@, 1, e)).drop_last() =~= prev);
                    },
                }
            },
            _ => {},
        }
    }
}

} // verus!
