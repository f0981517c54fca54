use std::collections::HashMap;
use vstd::hash_map::StringHashMap;
use vstd::prelude::*;

use super::block::{
    block_token_total, lemma_tokens_total_element, lemma_tokens_total_nonneg, lemma_tokens_total_push, spec_block_type,
    spec_duration_ms, spec_parent_uuid, spec_timestamp, spec_tokens, spec_uuid, tokens_total,
    Block, BlockInfo, SystemSubtype, ToolBlock,
};
use super::turn::Turn;
use super::types::{BlockType, NodeId, RawLineRef, TokenUsage};

verus! {

// ─── The graph of a block sequence, as specifications ──────────────────────

/// The last block whose identifier is `u` (later blocks with the same identifier win).
pub open spec fn uuid_node(bs: Seq<Block>, u: Seq<char>) -> Option<int>
    decreases bs.len(),
{
    if bs.len() == 0 {
        None
    } else if spec_uuid(bs.last()) == u {
        Some(bs.len() - 1)
    } else {
        uuid_node(bs.drop_last(), u)
    }
}

/// The parent of block `i`: the block named by its parent uuid, when there is one.
pub open spec fn parent_node(bs: Seq<Block>, i: int) -> Option<int> {
    match spec_parent_uuid(bs[i]) {
        Some(p) => uuid_node(bs, p),
        None => None,
    }
}

/// `s` lists, in increasing order, exactly the indices below `n` that satisfy `pred`.
pub open spec fn enumerates(s: Seq<usize>, n: int, pred: spec_fn(int) -> bool) -> bool {
    &&& forall|i: int, j: int| 0 <= i < j < s.len() ==> s[i] < s[j]
    &&& forall|i: int| 0 <= i < s.len() ==> s[i] < n && pred(s[i] as int)
    &&& forall|x: int| 0 <= x < n && #[trigger] pred(x) ==> s.contains(x as usize)
}

/// Block `a` comes before block `b` in time (ties keep file order).
pub open spec fn chrono_before(bs: Seq<Block>, a: int, b: int) -> bool {
    spec_timestamp(bs[a]) < spec_timestamp(bs[b]) || (spec_timestamp(bs[a]) == spec_timestamp(
        bs[b],
    ) && a < b)
}

/// `c` is the chronological order of the blocks: every index once, ordered by
/// timestamp, equal timestamps in file order (a stable sort by timestamp).
pub open spec fn is_chronological(bs: Seq<Block>, c: Seq<usize>) -> bool {
    &&& c.len() == bs.len()
    &&& forall|i: int| 0 <= i < c.len() ==> c[i] < bs.len()
    &&& forall|i: int, j: int| 0 <= i < j < c.len() ==> chrono_before(bs, c[i] as int, c[j] as int)
}

/// Whether block `i` is a tool block for the named tool.
pub open spec fn is_tool_named(bs: Seq<Block>, i: int, name: Seq<char>) -> bool {
    bs[i] matches Block::Tool(t) && t.tool_name@ == name
}

// ─── The session ────────────────────────────────────────────────────────────

/// A parsed session: its blocks and the indexes over them.
pub struct Session {
    pub blocks: Vec<Block>,
    /// Block index by uuid (the last block wins when several share a uuid).
    pub uuid_index: StringHashMap<usize>,
    /// For each block, its children in file order.
    pub children: Vec<Vec<NodeId>>,
    /// For each block, its parent when the parent uuid names a block.
    pub parent_map: Vec<Option<NodeId>>,
    pub roots: Vec<NodeId>,
    /// The blocks of each type, in file order (user, assistant, tool, system).
    pub by_type: Vec<Vec<NodeId>>,
    /// The tool blocks of each tool name, in order of first appearance.
    pub by_tool_name: Vec<(String, Vec<NodeId>)>,
    /// The position of each tool name in `by_tool_name`.
    pub tool_name_index: StringHashMap<usize>,
    pub chronological: Vec<NodeId>,
    /// The lines each block came from, by block index; blocks that no line produced have
    /// no entry.
    pub provenance: HashMap<NodeId, Vec<RawLineRef>>,
    pub session_id: Option<String>,
    pub file_path: String,
}

/// The position of a block type among the per-type indexes.
pub open spec fn type_slot(t: BlockType) -> int {
    match t {
        BlockType::User => 0,
        BlockType::Assistant => 1,
        BlockType::Tool => 2,
        BlockType::System => 3,
    }
}

fn slot_of(t: BlockType) -> (i: usize)
    ensures
        i == type_slot(t),
{
    match t {
        BlockType::User => 0,
        BlockType::Assistant => 1,
        BlockType::Tool => 2,
        BlockType::System => 3,
    }
}


pub proof fn lemma_enumerates_step(s: Seq<usize>, i: int, pred: spec_fn(int) -> bool)
    requires
        enumerates(s, i, pred),
        0 <= i <= usize::MAX,
    ensures
        pred(i) ==> enumerates(s.push(i as usize), i + 1, pred),
        !pred(i) ==> enumerates(s, i + 1, pred),
{
    if pred(i) {
        let t = s.push(i as usize);
        assert forall|x: int| 0 <= x < i + 1 && #[trigger] pred(x) implies t.contains(x as usize) by {
            if x < i {
                let k = choose|k: int| 0 <= k < s.len() && s[k] == x as usize;
                assert(t[k] == x as usize);
            } else {
                assert(t[s.len() as int] == x as usize);
            }
        }
    }
}

pub proof fn lemma_enumerates_empty(pred: spec_fn(int) -> bool)
    ensures
        enumerates(Seq::<usize>::empty(), 0, pred),
{
}

pub proof fn lemma_uuid_node_range(bs: Seq<Block>, u: Seq<char>)
    ensures
        uuid_node(bs, u) matches Some(i) ==> 0 <= i < bs.len() && spec_uuid(bs[i]) == u,
    decreases bs.len(),
{
    if bs.len() > 0 && spec_uuid(bs.last()) != u {
        lemma_uuid_node_range(bs.drop_last(), u);
        if uuid_node(bs.drop_last(), u) is Some {
            let i = uuid_node(bs.drop_last(), u).unwrap();
            assert(bs.drop_last()[i] == bs[i]);
        }
    }
}

pub proof fn lemma_parent_node_range(bs: Seq<Block>, i: int)
    requires
        0 <= i < bs.len(),
    ensures
        parent_node(bs, i) matches Some(p) ==> 0 <= p < bs.len(),
{
    if spec_parent_uuid(bs[i]) is Some {
        lemma_uuid_node_range(bs, spec_parent_uuid(bs[i]).unwrap());
    }
}

proof fn lemma_uuid_node_step(bs: Seq<Block>, i: int, u: Seq<char>)
    requires
        0 <= i < bs.len(),
    ensures
        uuid_node(bs.take(i + 1), u) == if spec_uuid(bs[i]) == u {
            Some(i)
        } else {
            uuid_node(bs.take(i), u)
        },
{
    assert(bs.take(i + 1).drop_last() =~= bs.take(i));
}

fn build_uuid_index(blocks: &Vec<Block>) -> (m: StringHashMap<usize>)
    ensures
        forall|u: Seq<char>|
            #![trigger m@.contains_key(u)]
            m@.contains_key(u) <==> uuid_node(blocks@, u) is Some,
        forall|u: Seq<char>|
            m@.contains_key(u) ==> m@[u] as int == uuid_node(blocks@, u).unwrap(),
{
    let mut m: StringHashMap<usize> = StringHashMap::new();
    let mut i: usize = 0;
    while i < blocks.len()
        invariant
            0 <= i <= blocks@.len(),
            forall|u: Seq<char>|
                #![trigger m@.contains_key(u)]
                m@.contains_key(u) <==> uuid_node(blocks@.take(i as int), u) is Some,
            forall|u: Seq<char>|
                m@.contains_key(u) ==> m@[u] as int == uuid_node(blocks@.take(i as int), u).unwrap(),
        decreases blocks@.len() - i,
    {
        let u = blocks[i].uuid();
        let key = crate::text::copy_str(u);
        m.insert(key, i);
        proof {
            assert forall|v: Seq<char>| #![trigger m@.contains_key(v)]
                m@.contains_key(v) <==> uuid_node(blocks@.take(i + 1), v) is Some by {
                lemma_uuid_node_step(blocks@, i as int, v);
            }
            assert forall|v: Seq<char>|
                m@.contains_key(v) implies m@[v] as int == uuid_node(blocks@.take(i + 1), v).unwrap() by {
                lemma_uuid_node_step(blocks@, i as int, v);
            }
        }
        i = i + 1;
    }
    assert(blocks@.take(i as int) =~= blocks@);
    m
}

fn build_parents(blocks: &Vec<Block>, index: &StringHashMap<usize>) -> (ps: Vec<Option<NodeId>>)
    requires
        forall|u: Seq<char>|
            #![trigger index@.contains_key(u)]
            index@.contains_key(u) <==> uuid_node(blocks@, u) is Some,
        forall|u: Seq<char>|
            index@.contains_key(u) ==> index@[u] as int == uuid_node(blocks@, u).unwrap(),
    ensures
        ps@.len() == blocks@.len(),
        forall|i: int|
            0 <= i < blocks@.len() ==> match #[trigger] ps@[i] {
                Some(p) => parent_node(blocks@, i) == Some(p as int),
                None => parent_node(blocks@, i) is None,
            },
{
    let mut ps: Vec<Option<NodeId>> = Vec::new();
    let mut i: usize = 0;
    while i < blocks.len()
        invariant
            0 <= i <= blocks@.len(),
            ps@.len() == i,
            forall|u: Seq<char>|
                #![trigger index@.contains_key(u)]
                index@.contains_key(u) <==> uuid_node(blocks@, u) is Some,
            forall|u: Seq<char>|
                index@.contains_key(u) ==> index@[u] as int == uuid_node(blocks@, u).unwrap(),
            forall|j: int|
                0 <= j < i ==> match #[trigger] ps@[j] {
                    Some(p) => parent_node(blocks@, j) == Some(p as int),
                    None => parent_node(blocks@, j) is None,
                },
        decreases blocks@.len() - i,
    {
        let parent = match blocks[i].parent_uuid() {
            Some(pu) => match index.get(pu) {
                Some(p) => Some(*p),
                None => None,
            },
            None => None,
        };
        ps.push(parent);
        i = i + 1;
    }
    ps
}

fn build_children(parents: &Vec<Option<NodeId>>, Ghost(bs): Ghost<Seq<Block>>) -> (cs: Vec<Vec<NodeId>>)
    requires
        parents@.len() == bs.len(),
        forall|i: int|
            0 <= i < bs.len() ==> match #[trigger] parents@[i] {
                Some(p) => parent_node(bs, i) == Some(p as int),
                None => parent_node(bs, i) is None,
            },
    ensures
        cs@.len() == bs.len(),
        forall|p: int|
            0 <= p < bs.len() ==> enumerates(
                #[trigger] cs@[p]@,
                bs.len() as int,
                |i: int| parent_node(bs, i) == Some(p),
            ),
{
    let n = parents.len();
    let mut cs: Vec<Vec<NodeId>> = Vec::new();
    let mut k: usize = 0;
    while k < n
        invariant
            n == bs.len(),
            0 <= k <= n,
            cs@.len() == k,
            forall|p: int| 0 <= p < k ==> (#[trigger] cs@[p])@ == Seq::<usize>::empty(),
        decreases n - k,
    {
        cs.push(Vec::new());
        k = k + 1;
    }
    let mut i: usize = 0;
    while i < n
        invariant
            n == bs.len(),
            parents@.len() == n,
            forall|j: int|
                0 <= j < n ==> match #[trigger] parents@[j] {
                    Some(p) => parent_node(bs, j) == Some(p as int),
                    None => parent_node(bs, j) is None,
                },
            0 <= i <= n,
            cs@.len() == n,
            forall|p: int|
                0 <= p < n ==> enumerates(
                    #[trigger] cs@[p]@,
                    i as int,
                    |x: int| parent_node(bs, x) == Some(p),
                ),
        decreases n - i,
    {
        let ghost before = cs@;
        proof {
            lemma_parent_node_range(bs, i as int);
        }
        match parents[i] {
            Some(p) => {
                cs[p].push(i);
            },
            None => {},
        }
        proof {
            assert forall|p: int| 0 <= p < n implies enumerates(
                #[trigger] cs@[p]@,
                i + 1,
                |x: int| parent_node(bs, x) == Some(p),
            ) by {
                lemma_enumerates_step(before[p]@, i as int, |x: int| parent_node(bs, x) == Some(p));
            }
        }
        i = i + 1;
    }
    cs
}

fn build_roots(parents: &Vec<Option<NodeId>>, Ghost(bs): Ghost<Seq<Block>>) -> (rs: Vec<NodeId>)
    requires
        parents@.len() == bs.len(),
        forall|i: int|
            0 <= i < bs.len() ==> match #[trigger] parents@[i] {
                Some(p) => parent_node(bs, i) == Some(p as int),
                None => parent_node(bs, i) is None,
            },
    ensures
        enumerates(rs@, bs.len() as int, |i: int| parent_node(bs, i) is None),
{
    let mut rs: Vec<NodeId> = Vec::new();
    let mut i: usize = 0;
    while i < parents.len()
        invariant
            parents@.len() == bs.len(),
            forall|j: int|
                0 <= j < bs.len() ==> match #[trigger] parents@[j] {
                    Some(p) => parent_node(bs, j) == Some(p as int),
                    None => parent_node(bs, j) is None,
                },
            0 <= i <= bs.len(),
            enumerates(rs@, i as int, |x: int| parent_node(bs, x) is None),
        decreases bs.len() - i,
    {
        proof {
            lemma_enumerates_step(rs@, i as int, |x: int| parent_node(bs, x) is None);
        }
        if parents[i].is_none() {
            rs.push(i);
        }
        i = i + 1;
    }
    rs
}

fn build_by_type(blocks: &Vec<Block>) -> (ts: Vec<Vec<NodeId>>)
    ensures
        ts@.len() == 4,
        forall|t: BlockType|
            enumerates(
                #[trigger] ts@[type_slot(t)]@,
                blocks@.len() as int,
                |i: int| spec_block_type(blocks@[i]) == t,
            ),
{
    let mut ts: Vec<Vec<NodeId>> = Vec::new();
    ts.push(Vec::new());
    ts.push(Vec::new());
    ts.push(Vec::new());
    ts.push(Vec::new());
    let mut i: usize = 0;
    while i < blocks.len()
        invariant
            0 <= i <= blocks@.len(),
            ts@.len() == 4,
            forall|t: BlockType|
                enumerates(
                    #[trigger] ts@[type_slot(t)]@,
                    i as int,
                    |x: int| spec_block_type(blocks@[x]) == t,
                ),
        decreases blocks@.len() - i,
    {
        let ghost before = ts@;
        let slot = slot_of(blocks[i].block_type());
        ts[slot].push(i);
        proof {
            assert forall|t: BlockType| enumerates(
                #[trigger] ts@[type_slot(t)]@,
                i + 1,
                |x: int| spec_block_type(blocks@[x]) == t,
            ) by {
                lemma_enumerates_step(
                    before[type_slot(t)]@,
                    i as int,
                    |x: int| spec_block_type(blocks@[x]) == t,
                );
            }
        }
        i = i + 1;
    }
    ts
}


/// The tool-name index restricted to the first `n` blocks.
pub open spec fn tool_groups_ok(
    bs: Seq<Block>,
    n: int,
    groups: Seq<(String, Vec<NodeId>)>,
    index: Map<Seq<char>, usize>,
) -> bool {
    &&& forall|g: int|
        0 <= g < groups.len() ==> {
            let (name, ids) = #[trigger] groups[g];
            &&& index.contains_key(name@)
            &&& index[name@] == g
            &&& enumerates(ids@, n, |i: int| is_tool_named(bs, i, name@))
        }
    &&& forall|name: Seq<char>|
        #![trigger index.contains_key(name)]
        index.contains_key(name) ==> {
            let g = index[name] as int;
            &&& 0 <= g < groups.len()
            &&& groups[g].0@ == name
        }
    &&& forall|name: Seq<char>|
        !index.contains_key(name) ==> forall|i: int| 0 <= i < n ==> !is_tool_named(bs, i, name)
}

fn build_tool_groups(blocks: &Vec<Block>) -> (r: (Vec<(String, Vec<NodeId>)>, StringHashMap<usize>))
    ensures
        tool_groups_ok(blocks@, blocks@.len() as int, r.0@, r.1@),
{
    let ghost bs = blocks@;
    let mut groups: Vec<(String, Vec<NodeId>)> = Vec::new();
    let mut index: StringHashMap<usize> = StringHashMap::new();
    let mut i: usize = 0;
    while i < blocks.len()
        invariant
            bs == blocks@,
            0 <= i <= bs.len(),
            tool_groups_ok(bs, i as int, groups@, index@),
        decreases bs.len() - i,
    {
        let ghost g0 = groups@;
        let ghost i0 = index@;
        match &blocks[i] {
            Block::Tool(t) => {
                let name = t.tool_name.as_str();
                match index.get(name) {
                    Some(gref) => {
                        let g = *gref;
                        groups[g].1.push(i);
                        proof {
                            assert forall|h: int| 0 <= h < groups@.len() implies {
                                let (nm, ids) = #[trigger] groups@[h];
                                &&& index@.contains_key(nm@)
                                &&& index@[nm@] == h
                                &&& enumerates(ids@, i + 1, |x: int| is_tool_named(bs, x, nm@))
                            } by {
                                let (nm, ids) = g0[h];
                                lemma_enumerates_step(ids@, i as int, |x: int| is_tool_named(bs, x, nm@));
                                if h != g {
                                    assert(groups@[h] == g0[h]);
                                }
                            }
                            assert forall|nm: Seq<char>|
                                !index@.contains_key(nm) implies forall|x: int|
                                0 <= x < i + 1 ==> !is_tool_named(bs, x, nm) by {
                                assert(nm != name@);
                            }
                        }
                    },
                    None => {
                        let g = groups.len();
                        let mut ids: Vec<NodeId> = Vec::new();
                        ids.push(i);
                        groups.push((t.tool_name.clone(), ids));
                        index.insert(t.tool_name.clone(), g);
                        proof {
                            assert forall|h: int| 0 <= h < groups@.len() implies {
                                let (nm, ids) = #[trigger] groups@[h];
                                &&& index@.contains_key(nm@)
                                &&& index@[nm@] == h
                                &&& enumerates(ids@, i + 1, |x: int| is_tool_named(bs, x, nm@))
                            } by {
                                if h < g {
                                    let (nm, ids) = g0[h];
                                    assert(groups@[h] == g0[h]);
                                    assert(i0.contains_key(nm@));
                                    assert(nm@ != name@);
                                    lemma_enumerates_step(ids@, i as int, |x: int| is_tool_named(bs, x, nm@));
                                } else {
                                    let (nm, ids) = groups@[h];
                                    assert(nm@ == name@);
                                    assert(!i0.contains_key(name@));
                                    lemma_enumerates_empty(|x: int| is_tool_named(bs, x, nm@));
                                    assert(ids@ =~= Seq::<usize>::empty().push(i));
                                    assert forall|x: int| 0 <= x < i + 1 && #[trigger] is_tool_named(bs, x, nm@)
                                        implies ids@.contains(x as usize) by {
                                        if x < i {
                                            assert(!is_tool_named(bs, x, name@));
                                        } else {
                                            assert(ids@[0] == i);
                                        }
                                    }
                                }
                            }
                            assert forall|nm: Seq<char>|
                                #![trigger index@.contains_key(nm)]
                                index@.contains_key(nm) implies {
                                let h = index@[nm] as int;
                                &&& 0 <= h < groups@.len()
                                &&& groups@[h].0@ == nm
                            } by {
                                if nm != name@ {
                                    assert(i0.contains_key(nm));
                                    let h = i0[nm] as int;
                                    assert(groups@[h] == g0[h]);
                                }
                            }
                            assert forall|nm: Seq<char>|
                                !index@.contains_key(nm) implies forall|x: int|
                                0 <= x < i + 1 ==> !is_tool_named(bs, x, nm) by {
                                assert(nm != name@);
                            }
                        }
                    },
                }
            },
            _ => {
                proof {
                    assert forall|h: int| 0 <= h < groups@.len() implies {
                        let (nm, ids) = #[trigger] groups@[h];
                        &&& index@.contains_key(nm@)
                        &&& index@[nm@] == h
                        &&& enumerates(ids@, i + 1, |x: int| is_tool_named(bs, x, nm@))
                    } by {
                        let (nm, ids) = groups@[h];
                        lemma_enumerates_step(ids@, i as int, |x: int| is_tool_named(bs, x, nm@));
                    }
                }
            },
        }
        i = i + 1;
    }
    (groups, index)
}

fn chronological_order(blocks: &Vec<Block>) -> (c: Vec<NodeId>)
    ensures
        is_chronological(blocks@, c@),
{
    let ghost bs = blocks@;
    let n = blocks.len();
    let mut ts: Vec<i128> = Vec::new();
    let mut k: usize = 0;
    while k < n
        invariant
            n == bs.len(),
            bs == blocks@,
            0 <= k <= n,
            ts@.len() == k,
            forall|j: int| 0 <= j < k ==> ts@[j] == spec_timestamp(bs[j]),
        decreases n - k,
    {
        ts.push(blocks[k].timestamp());
        k = k + 1;
    }
    let mut c: Vec<NodeId> = Vec::new();
    let mut i: usize = 0;
    while i < n
        invariant
            n == bs.len(),
            ts@.len() == n,
            forall|j: int| 0 <= j < n ==> ts@[j] == spec_timestamp(bs[j]),
            0 <= i <= n,
            c@.len() == i,
            forall|j: int| 0 <= j < c@.len() ==> c@[j] < i,
            forall|a: int, b: int| 0 <= a < b < c@.len() ==> chrono_before(bs, c@[a] as int, c@[b] as int),
        decreases n - i,
    {
        let t = ts[i];
        // first position whose block is later than block i
        let mut lo: usize = 0;
        let mut hi: usize = c.len();
        while lo < hi
            invariant
                0 <= lo <= hi <= c@.len(),
                c@.len() == i,
                i < n,
                ts@.len() == n,
                forall|j: int| 0 <= j < c@.len() ==> c@[j] < i,
                t == ts@[i as int],
                forall|k2: int| 0 <= k2 < lo ==> ts@[c@[k2] as int] <= t,
                forall|k2: int| hi <= k2 < c@.len() ==> ts@[c@[k2] as int] > t,
                forall|j: int| 0 <= j < n ==> ts@[j] == spec_timestamp(bs[j]),
                forall|a: int, b: int| 0 <= a < b < c@.len() ==> chrono_before(bs, c@[a] as int, c@[b] as int),
            decreases hi - lo,
        {
            let mid = lo + (hi - lo) / 2;
            if ts[c[mid]] <= t {
                assert forall|k2: int| 0 <= k2 < mid + 1 implies ts@[c@[k2] as int] <= t by {
                    if k2 < mid {
                        assert(chrono_before(bs, c@[k2] as int, c@[mid as int] as int));
                    }
                }
                lo = mid + 1;
            } else {
                assert forall|k2: int| mid <= k2 < c@.len() implies ts@[c@[k2] as int] > t by {
                    if k2 > mid {
                        assert(chrono_before(bs, c@[mid as int] as int, c@[k2] as int));
                    }
                }
                hi = mid;
            }
        }
        let ghost before = c@;
        c.insert(lo, i);
        proof {
            assert forall|a: int, b: int| 0 <= a < b < c@.len() implies chrono_before(
                bs,
                c@[a] as int,
                c@[b] as int,
            ) by {
                if b < lo {
                    assert(c@[a] == before[a] && c@[b] == before[b]);
                } else if b == lo {
                    assert(c@[a] == before[a]);
                } else if a < lo {
                    assert(c@[a] == before[a] && c@[b] == before[b - 1]);
                } else if a == lo {
                    assert(c@[b] == before[b - 1]);
                } else {
                    assert(c@[a] == before[a - 1] && c@[b] == before[b - 1]);
                }
            }
            assert forall|j: int| 0 <= j < c@.len() implies c@[j] < i + 1 by {
                if j < lo {
                    assert(c@[j] == before[j]);
                } else if j > lo {
                    assert(c@[j] == before[j - 1]);
                }
            }
        }
        i = i + 1;
    }
    c
}

impl Session {
    /// A consistent session walks its blocks in chronological order.
    pub proof fn lemma_wf_chronological(&self)
        requires
            self.wf(),
        ensures
            is_chronological(self.blocks@, self.chronological@),
    {
    }

    /// The indexes agree with the blocks.
    pub closed spec fn wf(&self) -> bool {
        let bs = self.blocks@;
        let n = bs.len() as int;
        &&& forall|u: Seq<char>|
            #![trigger self.uuid_index@.contains_key(u)]
            self.uuid_index@.contains_key(u) <==> uuid_node(bs, u) is Some
        &&& forall|u: Seq<char>|
            self.uuid_index@.contains_key(u) ==> self.uuid_index@[u] as int == uuid_node(
                bs,
                u,
            ).unwrap()
        &&& self.parent_map@.len() == n
        &&& forall|i: int|
            0 <= i < n ==> match #[trigger] self.parent_map@[i] {
                Some(p) => parent_node(bs, i) == Some(p as int),
                None => parent_node(bs, i) is None,
            }
        &&& self.children@.len() == n
        &&& forall|p: int|
            0 <= p < n ==> enumerates(
                #[trigger] self.children@[p]@,
                n,
                |i: int| parent_node(bs, i) == Some(p),
            )
        &&& enumerates(self.roots@, n, |i: int| parent_node(bs, i) is None)
        &&& self.by_type@.len() == 4
        &&& forall|t: BlockType|
            enumerates(
                #[trigger] self.by_type@[type_slot(t)]@,
                n,
                |i: int| spec_block_type(bs[i]) == t,
            )
        &&& forall|g: int|
            0 <= g < self.by_tool_name@.len() ==> {
                let (name, ids) = #[trigger] self.by_tool_name@[g];
                &&& self.tool_name_index@.contains_key(name@)
                &&& self.tool_name_index@[name@] == g
                &&& enumerates(ids@, n, |i: int| is_tool_named(bs, i, name@))
            }
        &&& forall|name: Seq<char>|
            #![trigger self.tool_name_index@.contains_key(name)]
            self.tool_name_index@.contains_key(name) ==> {
                let g = self.tool_name_index@[name] as int;
                &&& 0 <= g < self.by_tool_name@.len()
                &&& self.by_tool_name@[g].0@ == name
            }
        &&& forall|name: Seq<char>|
            !self.tool_name_index@.contains_key(name) ==> forall|i: int|
                0 <= i < n ==> !is_tool_named(bs, i, name)
        &&& is_chronological(bs, self.chronological@)
    }
}

/// The block reached from `a` by following one parent link, when `a` is a block.
pub open spec fn parent_step(bs: Seq<Block>, a: int) -> Option<int> {
    if 0 <= a < bs.len() {
        parent_node(bs, a)
    } else {
        None
    }
}

/// The `k`-th ancestor of `node` (the node itself for `k == 0`), while the chain lasts.
pub open spec fn nth_ancestor(bs: Seq<Block>, node: int, k: nat) -> Option<int>
    decreases k,
{
    if k == 0 {
        Some(node)
    } else {
        match nth_ancestor(bs, node, (k - 1) as nat) {
            Some(a) => parent_step(bs, a),
            None => None,
        }
    }
}

/// The parent chain from `node` ends: some ancestor has no parent.
pub open spec fn chain_ends(bs: Seq<Block>, node: int) -> bool {
    exists|d: nat| #[trigger] nth_ancestor(bs, node, d) is None
}

pub proof fn lemma_nth_ancestor_none_after(bs: Seq<Block>, node: int, d: nat, k: nat)
    requires
        nth_ancestor(bs, node, d) is None,
        d <= k,
    ensures
        nth_ancestor(bs, node, k) is None,
    decreases k - d,
{
    if d < k {
        lemma_nth_ancestor_none_after(bs, node, d, (k - 1) as nat);
    }
}

impl Session {
    /// Builds a session from its blocks: the uuid index, the parent links (a block
    /// whose parent is missing is a root), children in file order, the per-type and
    /// per-tool indexes, and the chronological order.
    pub fn build(
        blocks: Vec<Block>,
        provenance: HashMap<NodeId, Vec<RawLineRef>>,
        session_id: Option<String>,
        file_path: String,
    ) -> (s: Session)
        ensures
            s.wf(),
            s.blocks@ == blocks@,
            s.provenance@ == provenance@,
            s.session_id == session_id,
            s.file_path == file_path,
            s.parent_map@.len() == blocks@.len(),
            forall|i: int|
                0 <= i < blocks@.len() ==> match #[trigger] s.parent_map@[i] {
                    Some(p) => parent_node(blocks@, i) == Some(p as int),
                    None => parent_node(blocks@, i) is None,
                },
            enumerates(s.roots@, blocks@.len() as int, |i: int| parent_node(blocks@, i) is None),
            s.children@.len() == blocks@.len(),
            forall|p: int|
                0 <= p < blocks@.len() ==> enumerates(
                    #[trigger] s.children@[p]@,
                    blocks@.len() as int,
                    |i: int| parent_node(blocks@, i) == Some(p),
                ),
    {
        let uuid_index = build_uuid_index(&blocks);
        let parent_map = build_parents(&blocks, &uuid_index);
        let children = build_children(&parent_map, Ghost(blocks@));
        let roots = build_roots(&parent_map, Ghost(blocks@));
        let by_type = build_by_type(&blocks);
        let (by_tool_name, tool_name_index) = build_tool_groups(&blocks);
        let chronological = chronological_order(&blocks);
        Session {
            blocks,
            uuid_index,
            children,
            parent_map,
            roots,
            by_type,
            by_tool_name,
            tool_name_index,
            chronological,
            provenance,
            session_id,
            file_path,
        }
    }

    /// The block with the given index.
    pub fn block(&self, id: NodeId) -> (b: &Block)
        requires
            id < self.blocks@.len(),
        ensures
            *b == self.blocks@[id as int],
    {
        &self.blocks[id]
    }

    /// The children of a block, in file order (none for an unknown index).
    pub fn children_of(&self, node: NodeId) -> (c: &[NodeId])
        requires
            self.wf(),
        ensures
            enumerates(
                c@,
                self.blocks@.len() as int,
                |i: int| parent_node(self.blocks@, i) == Some(node as int),
            ),
    {
        if node < self.children.len() {
            self.children[node].as_slice()
        } else {
            proof {
                let bs = self.blocks@;
                assert forall|i: int|
                    0 <= i < bs.len() && #[trigger] parent_node(bs, i) == Some(node as int)
                    implies false by {
                    lemma_parent_node_range(bs, i);
                }
            }
            &[]
        }
    }

    /// The parent of a block, when its parent uuid names a block of the session.
    pub fn parent_of(&self, node: NodeId) -> (p: Option<NodeId>)
        requires
            self.wf(),
        ensures
            match p {
                Some(q) => parent_step(self.blocks@, node as int) == Some(q as int),
                None => parent_step(self.blocks@, node as int) is None,
            },
    {
        if node < self.parent_map.len() {
            self.parent_map[node]
        } else {
            None
        }
    }

    /// The blocks of one type, in file order.
    pub fn blocks_of_type(&self, t: BlockType) -> (ids: &[NodeId])
        requires
            self.wf(),
        ensures
            enumerates(
                ids@,
                self.blocks@.len() as int,
                |i: int| spec_block_type(self.blocks@[i]) == t,
            ),
    {
        let slot = slot_of(t);
        proof {
            assert(enumerates(
                self.by_type@[type_slot(t)]@,
                self.blocks@.len() as int,
                |i: int| spec_block_type(self.blocks@[i]) == t,
            ));
        }
        self.by_type[slot].as_slice()
    }

    /// The tool blocks of the named tool, in file order.
    pub fn tools_by_name(&self, name: &str) -> (ids: &[NodeId])
        requires
            self.wf(),
        ensures
            enumerates(
                ids@,
                self.blocks@.len() as int,
                |i: int| is_tool_named(self.blocks@, i, name@),
            ),
    {
        match self.tool_name_index.get(name) {
            Some(g) => {
                let g = *g;
                proof {
                    assert(self.tool_name_index@.contains_key(name@));
                    let (nm, ids) = self.by_tool_name@[g as int];
                    assert(nm@ == name@);
                }
                self.by_tool_name[g].1.as_slice()
            },
            None => {
                proof {
                    assert(!self.tool_name_index@.contains_key(name@));
                }
                &[]
            },
        }
    }

    /// The block with the given uuid (the last one, when several share it).
    pub fn node_for_uuid(&self, uuid: &str) -> (n: Option<NodeId>)
        requires
            self.wf(),
        ensures
            match n {
                Some(i) => uuid_node(self.blocks@, uuid@) == Some(i as int),
                None => uuid_node(self.blocks@, uuid@) is None,
            },
    {
        match self.uuid_index.get(uuid) {
            Some(i) => {
                proof {
                    assert(self.uuid_index@.contains_key(uuid@));
                }
                Some(*i)
            },
            None => {
                proof {
                    assert(!self.uuid_index@.contains_key(uuid@));
                }
                None
            },
        }
    }

    /// The ancestors of a block, nearest first: its parent, that block's parent, and so
    /// on up to a block without a parent.
    pub fn ancestors(&self, node: NodeId) -> (r: Vec<NodeId>)
        requires
            self.wf(),
            chain_ends(self.blocks@, node as int),
        ensures
            nth_ancestor(self.blocks@, node as int, (r@.len() + 1) as nat) is None,
            forall|j: int|
                0 <= j < r@.len() ==> nth_ancestor(self.blocks@, node as int, (j + 1) as nat)
                    == Some(#[trigger] r@[j] as int),
    {
        let ghost bs = self.blocks@;
        let ghost d: nat = choose|d: nat| #[trigger] nth_ancestor(bs, node as int, d) is None;
        let mut r: Vec<NodeId> = Vec::new();
        let mut current = node;
        loop
            invariant
                self.wf(),
                bs == self.blocks@,
                nth_ancestor(bs, node as int, d) is None,
                nth_ancestor(bs, node as int, r@.len() as nat) == Some(current as int),
                forall|j: int|
                    0 <= j < r@.len() ==> nth_ancestor(bs, node as int, (j + 1) as nat) == Some(
                        #[trigger] r@[j] as int,
                    ),
            ensures
                nth_ancestor(bs, node as int, (r@.len() + 1) as nat) is None,
                forall|j: int|
                    0 <= j < r@.len() ==> nth_ancestor(bs, node as int, (j + 1) as nat) == Some(
                        #[trigger] r@[j] as int,
                    ),
            decreases d - r@.len(),
        {
            proof {
                if d <= r@.len() {
                    lemma_nth_ancestor_none_after(bs, node as int, d, r@.len() as nat);
                }
            }
            match self.parent_of(current) {
                Some(p) => {
                    r.push(p);
                    current = p;
                },
                None => {
                    break;
                },
            }
        }
        r
    }
}

// ─── Turns ──────────────────────────────────────────────────────────────────

/// A prompt: a user block that is not meta and has text content. Each prompt starts a
/// turn.
pub open spec fn is_prompt(b: Block) -> bool {
    b matches Block::User(u) && !u.is_meta && u.content is Some
}

/// The positions in `c` of the blocks that are prompts, in order.
pub open spec fn prompt_positions(bs: Seq<Block>, c: Seq<usize>) -> Seq<int>
    decreases c.len(),
{
    if c.len() == 0 {
        Seq::empty()
    } else {
        let rest = prompt_positions(bs, c.drop_last());
        if is_prompt(bs[c.last() as int]) {
            rest.push(c.len() - 1)
        } else {
            rest
        }
    }
}

/// The blocks of `s` that have type `t`, in order.
pub open spec fn of_type(bs: Seq<Block>, s: Seq<usize>, t: BlockType) -> Seq<usize>
    decreases s.len(),
{
    if s.len() == 0 {
        Seq::empty()
    } else {
        let rest = of_type(bs, s.drop_last(), t);
        if spec_block_type(bs[s.last() as int]) == t {
            rest.push(s.last())
        } else {
            rest
        }
    }
}

/// The four token components of a usage.
pub open spec fn usage_parts(u: TokenUsage) -> (int, int, int, int) {
    (
        u.input_tokens as int,
        u.output_tokens as int,
        u.cache_creation_input_tokens as int,
        u.cache_read_input_tokens as int,
    )
}

/// The component-wise sum of the token usage of the blocks of `s`.
pub open spec fn usage_sum(bs: Seq<Block>, s: Seq<usize>) -> (int, int, int, int)
    decreases s.len(),
{
    if s.len() == 0 {
        (0, 0, 0, 0)
    } else {
        let r = usage_sum(bs, s.drop_last());
        match spec_tokens(bs[s.last() as int]) {
            Some(t) => (
                r.0 + t.input_tokens,
                r.1 + t.output_tokens,
                r.2 + t.cache_creation_input_tokens,
                r.3 + t.cache_read_input_tokens,
            ),
            None => r,
        }
    }
}

/// The duration of the last turn-duration system block of `s`.
pub open spec fn last_duration(bs: Seq<Block>, s: Seq<usize>) -> Option<u64>
    decreases s.len(),
{
    if s.len() == 0 {
        None
    } else {
        match spec_duration_ms(bs[s.last() as int]) {
            Some(d) => Some(d),
            None => last_duration(bs, s.drop_last()),
        }
    }
}

/// The sum of the total tokens of the blocks of `s`.
pub open spec fn sum_at(bs: Seq<Block>, s: Seq<usize>) -> int
    decreases s.len(),
{
    if s.len() == 0 {
        0
    } else {
        sum_at(bs, s.drop_last()) + block_token_total(bs[s.last() as int])
    }
}

/// No index occurs twice in `s`, and each names a block.
pub open spec fn distinct_indices(s: Seq<usize>, n: int) -> bool {
    &&& forall|i: int| 0 <= i < s.len() ==> s[i] < n
    &&& forall|i: int, j: int| 0 <= i < j < s.len() ==> s[i] != s[j]
}

/// The end position (exclusive) in `c` of turn `k`: the next prompt, or the end of `c`.
pub open spec fn turn_end(p: Seq<int>, k: int, len: int) -> int {
    if k + 1 < p.len() {
        p[k + 1]
    } else {
        len
    }
}

/// `t` is turn `k` of the chronological order `c`: it starts at the `k`-th prompt and
/// runs to the next prompt; its lists pick the blocks after the prompt by type; its
/// tokens are the sum over those blocks; its duration is the last one recorded.
pub open spec fn turn_matches(t: Turn, k: int, bs: Seq<Block>, c: Seq<usize>) -> bool {
    let p = prompt_positions(bs, c);
    let start = p[k];
    let end = turn_end(p, k, c.len() as int);
    let rest = c.subrange(start + 1, end);
    &&& 0 <= k < p.len()
    &&& t.index == k
    &&& t.user_block == c[start]
    &&& t.all_blocks@ == c.subrange(start, end)
    &&& t.tool_blocks@ == of_type(bs, rest, BlockType::Tool)
    &&& t.assistant_blocks@ == of_type(bs, rest, BlockType::Assistant)
    &&& t.system_blocks@ == of_type(bs, rest, BlockType::System)
    &&& usage_parts(t.total_tokens) == usage_sum(bs, rest)
    &&& t.duration_ms == last_duration(bs, rest)
}

pub proof fn lemma_sum_at_nonneg(bs: Seq<Block>, s: Seq<usize>)
    ensures
        sum_at(bs, s) >= 0,
    decreases s.len(),
{
    if s.len() > 0 {
        lemma_sum_at_nonneg(bs, s.drop_last());
    }
}

/// The four component sums add up to the sum of the totals.
pub proof fn lemma_usage_sum_total(bs: Seq<Block>, s: Seq<usize>)
    ensures
        usage_sum(bs, s).0 + usage_sum(bs, s).1 + usage_sum(bs, s).2 + usage_sum(bs, s).3
            == sum_at(bs, s),
        usage_sum(bs, s).0 >= 0,
        usage_sum(bs, s).1 >= 0,
        usage_sum(bs, s).2 >= 0,
        usage_sum(bs, s).3 >= 0,
    decreases s.len(),
{
    if s.len() > 0 {
        lemma_usage_sum_total(bs, s.drop_last());
    }
}

proof fn lemma_sum_at_remove(bs: Seq<Block>, s: Seq<usize>, p: int)
    requires
        0 <= p < s.len(),
    ensures
        sum_at(bs, s) == sum_at(bs, s.remove(p)) + block_token_total(bs[s[p] as int]),
    decreases s.len(),
{
    if p == s.len() - 1 {
        assert(s.remove(p) =~= s.drop_last());
    } else {
        lemma_sum_at_remove(bs, s.drop_last(), p);
        assert(s.remove(p).drop_last() =~= s.drop_last().remove(p));
        assert(s.remove(p).last() == s.last());
    }
}

proof fn lemma_sum_at_drop_last_blocks(bs: Seq<Block>, s: Seq<usize>)
    requires
        bs.len() > 0,
        forall|i: int| 0 <= i < s.len() ==> s[i] < bs.len() - 1,
    ensures
        sum_at(bs, s) == sum_at(bs.drop_last(), s),
    decreases s.len(),
{
    if s.len() > 0 {
        lemma_sum_at_drop_last_blocks(bs, s.drop_last());
        assert(bs.drop_last()[s.last() as int] == bs[s.last() as int]);
    }
}

/// Summing the tokens of distinct blocks never exceeds the total of all blocks.
pub proof fn lemma_sum_at_distinct(bs: Seq<Block>, s: Seq<usize>)
    requires
        distinct_indices(s, bs.len() as int),
    ensures
        sum_at(bs, s) <= tokens_total(bs),
    decreases bs.len(),
{
    let n = bs.len() as int;
    if n == 0 {
        if s.len() > 0 {
            assert(s[0] < 0);
        }
    } else {
        let m = n - 1;
        lemma_tokens_total_nonneg(bs.drop_last());
        assert(bs.drop_last().push(bs.last()) =~= bs);
        lemma_tokens_total_push(bs.drop_last(), bs.last());
        if exists|p: int| 0 <= p < s.len() && s[p] == m {
            let p = choose|p: int| 0 <= p < s.len() && s[p] == m;
            let s2 = s.remove(p);
            lemma_sum_at_remove(bs, s, p);
            assert forall|i: int| 0 <= i < s2.len() implies s2[i] < m by {
                if i < p {
                    assert(s2[i] == s[i]);
                } else {
                    assert(s2[i] == s[i + 1]);
                }
            }
            assert forall|i: int, j: int| 0 <= i < j < s2.len() implies s2[i] != s2[j] by {
                if j < p {
                } else if i < p {
                    assert(s2[j] == s[j + 1]);
                } else {
                    assert(s2[i] == s[i + 1] && s2[j] == s[j + 1]);
                }
            }
            lemma_sum_at_drop_last_blocks(bs, s2);
            lemma_sum_at_distinct(bs.drop_last(), s2);
            assert(bs[m] == bs.last());
        } else {
            assert forall|i: int| 0 <= i < s.len() implies s[i] < m by {
                assert(s[i] != m);
            }
            lemma_sum_at_drop_last_blocks(bs, s);
            lemma_sum_at_distinct(bs.drop_last(), s);
        }
    }
}

/// The chronological order lists every block at most once.
pub proof fn lemma_chronological_distinct(bs: Seq<Block>, c: Seq<usize>)
    requires
        is_chronological(bs, c),
    ensures
        distinct_indices(c, bs.len() as int),
{
    assert forall|i: int, j: int| 0 <= i < j < c.len() implies c[i] != c[j] by {
        assert(chrono_before(bs, c[i] as int, c[j] as int));
    }
}

/// A piece of a sequence of distinct indices has distinct indices.
pub proof fn lemma_distinct_subrange(s: Seq<usize>, n: int, a: int, b: int)
    requires
        distinct_indices(s, n),
        0 <= a <= b <= s.len(),
    ensures
        distinct_indices(s.subrange(a, b), n),
{
    let t = s.subrange(a, b);
    assert forall|i: int, j: int| 0 <= i < j < t.len() implies t[i] != t[j] by {
        assert(t[i] == s[a + i] && t[j] == s[a + j]);
    }
}

/// Builds one turn while the chronological order is walked.
struct TurnBuilder {
    user_block: NodeId,
    all_blocks: Vec<NodeId>,
    tool_blocks: Vec<NodeId>,
    assistant_blocks: Vec<NodeId>,
    system_blocks: Vec<NodeId>,
    total_tokens: TokenUsage,
    duration_ms: Option<u64>,
}

impl TurnBuilder {
    /// The builder holds the turn that starts at `c[start]` and has taken the blocks up to
    /// position `end` (exclusive).
    spec fn holds(&self, bs: Seq<Block>, c: Seq<usize>, start: int, end: int) -> bool {
        let rest = c.subrange(start + 1, end);
        &&& 0 <= start < end <= c.len()
        &&& self.user_block == c[start]
        &&& self.all_blocks@ == c.subrange(start, end)
        &&& self.tool_blocks@ == of_type(bs, rest, BlockType::Tool)
        &&& self.assistant_blocks@ == of_type(bs, rest, BlockType::Assistant)
        &&& self.system_blocks@ == of_type(bs, rest, BlockType::System)
        &&& usage_parts(self.total_tokens) == usage_sum(bs, rest)
        &&& self.duration_ms == last_duration(bs, rest)
    }

    fn new(user_block: NodeId) -> (b: TurnBuilder)
        ensures
            b.user_block == user_block,
            b.all_blocks@ == seq![user_block],
            b.tool_blocks@.len() == 0,
            b.assistant_blocks@.len() == 0,
            b.system_blocks@.len() == 0,
            usage_parts(b.total_tokens) == (0int, 0int, 0int, 0int),
            b.duration_ms is None,
    {
        let mut all_blocks = Vec::new();
        all_blocks.push(user_block);
        TurnBuilder {
            user_block,
            all_blocks,
            tool_blocks: Vec::new(),
            assistant_blocks: Vec::new(),
            system_blocks: Vec::new(),
            total_tokens: TokenUsage::default(),
            duration_ms: None,
        }
    }

    /// Adds the block `id` to the turn.
    fn add_block(&mut self, id: NodeId, block: &Block)
        requires
            spec_tokens(*block) matches Some(t) ==> old(self).total_tokens.can_merge(t),
        ensures
            final(self).user_block == old(self).user_block,
            final(self).all_blocks@ == old(self).all_blocks@.push(id),
            final(self).tool_blocks@ == if spec_block_type(*block) == BlockType::Tool {
                old(self).tool_blocks@.push(id)
            } else {
                old(self).tool_blocks@
            },
            final(self).assistant_blocks@ == if spec_block_type(*block) == BlockType::Assistant {
                old(self).assistant_blocks@.push(id)
            } else {
                old(self).assistant_blocks@
            },
            final(self).system_blocks@ == if spec_block_type(*block) == BlockType::System {
                old(self).system_blocks@.push(id)
            } else {
                old(self).system_blocks@
            },
            final(self).total_tokens == match spec_tokens(*block) {
                Some(t) => old(self).total_tokens.plus(t),
                None => old(self).total_tokens,
            },
            final(self).duration_ms == match spec_duration_ms(*block) {
                Some(d) => Some(d),
                None => old(self).duration_ms,
            },
    {
        self.all_blocks.push(id);
        match block {
            Block::Assistant(a) => {
                self.assistant_blocks.push(id);
                self.total_tokens.merge(&a.tokens);
            },
            Block::Tool(_) => {
                self.tool_blocks.push(id);
            },
            Block::System(s) => {
                self.system_blocks.push(id);
                if let SystemSubtype::TurnDuration { duration_ms } = &s.subtype {
                    self.duration_ms = Some(*duration_ms);
                }
            },
            Block::User(_) => {},
        }
    }

    fn finish(self, index: usize) -> (t: Turn)
        ensures
            t.index == index,
            t.user_block == self.user_block,
            t.all_blocks == self.all_blocks,
            t.tool_blocks == self.tool_blocks,
            t.assistant_blocks == self.assistant_blocks,
            t.system_blocks == self.system_blocks,
            t.total_tokens == self.total_tokens,
            t.duration_ms == self.duration_ms,
    {
        Turn {
            index,
            user_block: self.user_block,
            all_blocks: self.all_blocks,
            tool_blocks: self.tool_blocks,
            assistant_blocks: self.assistant_blocks,
            system_blocks: self.system_blocks,
            total_tokens: self.total_tokens,
            duration_ms: self.duration_ms,
        }
    }
}

/// The state of the walk over the chronological order after `i` blocks: one finished turn
/// per prompt seen except the last, whose turn is still being built.
spec fn walk_ok(
    bs: Seq<Block>,
    c: Seq<usize>,
    i: int,
    turns: Seq<Turn>,
    cur: Option<TurnBuilder>,
) -> bool {
    let p = prompt_positions(bs, c.take(i));
    &&& (cur is None <==> p.len() == 0)
    &&& (p.len() == 0 ==> turns.len() == 0)
    &&& (p.len() > 0 ==> turns.len() == p.len() - 1 && cur.unwrap().holds(bs, c, p.last(), i))
    &&& forall|k: int| 0 <= k < turns.len() ==> turn_matches(#[trigger] turns[k], k, bs, c.take(i))
}

proof fn lemma_prompt_positions_range(bs: Seq<Block>, c: Seq<usize>)
    ensures
        forall|k: int|
            0 <= k < prompt_positions(bs, c).len() ==> 0 <= #[trigger] prompt_positions(bs, c)[k]
                < c.len(),
        forall|k1: int, k2: int|
            0 <= k1 < k2 < prompt_positions(bs, c).len() ==> prompt_positions(bs, c)[k1]
                < prompt_positions(bs, c)[k2],
    decreases c.len(),
{
    if c.len() > 0 {
        lemma_prompt_positions_range(bs, c.drop_last());
        let p0 = prompt_positions(bs, c.drop_last());
        let p = prompt_positions(bs, c);
        if is_prompt(bs[c.last() as int]) {
            assert(p == p0.push(c.len() - 1));
            assert forall|k: int| 0 <= k < p.len() implies 0 <= #[trigger] p[k] < c.len() by {
                if k < p0.len() {
                    assert(p[k] == p0[k]);
                }
            }
            assert forall|k1: int, k2: int| 0 <= k1 < k2 < p.len() implies p[k1] < p[k2] by {
                assert(p[k1] == p0[k1]);
                if k2 < p0.len() {
                    assert(p[k2] == p0[k2]);
                }
            }
        } else {
            assert(p == p0);
        }
    }
}

proof fn lemma_turn_matches_extend(t: Turn, k: int, bs: Seq<Block>, c: Seq<usize>, i: int)
    requires
        0 <= i < c.len(),
        turn_matches(t, k, bs, c.take(i)),
        !is_prompt(bs[c[i] as int]),
        k + 1 < prompt_positions(bs, c.take(i)).len(),
    ensures
        turn_matches(t, k, bs, c.take(i + 1)),
{
    let c0 = c.take(i);
    let c1 = c.take(i + 1);
    assert(c1.drop_last() =~= c0);
    let p = prompt_positions(bs, c0);
    assert(prompt_positions(bs, c1) == p);
    lemma_prompt_positions_range(bs, c0);
    let start = p[k];
    let end = p[k + 1];
    assert(c1.subrange(start, end) =~= c0.subrange(start, end));
    assert(c1.subrange(start + 1, end) =~= c0.subrange(start + 1, end));
}

proof fn lemma_turn_matches_new_prompt(t: Turn, k: int, bs: Seq<Block>, c: Seq<usize>, i: int)
    requires
        0 <= i < c.len(),
        turn_matches(t, k, bs, c.take(i)),
        is_prompt(bs[c[i] as int]),
        k + 1 < prompt_positions(bs, c.take(i)).len(),
    ensures
        turn_matches(t, k, bs, c.take(i + 1)),
{
    let c0 = c.take(i);
    let c1 = c.take(i + 1);
    assert(c1.drop_last() =~= c0);
    let p = prompt_positions(bs, c0);
    assert(prompt_positions(bs, c1) == p.push(i));
    lemma_prompt_positions_range(bs, c0);
    let start = p[k];
    let end = p[k + 1];
    assert(c1.subrange(start, end) =~= c0.subrange(start, end));
    assert(c1.subrange(start + 1, end) =~= c0.subrange(start + 1, end));
}

/// The token total of a prefix never exceeds that of the whole sequence.
pub proof fn lemma_tokens_total_prefix_mono(bs: Seq<Block>, k: int)
    requires
        0 <= k <= bs.len(),
    ensures
        tokens_total(bs.take(k)) <= tokens_total(bs),
    decreases bs.len() - k,
{
    if k < bs.len() {
        assert(bs.take(k + 1) =~= bs.take(k).push(bs[k]));
        lemma_tokens_total_push(bs.take(k), bs[k]);
        lemma_tokens_total_element(bs, k);
        lemma_tokens_total_prefix_mono(bs, k + 1);
    } else {
        assert(bs.take(k) =~= bs);
    }
}

impl Session {
    /// Whether the sum of all the blocks' token totals fits in a `u64`.
    pub fn tokens_fit(&self) -> (r: bool)
        ensures
            r == (tokens_total(self.blocks@) <= u64::MAX),
    {
        let mut sum: u64 = 0;
        let mut i: usize = 0;
        while i < self.blocks.len()
            invariant
                0 <= i <= self.blocks@.len(),
                sum == tokens_total(self.blocks@.take(i as int)),
            decreases self.blocks@.len() - i,
        {
            proof {
                assert(self.blocks@.take(i + 1) =~= self.blocks@.take(i as int).push(
                    self.blocks@[i as int],
                ));
                lemma_tokens_total_push(self.blocks@.take(i as int), self.blocks@[i as int]);
            }
            let b = match self.blocks[i].tokens() {
                Some(t) => {
                    let parts = t.input_tokens.checked_add(t.cache_creation_input_tokens);
                    let parts = match parts {
                        Some(x) => x.checked_add(t.cache_read_input_tokens),
                        None => None,
                    };
                    match parts {
                        Some(x) => x.checked_add(t.output_tokens),
                        None => None,
                    }
                },
                None => Some(0),
            };
            let next = match b {
                Some(v) => sum.checked_add(v),
                None => None,
            };
            match next {
                Some(v) => {
                    sum = v;
                },
                None => {
                    proof {
                        lemma_tokens_total_prefix_mono(self.blocks@, i + 1);
                    }
                    return false;
                },
            }
            i = i + 1;
        }
        proof {
            assert(self.blocks@.take(i as int) =~= self.blocks@);
        }
        true
    }

    /// The turns of the session. Walking the blocks in chronological order, each prompt
    /// (a user block that is not meta and has content) starts a turn; the blocks up to
    /// the next prompt belong to it. Blocks before the first prompt belong to no turn.
    pub fn turns(&self) -> (ts: Vec<Turn>)
        requires
            self.wf(),
            tokens_total(self.blocks@) <= u64::MAX,
        ensures
            ts@.len() == prompt_positions(self.blocks@, self.chronological@).len(),
            forall|k: int|
                0 <= k < ts@.len() ==> turn_matches(
                    #[trigger] ts@[k],
                    k,
                    self.blocks@,
                    self.chronological@,
                ),
            forall|k: int|
                0 <= k < ts@.len() ==> (#[trigger] ts@[k]).total_tokens.spec_total() <= u64::MAX,
    {
        let ghost bs = self.blocks@;
        let ghost c = self.chronological@;
        let ghost n = bs.len() as int;
        proof {
            lemma_chronological_distinct(bs, c);
            assert(c.take(0) =~= Seq::<usize>::empty());
        }
        let mut turns: Vec<Turn> = Vec::new();
        let mut current: Option<TurnBuilder> = None;
        let mut i: usize = 0;
        while i < self.chronological.len()
            invariant
                self.wf(),
                bs == self.blocks@,
                c == self.chronological@,
                n == bs.len(),
                is_chronological(bs, c),
                distinct_indices(c, n),
                tokens_total(bs) <= u64::MAX,
                0 <= i <= c.len(),
                walk_ok(bs, c, i as int, turns@, current),
            decreases c.len() - i,
        {
            let ghost c0 = c.take(i as int);
            let ghost c1 = c.take(i + 1);
            let ghost p = prompt_positions(bs, c0);
            let ghost t0 = turns@;
            proof {
                assert(c1.drop_last() =~= c0);
                assert(c1.last() == c[i as int]);
            }
            let id = self.chronological[i];
            let block = self.block(id);
            let prompt = match block {
                Block::User(u) => !u.is_meta && u.content.is_some(),
                _ => false,
            };
            if prompt {
                proof {
                    assert(prompt_positions(bs, c1) == p.push(i as int));
                }
                match current {
                    Some(b) => {
                        let k = turns.len();
                        let t = b.finish(k);
                        proof {
                            let start = p.last();
                            assert(c1.subrange(start, i as int) =~= c.subrange(start, i as int));
                            assert(c1.subrange(start + 1, i as int) =~= c.subrange(
                                start + 1,
                                i as int,
                            ));
                            assert(turn_matches(t, k as int, bs, c1));
                        }
                        turns.push(t);
                    },
                    None => {},
                }
                current = Some(TurnBuilder::new(id));
                proof {
                    let e = c.subrange(i + 1, i + 1);
                    assert(c.subrange(i as int, i + 1) =~= seq![id]);
                    assert(e =~= Seq::<usize>::empty());
                    assert(of_type(bs, e, BlockType::Tool) =~= current.unwrap().tool_blocks@);
                    assert(of_type(bs, e, BlockType::Assistant) =~= current.unwrap().assistant_blocks@);
                    assert(of_type(bs, e, BlockType::System) =~= current.unwrap().system_blocks@);
                    assert(current.unwrap().holds(bs, c, i as int, i + 1));
                    assert forall|k: int| 0 <= k < turns@.len() implies turn_matches(
                        #[trigger] turns@[k],
                        k,
                        bs,
                        c1,
                    ) by {
                        if k < t0.len() {
                            assert(turns@[k] == t0[k]);
                            lemma_turn_matches_new_prompt(t0[k], k, bs, c, i as int);
                        }
                    }
                }
            } else {
                proof {
                    assert(prompt_positions(bs, c1) == p);
                    assert forall|k: int| 0 <= k < turns@.len() implies turn_matches(
                        #[trigger] turns@[k],
                        k,
                        bs,
                        c1,
                    ) by {
                        lemma_turn_matches_extend(turns@[k], k, bs, c, i as int);
                    }
                }
                if current.is_some() {
                    let mut b = current.unwrap();
                    let ghost start = p.last();
                    let ghost rest0 = c.subrange(start + 1, i as int);
                    let ghost rest1 = c.subrange(start + 1, i + 1);
                    proof {
                        assert(rest1.drop_last() =~= rest0);
                        assert(rest1.last() == id);
                        lemma_distinct_subrange(c, n, start + 1, i + 1);
                        lemma_sum_at_distinct(bs, rest1);
                        lemma_usage_sum_total(bs, rest1);
                        assert(c.subrange(start, i + 1) =~= c.subrange(start, i as int).push(id));
                    }
                    b.add_block(id, block);
                    proof {
                        assert(b.holds(bs, c, start, i + 1));
                    }
                    current = Some(b);
                }
            }
            i = i + 1;
        }
        proof {
            assert(c.take(i as int) =~= c);
        }
        match current {
            Some(b) => {
                let k = turns.len();
                let t = b.finish(k);
                turns.push(t);
            },
            None => {},
        }
        proof {
            lemma_prompt_positions_range(bs, c);
            assert forall|k: int| 0 <= k < turns@.len() implies (#[trigger] turns@[k]).total_tokens.spec_total()
                <= u64::MAX by {
                let p = prompt_positions(bs, c);
                let start = p[k];
                let end = turn_end(p, k, c.len() as int);
                let rest = c.subrange(start + 1, end);
                assert(turn_matches(turns@[k], k, bs, c));
                lemma_usage_sum_total(bs, rest);
                lemma_distinct_subrange(c, n, start + 1, end);
                lemma_sum_at_distinct(bs, rest);
            }
        }
        turns
    }
}

// ─── Laws of the session ────────────────────────────────────────────────────

/// The chronological order lists every block exactly once, earlier timestamps first and
/// equal timestamps in file order.
pub proof fn lemma_chronological_permutation(s: Session)
    requires
        s.wf(),
    ensures
        s.chronological@.len() == s.blocks@.len(),
        forall|i: int, j: int|
            0 <= i < j < s.chronological@.len() ==> s.chronological@[i] != s.chronological@[j],
        forall|x: usize| (x as int) < s.blocks@.len() ==> #[trigger] s.chronological@.contains(x),
        forall|i: int, j: int|
            0 <= i < j < s.chronological@.len() ==> chrono_before(
                s.blocks@,
                s.chronological@[i] as int,
                s.chronological@[j] as int,
            ),
{
    let bs = s.blocks@;
    let c = s.chronological@;
    lemma_chronological_distinct(bs, c);
    crate::analysis::order::lemma_distinct_covers(c, bs.len() as int);
}

/// Parent links and child lists agree: `p` is the parent of `c` exactly when `c` is
/// among the children of `p`; a block is a root exactly when it has no parent.
pub proof fn lemma_parent_child(s: Session, c: usize, p: usize)
    requires
        s.wf(),
        c < s.blocks@.len(),
        p < s.blocks@.len(),
    ensures
        (s.parent_map@[c as int] == Some(p)) <==> s.children@[p as int]@.contains(c),
        (s.parent_map@[c as int] is None) <==> s.roots@.contains(c),
{
    let bs = s.blocks@;
    let n = bs.len() as int;
    let cp = s.children@[p as int]@;
    assert(enumerates(cp, n, |i: int| parent_node(bs, i) == Some(p as int)));
    assert(enumerates(s.roots@, n, |i: int| parent_node(bs, i) is None));
    if cp.contains(c) {
        let k = choose|k: int| 0 <= k < cp.len() && cp[k] == c;
        assert(parent_node(bs, cp[k] as int) == Some(p as int));
    }
    if s.roots@.contains(c) {
        let k = choose|k: int| 0 <= k < s.roots@.len() && s.roots@[k] == c;
        assert(parent_node(bs, s.roots@[k] as int) is None);
    }
    let pred_c = |i: int| parent_node(bs, i) == Some(p as int);
    let pred_r = |i: int| parent_node(bs, i) is None;
    assert(pred_c(c as int) ==> cp.contains(c));
    assert(pred_r(c as int) ==> s.roots@.contains(c));
    match s.parent_map@[c as int] {
        Some(q) => {
            assert(parent_node(bs, c as int) == Some(q as int));
        },
        None => {
            assert(parent_node(bs, c as int) is None);
        },
    }
}

/// The blocks of the first `k` turns, one turn after the other.
pub open spec fn turns_blocks(ts: Seq<Turn>, k: int) -> Seq<usize>
    decreases k,
{
    if k <= 0 {
        Seq::empty()
    } else {
        turns_blocks(ts, k - 1) + ts[k - 1].all_blocks@
    }
}

/// The turns partition the conversation: one after the other, their blocks are exactly
/// the chronological order from the first prompt on.
pub proof fn lemma_turns_partition(bs: Seq<Block>, c: Seq<usize>, ts: Seq<Turn>)
    requires
        ts.len() == prompt_positions(bs, c).len(),
        ts.len() > 0,
        forall|k: int| 0 <= k < ts.len() ==> turn_matches(#[trigger] ts[k], k, bs, c),
    ensures
        turns_blocks(ts, ts.len() as int) == c.subrange(prompt_positions(bs, c)[0], c.len() as int),
{
    let p = prompt_positions(bs, c);
    lemma_prompt_positions_range(bs, c);
    lemma_turns_prefix(bs, c, ts, ts.len() as int);
    assert(turn_end(p, ts.len() - 1, c.len() as int) == c.len());
}

proof fn lemma_turns_prefix(bs: Seq<Block>, c: Seq<usize>, ts: Seq<Turn>, k: int)
    requires
        ts.len() == prompt_positions(bs, c).len(),
        1 <= k <= ts.len(),
        forall|k: int| 0 <= k < ts.len() ==> turn_matches(#[trigger] ts[k], k, bs, c),
    ensures
        turns_blocks(ts, k) == c.subrange(
            prompt_positions(bs, c)[0],
            turn_end(prompt_positions(bs, c), k - 1, c.len() as int),
        ),
    decreases k,
{
    let p = prompt_positions(bs, c);
    lemma_prompt_positions_range(bs, c);
    assert(turn_matches(ts[k - 1], k - 1, bs, c));
    if k == 1 {
        assert(turns_blocks(ts, 0) =~= Seq::<usize>::empty());
        assert(turns_blocks(ts, 1) =~= ts[0].all_blocks@);
    } else {
        lemma_turns_prefix(bs, c, ts, k - 1);
        assert(turn_end(p, k - 2, c.len() as int) == p[k - 1]);
        let a = p[0];
        let m = p[k - 1];
        let e = turn_end(p, k - 1, c.len() as int);
        assert(a <= m) by {
            if k - 1 > 0 {
                assert(p[0] < p[k - 1]);
            }
        }
        assert(m <= e) by {
            if k < p.len() {
                assert(p[k - 1] < p[k]);
            }
        }
        assert(c.subrange(a, m) + c.subrange(m, e) =~= c.subrange(a, e));
    }
}


/// A block is in `of_type(bs, s, t)` exactly when it is in `s` and has type `t`.
proof fn lemma_of_type_contains(bs: Seq<Block>, s: Seq<usize>, t: BlockType)
    ensures
        forall|x: usize|
            #[trigger] of_type(bs, s, t).contains(x) <==> (s.contains(x) && spec_block_type(
                bs[x as int],
            ) == t),
    decreases s.len(),
{
    if s.len() > 0 {
        let s0 = s.drop_last();
        lemma_of_type_contains(bs, s0, t);
        let r0 = of_type(bs, s0, t);
        assert(s =~= s0.push(s.last()));
        assert forall|x: usize| #[trigger] of_type(bs, s, t).contains(x) <==> (s.contains(x)
            && spec_block_type(bs[x as int]) == t) by {
            if s.contains(x) && x != s.last() {
                let i = choose|i: int| 0 <= i < s.len() && s[i] == x;
                assert(s0[i] == x);
            }
            if s0.contains(x) {
                let i = choose|i: int| 0 <= i < s0.len() && s0[i] == x;
                assert(s[i] == x);
            }
            if spec_block_type(bs[s.last() as int]) == t {
                let r = r0.push(s.last());
                assert(r[r.len() - 1] == s.last());
                if r0.contains(x) {
                    let i = choose|i: int| 0 <= i < r0.len() && r0[i] == x;
                    assert(r[i] == x);
                }
                if r.contains(x) && x != s.last() {
                    let i = choose|i: int| 0 <= i < r.len() && r[i] == x;
                    assert(r0[i] == x);
                }
            }
            assert(s[s.len() - 1] == s.last());
        }
    }
}

/// Each prompt position holds a prompt, and each prompt of `c` has its position listed.
proof fn lemma_prompt_positions_exact(bs: Seq<Block>, c: Seq<usize>)
    ensures
        forall|k: int|
            0 <= k < prompt_positions(bs, c).len() ==> is_prompt(
                bs[c[#[trigger] prompt_positions(bs, c)[k]] as int],
            ),
        forall|j: int|
            0 <= j < c.len() && is_prompt(bs[c[j] as int]) ==> #[trigger] prompt_positions(
                bs,
                c,
            ).contains(j),
    decreases c.len(),
{
    if c.len() > 0 {
        let c0 = c.drop_last();
        lemma_prompt_positions_exact(bs, c0);
        let p0 = prompt_positions(bs, c0);
        let p = prompt_positions(bs, c);
        assert forall|k: int| 0 <= k < p.len() implies is_prompt(bs[c[#[trigger] p[k]] as int]) by {
            if k < p0.len() {
                assert(p[k] == p0[k]);
                lemma_prompt_positions_range(bs, c0);
                assert(c[p0[k]] == c0[p0[k]]);
            }
        }
        assert forall|j: int| 0 <= j < c.len() && is_prompt(bs[c[j] as int]) implies #[trigger] p.contains(
            j,
        ) by {
            if j < c.len() - 1 {
                assert(c0[j] == c[j]);
                assert(p0.contains(j));
                let k = choose|k: int| 0 <= k < p0.len() && p0[k] == j;
                assert(p[k] == j);
            } else {
                assert(p[p.len() - 1] == j);
            }
        }
    }
}

/// What a turn holds: it opens with its prompt, no other block of it is a prompt, and
/// its tool, assistant and system blocks are exactly the blocks after the prompt that
/// have that type.
pub proof fn lemma_turn_contents(t: Turn, k: int, bs: Seq<Block>, c: Seq<usize>)
    requires
        turn_matches(t, k, bs, c),
    ensures
        t.all_blocks@.len() >= 1,
        t.all_blocks@[0] == t.user_block,
        is_prompt(bs[t.user_block as int]),
        forall|i: int|
            1 <= i < t.all_blocks@.len() ==> !is_prompt(bs[#[trigger] t.all_blocks@[i] as int]),
        forall|x: usize|
            #[trigger] t.tool_blocks@.contains(x) <==> (t.all_blocks@.drop_first().contains(x)
                && spec_block_type(bs[x as int]) == BlockType::Tool),
        forall|x: usize|
            #[trigger] t.assistant_blocks@.contains(x) <==> (t.all_blocks@.drop_first().contains(x)
                && spec_block_type(bs[x as int]) == BlockType::Assistant),
        forall|x: usize|
            #[trigger] t.system_blocks@.contains(x) <==> (t.all_blocks@.drop_first().contains(x)
                && spec_block_type(bs[x as int]) == BlockType::System),
{
    let p = prompt_positions(bs, c);
    let start = p[k];
    let end = turn_end(p, k, c.len() as int);
    let rest = c.subrange(start + 1, end);
    lemma_prompt_positions_range(bs, c);
    lemma_prompt_positions_exact(bs, c);
    assert(0 <= start < c.len());
    assert(start < end <= c.len()) by {
        if k + 1 < p.len() {
            assert(p[k] < p[k + 1]);
        }
    }
    assert(t.all_blocks@.drop_first() =~= rest);
    assert(is_prompt(bs[c[p[k]] as int]));
    assert forall|i: int| 1 <= i < t.all_blocks@.len() implies !is_prompt(
        bs[#[trigger] t.all_blocks@[i] as int],
    ) by {
        let j = start + i;
        assert(t.all_blocks@[i] == c[j]);
        if is_prompt(bs[c[j] as int]) {
            assert(p.contains(j));
            let k2 = choose|k2: int| 0 <= k2 < p.len() && p[k2] == j;
            if k2 <= k {
                if k2 < k {
                    assert(p[k2] < p[k]);
                }
            } else if k2 > k + 1 {
                assert(p[k + 1] < p[k2]);
            }
        }
    }
    lemma_of_type_contains(bs, rest, BlockType::Tool);
    lemma_of_type_contains(bs, rest, BlockType::Assistant);
    lemma_of_type_contains(bs, rest, BlockType::System);
}

} // verus!
