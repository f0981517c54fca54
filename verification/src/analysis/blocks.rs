use vstd::prelude::*;

use super::tokens::{token_value, token_value_of};
use crate::model::block::{
    opt_view, spec_block_type, spec_timestamp, spec_uuid, tokens_total, lemma_tokens_total_element, Block,
    BlockInfo, SystemSubtype,
};
use crate::model::session::{
    is_tool_named, lemma_turn_contents, prompt_positions, turn_end, turn_matches, Session,
};
use crate::model::turn::Turn;
use crate::model::types::{block_type_name, BlockType, NodeId};
use crate::text::{
    copy_str, decimal_digits, starts_with, str_eq, truncate, truncated,
    u64_to_string,
};

verus! {

// ─── Block types ────────────────────────────────────────────────────────────

/// The block type a filter names: `user`, `assistant`, `tool` or `system`; any other
/// name means user.
pub open spec fn type_of_name(s: Seq<char>) -> BlockType {
    if s == "assistant"@ {
        BlockType::Assistant
    } else if s == "tool"@ {
        BlockType::Tool
    } else if s == "system"@ {
        BlockType::System
    } else {
        BlockType::User
    }
}

/// A type filter names the type whose display name it is: reading back the name of any
/// block type gives that type, and the four names are different.
pub proof fn lemma_type_names_round_trip()
    ensures
        forall|t: BlockType| #[trigger] type_of_name(block_type_name(t)) == t,
        forall|t: BlockType, u: BlockType| t != u ==> block_type_name(t) != block_type_name(u),
{
    reveal_strlit("user");
    reveal_strlit("assistant");
    reveal_strlit("tool");
    reveal_strlit("system");
    assert("user"@[0] != "assistant"@[0] && "user"@[0] != "tool"@[0] && "user"@[0] != "system"@[0]);
    assert("assistant"@[0] != "tool"@[0] && "assistant"@[0] != "system"@[0]);
    assert("tool"@[0] != "system"@[0]);
}

/// The block type a filter names (see `type_of_name`).
pub fn parse_block_type(s: &str) -> (t: BlockType)
    ensures
        t == type_of_name(s@),
{
    if str_eq(s, "assistant") {
        BlockType::Assistant
    } else if str_eq(s, "tool") {
        BlockType::Tool
    } else if str_eq(s, "system") {
        BlockType::System
    } else {
        BlockType::User
    }
}

/// The number of blocks of type `t` among the first `k`.
pub open spec fn type_count(bs: Seq<Block>, t: BlockType, k: int) -> int
    decreases k,
{
    if k <= 0 {
        0
    } else {
        type_count(bs, t, k - 1) + if spec_block_type(bs[k - 1]) == t {
            1int
        } else {
            0int
        }
    }
}

proof fn lemma_type_count_bound(bs: Seq<Block>, t: BlockType, k: int)
    requires
        0 <= k,
    ensures
        0 <= type_count(bs, t, k) <= k,
    decreases k,
{
    if k > 0 {
        lemma_type_count_bound(bs, t, k - 1);
    }
}

/// Every block has exactly one type: the four counts add up to the number of blocks.
pub proof fn lemma_type_counts_add_up(bs: Seq<Block>, k: int)
    requires
        0 <= k,
    ensures
        type_count(bs, BlockType::User, k) + type_count(bs, BlockType::Assistant, k) + type_count(
            bs,
            BlockType::Tool,
            k,
        ) + type_count(bs, BlockType::System, k) == k,
    decreases k,
{
    if k > 0 {
        lemma_type_counts_add_up(bs, k - 1);
    }
}

/// The number of blocks of each type, in the order user, assistant, tool, system.
pub fn type_counts(session: &Session) -> (r: Vec<(BlockType, usize)>)
    ensures
        r@.len() == 4,
        r@[0].0 == BlockType::User,
        r@[1].0 == BlockType::Assistant,
        r@[2].0 == BlockType::Tool,
        r@[3].0 == BlockType::System,
        forall|j: int|
            0 <= j < 4 ==> (#[trigger] r@[j]).1 == type_count(
                session.blocks@,
                r@[j].0,
                session.blocks@.len() as int,
            ),
{
    let ghost bs = session.blocks@;
    let mut counts: [usize; 4] = [0, 0, 0, 0];
    let mut u: usize = 0;
    let mut a: usize = 0;
    let mut t: usize = 0;
    let mut s: usize = 0;
    let mut i: usize = 0;
    while i < session.blocks.len()
        invariant
            bs == session.blocks@,
            0 <= i <= bs.len(),
            u == type_count(bs, BlockType::User, i as int),
            a == type_count(bs, BlockType::Assistant, i as int),
            t == type_count(bs, BlockType::Tool, i as int),
            s == type_count(bs, BlockType::System, i as int),
        decreases bs.len() - i,
    {
        proof {
            lemma_type_count_bound(bs, BlockType::User, i as int);
            lemma_type_count_bound(bs, BlockType::Assistant, i as int);
            lemma_type_count_bound(bs, BlockType::Tool, i as int);
            lemma_type_count_bound(bs, BlockType::System, i as int);
        }
        match session.blocks[i].block_type() {
            BlockType::User => {
                u = u + 1;
            },
            BlockType::Assistant => {
                a = a + 1;
            },
            BlockType::Tool => {
                t = t + 1;
            },
            BlockType::System => {
                s = s + 1;
            },
        }
        i = i + 1;
    }
    let mut r: Vec<(BlockType, usize)> = Vec::new();
    r.push((BlockType::User, u));
    r.push((BlockType::Assistant, a));
    r.push((BlockType::Tool, t));
    r.push((BlockType::System, s));
    r
}

// ─── Listing blocks ─────────────────────────────────────────────────────────

/// The blocks of turn `n` (1-based) of the chronological order `c`; none when there is
/// no such turn.
pub open spec fn turn_members(bs: Seq<Block>, c: Seq<usize>, n: int) -> Seq<usize> {
    let p = prompt_positions(bs, c);
    if 1 <= n <= p.len() {
        c.subrange(p[n - 1], turn_end(p, n - 1, c.len() as int))
    } else {
        Seq::empty()
    }
}

/// Whether block `id` passes the filters: its type, its turn, its tool name.
pub open spec fn block_selected(
    bs: Seq<Block>,
    c: Seq<usize>,
    id: usize,
    type_filter: Option<Seq<char>>,
    turn_filter: Option<int>,
    tool_filter: Option<Seq<char>>,
) -> bool {
    &&& match type_filter {
        Some(t) => spec_block_type(bs[id as int]) == type_of_name(t),
        None => true,
    }
    &&& match turn_filter {
        Some(n) => turn_members(bs, c, n).contains(id),
        None => true,
    }
    &&& match tool_filter {
        Some(name) => is_tool_named(bs, id as int, name),
        None => true,
    }
}

/// The blocks of `s` that pass the filters (turns taken from the chronological order
/// `c`), in the order of `s`.
pub open spec fn select_blocks(
    bs: Seq<Block>,
    c: Seq<usize>,
    s: Seq<usize>,
    type_filter: Option<Seq<char>>,
    turn_filter: Option<int>,
    tool_filter: Option<Seq<char>>,
) -> Seq<usize>
    decreases s.len(),
{
    if s.len() == 0 {
        Seq::empty()
    } else {
        let rest = select_blocks(bs, c, s.drop_last(), type_filter, turn_filter, tool_filter);
        if block_selected(bs, c, s.last(), type_filter, turn_filter, tool_filter) {
            rest.push(s.last())
        } else {
            rest
        }
    }
}

/// Filtering keeps exactly the blocks that pass every given filter, in their order: each
/// kept block has the named type, is among the blocks of the named turn and is a call of
/// the named tool; with no filter every block is kept.
pub proof fn lemma_select_blocks(
    bs: Seq<Block>,
    c: Seq<usize>,
    s: Seq<usize>,
    type_filter: Option<Seq<char>>,
    turn_filter: Option<int>,
    tool_filter: Option<Seq<char>>,
)
    ensures
        ({
            let r = select_blocks(bs, c, s, type_filter, turn_filter, tool_filter);
            &&& r.len() <= s.len()
            &&& forall|x: usize|
                #[trigger] r.contains(x) <==> s.contains(x) && block_selected(
                    bs,
                    c,
                    x,
                    type_filter,
                    turn_filter,
                    tool_filter,
                )
            &&& forall|x: usize|
                #[trigger] r.contains(x) ==> (match type_filter {
                    Some(t) => spec_block_type(bs[x as int]) == type_of_name(t),
                    None => true,
                }) && (match turn_filter {
                    Some(n) => turn_members(bs, c, n).contains(x),
                    None => true,
                }) && (match tool_filter {
                    Some(name) => bs[x as int] matches Block::Tool(t) && t.tool_name@ == name,
                    None => true,
                })
            &&& type_filter is None && turn_filter is None && tool_filter is None ==> r == s
        }),
    decreases s.len(),
{
    if s.len() > 0 {
        lemma_select_blocks(bs, c, s.drop_last(), type_filter, turn_filter, tool_filter);
        let r0 = select_blocks(bs, c, s.drop_last(), type_filter, turn_filter, tool_filter);
        let r = select_blocks(bs, c, s, type_filter, turn_filter, tool_filter);
        assert forall|x: usize| #[trigger] r.contains(x) <==> s.contains(x) && block_selected(
            bs,
            c,
            x,
            type_filter,
            turn_filter,
            tool_filter,
        ) by {
            if r.contains(x) {
                let i = choose|i: int| 0 <= i < r.len() && r[i] == x;
                if block_selected(bs, c, s.last(), type_filter, turn_filter, tool_filter) && i == r.len() - 1 {
                    assert(s[s.len() - 1] == x);
                } else {
                    assert(r0[i] == x);
                    assert(r0.contains(x));
                    let k = choose|k: int| 0 <= k < s.drop_last().len() && s.drop_last()[k] == x;
                    assert(s[k] == x);
                }
            }
            if s.contains(x) && block_selected(bs, c, x, type_filter, turn_filter, tool_filter) {
                let k = choose|k: int| 0 <= k < s.len() && s[k] == x;
                if k == s.len() - 1 {
                    assert(r[r.len() - 1] == x);
                } else {
                    assert(s.drop_last()[k] == x);
                    assert(r0.contains(x));
                    let i = choose|i: int| 0 <= i < r0.len() && r0[i] == x;
                    assert(r[i] == x);
                }
            }
        }
        if type_filter is None && turn_filter is None && tool_filter is None {
            assert(r =~= s);
        }
    } else {
        let r = select_blocks(bs, c, s, type_filter, turn_filter, tool_filter);
        if type_filter is None && turn_filter is None && tool_filter is None {
            assert(r =~= s);
        }
    }
}

/// The view of an optional string slice.
pub open spec fn opt_str_view(o: Option<&str>) -> Option<Seq<char>> {
    match o {
        Some(s) => Some(s@),
        None => None,
    }
}

fn vec_contains(v: &Vec<usize>, x: usize) -> (r: bool)
    ensures
        r == v@.contains(x),
{
    let mut i: usize = 0;
    while i < v.len()
        invariant
            0 <= i <= v@.len(),
            forall|k: int| 0 <= k < i ==> v@[k] != x,
        decreases v@.len() - i,
    {
        if v[i] == x {
            return true;
        }
        i = i + 1;
    }
    false
}

/// The blocks that pass the filters, in chronological order: of the named type (any
/// other name means user), in turn `n` (1-based; none when there is no such turn), of
/// the named tool.
pub fn list_blocks(
    session: &Session,
    type_filter: Option<&str>,
    turn_filter: Option<usize>,
    tool_name_filter: Option<&str>,
) -> (r: Vec<NodeId>)
    requires
        session.wf(),
        tokens_total(session.blocks@) <= u64::MAX,
    ensures
        r@ == ({
            let c = session.chronological@;
            let p = select_blocks(
                session.blocks@,
                c,
                c,
                opt_str_view(type_filter),
                match turn_filter {
                    Some(n) => Some(n as int),
                    None => None,
                },
                opt_str_view(tool_name_filter),
            );
            p
        }),
{
    let ghost bs = session.blocks@;
    let ghost c = session.chronological@;
    let ghost tf = opt_str_view(type_filter);
    let ghost nf = match turn_filter {
        Some(n) => Some(n as int),
        None => None,
    };
    let ghost lf = opt_str_view(tool_name_filter);
    proof {
        session.lemma_wf_chronological();
    }
    let wanted_type = match type_filter {
        Some(t) => Some(parse_block_type(t)),
        None => None,
    };
    let turn_blocks: Option<Vec<usize>> = match turn_filter {
        Some(n) => {
            let turns = session.turns();
            if n > 0 && n <= turns.len() {
                proof {
                    assert(turn_matches(turns@[n - 1], n - 1, bs, c));
                }
                Some(copy_ids(&turns[n - 1].all_blocks))
            } else {
                Some(Vec::new())
            }
        },
        None => None,
    };
    let mut r: Vec<NodeId> = Vec::new();
    let mut i: usize = 0;
    proof {
        assert(c.take(0) =~= Seq::<usize>::empty());
    }
    while i < session.chronological.len()
        invariant
            bs == session.blocks@,
            c == session.chronological@,
            crate::model::session::is_chronological(bs, c),
            0 <= i <= c.len(),
            wanted_type == match tf {
                Some(t) => Some(type_of_name(t)),
                None => None,
            },
            match nf {
                Some(n) => turn_blocks matches Some(tb) && tb@ == turn_members(bs, c, n),
                None => turn_blocks is None,
            },
            r@ == select_blocks(bs, c, c.take(i as int), tf, nf, lf),
            lf == opt_str_view(tool_name_filter),
        decreases c.len() - i,
    {
        proof {
            assert(c.take(i + 1).drop_last() =~= c.take(i as int));
            assert(c.take(i + 1).last() == c[i as int]);
        }
        let id = session.chronological[i];
        let block = session.block(id);
        let type_ok = match wanted_type {
            Some(t) => block.block_type() == t,
            None => true,
        };
        let turn_ok = match &turn_blocks {
            Some(tb) => vec_contains(tb, id),
            None => true,
        };
        let tool_ok = match tool_name_filter {
            Some(name) => match block {
                Block::Tool(t) => {
                    let b = str_eq(t.tool_name.as_str(), name);
                    proof {
                        assert(is_tool_named(bs, id as int, name@) == b);
                    }
                    b
                },
                _ => {
                    proof {
                        assert(!is_tool_named(bs, id as int, name@));
                    }
                    false
                },
            },
            None => true,
        };
        let keep = type_ok && turn_ok && tool_ok;
        proof {
            assert(type_ok == match tf {
                Some(t) => spec_block_type(bs[id as int]) == type_of_name(t),
                None => true,
            });
            assert(turn_ok == match nf {
                Some(n) => turn_members(bs, c, n).contains(id),
                None => true,
            });
            assert(tool_ok == match lf {
                Some(name) => is_tool_named(bs, id as int, name),
                None => true,
            });
        }
        proof {
            assert(keep == block_selected(bs, c, id, tf, nf, lf));
        }
        if keep {
            r.push(id);
        }
        i = i + 1;
    }
    proof {
        assert(c.take(i as int) =~= c);
    }
    r
}

fn copy_ids(v: &Vec<usize>) -> (r: Vec<usize>)
    ensures
        r@ == v@,
{
    let mut r: Vec<usize> = Vec::new();
    let mut i: usize = 0;
    while i < v.len()
        invariant
            0 <= i <= v@.len(),
            r@ == v@.take(i as int),
        decreases v@.len() - i,
    {
        r.push(v[i]);
        proof {
            assert(r@ =~= v@.take(i + 1));
        }
        i = i + 1;
    }
    proof {
        assert(v@.take(i as int) =~= v@);
    }
    r
}

// ─── Block summaries ────────────────────────────────────────────────────────

/// The text `{:?}` gives for a string: the string quoted, with special characters
/// escaped.
pub uninterp spec fn debug_text(s: Seq<char>) -> Seq<char>;

/// `<str as Debug>::fmt` from std, through `format!`. The contract only names the
/// result; the escaping rules are std's.
#[verifier::external_body]
fn debug_string(s: &str) -> (r: String)
    ensures
        r@ == debug_text(s@),
{
    format!("{:?}", s)
}

/// The text of a system subtype, as its `Debug` form shows it.
pub open spec fn subtype_text(st: SystemSubtype) -> Seq<char> {
    match st {
        SystemSubtype::TurnDuration { duration_ms } => "TurnDuration { duration_ms: "@
            + decimal_digits(duration_ms as nat) + " }"@,
        SystemSubtype::StopHookSummary => "StopHookSummary"@,
        SystemSubtype::CompactBoundary { trigger, pre_tokens } => "CompactBoundary { trigger: "@
            + debug_text(trigger@) + ", pre_tokens: "@ + decimal_digits(pre_tokens as nat)
            + " }"@,
        SystemSubtype::Other { subtype } => "Other { subtype: "@ + debug_text(subtype@) + " }"@,
    }
}

/// The text of a system subtype (see `subtype_text`).
pub fn subtype_string(st: &SystemSubtype) -> (s: String)
    ensures
        s@ == subtype_text(*st),
{
    match st {
        SystemSubtype::TurnDuration { duration_ms } => {
            let mut s = "TurnDuration { duration_ms: ".to_string();
            s.append(u64_to_string(*duration_ms).as_str());
            s.append(" }");
            s
        },
        SystemSubtype::StopHookSummary => "StopHookSummary".to_string(),
        SystemSubtype::CompactBoundary { trigger, pre_tokens } => {
            let mut s = "CompactBoundary { trigger: ".to_string();
            s.append(debug_string(trigger.as_str()).as_str());
            s.append(", pre_tokens: ");
            s.append(u64_to_string(*pre_tokens).as_str());
            s.append(" }");
            s
        },
        SystemSubtype::Other { subtype } => {
            let mut s = "Other { subtype: ".to_string();
            s.append(debug_string(subtype.as_str()).as_str());
            s.append(" }");
            s
        },
    }
}

/// The text of a user block's content, or `(no content)`.
pub open spec fn content_or_placeholder(c: Option<String>) -> Seq<char> {
    match c {
        Some(s) => s@,
        None => "(no content)"@,
    }
}

/// A one-line summary of a block: a user block's content cut to `user_max` bytes; an
/// assistant block's content cut to 40 bytes and `[n <calls_word>]` for its tool calls
/// (or `(empty)`); a tool block's name, with ` ERROR` when it failed; a system block's
/// subtype.
pub open spec fn summary_text(b: Block, user_max: nat, calls_word: Seq<char>) -> Seq<char> {
    match b {
        Block::User(u) => truncated(content_or_placeholder(u.content), user_max),
        Block::Assistant(a) => {
            let calls = "["@ + decimal_digits(a.tool_calls@.len()) + " "@ + calls_word + "]"@;
            match a.content {
                Some(c) => if a.tool_calls@.len() > 0 {
                    truncated(c@, 40) + " "@ + calls
                } else {
                    truncated(c@, 40)
                },
                None => if a.tool_calls@.len() > 0 {
                    calls
                } else {
                    "(empty)"@
                },
            }
        },
        Block::Tool(t) => if t.is_error {
            t.tool_name@ + " ERROR"@
        } else {
            t.tool_name@
        },
        Block::System(s) => subtype_text(s.subtype),
    }
}

/// What a block's one-line summary says. An assistant block shows its content cut to 40
/// bytes, followed by ` [n <calls_word>]` only when it made tool calls (the count alone when
/// it has no content, `(empty)` when it has neither); without tool calls the summary is the
/// cut content and nothing more, at most 40 bytes. A user block shows its content (or
/// `(no content)`) cut to `user_max` bytes. A tool block shows its name, followed by
/// ` ERROR` exactly when the call failed. A system block shows its subtype as Rust's debug
/// format writes it.
pub proof fn lemma_summary_says(b: Block, user_max: nat, calls_word: Seq<char>)
    ensures
        b matches Block::Assistant(a) ==> {
            let n = a.tool_calls@.len();
            let calls = "["@ + decimal_digits(n) + " "@ + calls_word + "]"@;
            &&& n == 0 && a.content is Some ==> summary_text(b, user_max, calls_word) == truncated(
                a.content.unwrap()@,
                40,
            ) && crate::text::utf8_len(summary_text(b, user_max, calls_word)) <= 40
            &&& n == 0 && a.content is None ==> summary_text(b, user_max, calls_word) == "(empty)"@
            &&& n > 0 && a.content is Some ==> summary_text(b, user_max, calls_word) == truncated(
                a.content.unwrap()@,
                40,
            ) + " "@ + calls
            &&& n > 0 && a.content is None ==> summary_text(b, user_max, calls_word) == calls
        },
        b matches Block::User(u) ==> summary_text(b, user_max, calls_word) == truncated(
            match u.content {
                Some(c) => c@,
                None => "(no content)"@,
            },
            user_max,
        ),
        b matches Block::Tool(t) ==> summary_text(b, user_max, calls_word) == if t.is_error {
            t.tool_name@ + " ERROR"@
        } else {
            t.tool_name@
        },
        b matches Block::System(sy) ==> summary_text(b, user_max, calls_word) == match sy.subtype {
            SystemSubtype::TurnDuration { duration_ms } => "TurnDuration { duration_ms: "@
                + decimal_digits(duration_ms as nat) + " }"@,
            SystemSubtype::StopHookSummary => "StopHookSummary"@,
            SystemSubtype::CompactBoundary { trigger, pre_tokens } => "CompactBoundary { trigger: "@
                + debug_text(trigger@) + ", pre_tokens: "@ + decimal_digits(pre_tokens as nat)
                + " }"@,
            SystemSubtype::Other { subtype } => "Other { subtype: "@ + debug_text(subtype@) + " }"@,
        },
{
    if let Block::Assistant(a) = b {
        if let Some(c) = a.content {
            crate::text::lemma_truncated_fits(c@, 40);
        }
    }
}

/// A one-line summary of a block (see `summary_text`).
pub fn summarize_block(block: &Block, user_max: usize, calls_word: &str) -> (s: String)
    ensures
        s@ == summary_text(*block, user_max as nat, calls_word@),
{
    match block {
        Block::User(u) => {
            match &u.content {
                Some(c) => truncate(c.as_str(), user_max),
                None => truncate("(no content)", user_max),
            }
        },
        Block::Assistant(a) => {
            let n = a.tool_calls.len();
            let mut calls = "[".to_string();
            calls.append(u64_to_string(n as u64).as_str());
            calls.append(" ");
            calls.append(calls_word);
            calls.append("]");
            match &a.content {
                Some(c) => {
                    let mut s = truncate(c.as_str(), 40);
                    if n > 0 {
                        s.append(" ");
                        s.append(calls.as_str());
                    }
                    s
                },
                None => if n > 0 {
                    calls
                } else {
                    "(empty)".to_string()
                },
            }
        },
        Block::Tool(t) => {
            let mut s = copy_str(t.tool_name.as_str());
            if t.is_error {
                s.append(" ERROR");
            }
            s
        },
        Block::System(sys) => subtype_string(&sys.subtype),
    }
}

// ─── Times as text ──────────────────────────────────────────────────────────

/// The formats the reports print times in.
pub open spec fn known_time_format(fmt: Seq<char>) -> bool {
    fmt == "%H:%M:%S"@ || fmt == "%Y-%m-%d %H:%M:%S"@ || fmt == "%Y-%m-%d %H:%M:%S UTC"@ || fmt
        == "%H:%M:%S%.3f"@
}

/// The UTC time `secs` seconds and `nanos` nanoseconds after the Unix epoch, written in
/// the chrono format `fmt`; none when chrono cannot represent that time.
pub uninterp spec fn utc_text(secs: i64, nanos: u32, fmt: Seq<char>) -> Option<Seq<char>>;

/// `chrono::DateTime::<Utc>::from_timestamp` and `DateTime::format`. The contract only
/// names the result; calendar arithmetic and formatting are chrono's. The format must be
/// one of the known ones, which chrono accepts.
#[verifier::external_body]
fn format_utc(secs: i64, nanos: u32, fmt: &str) -> (r: Option<String>)
    requires
        known_time_format(fmt@),
    ensures
        match r {
            Some(s) => utc_text(secs, nanos, fmt@) == Some(s@),
            None => utc_text(secs, nanos, fmt@) is None,
        },
{
    match chrono::DateTime::<chrono::Utc>::from_timestamp(secs, nanos) {
        Some(dt) => Some(dt.format(fmt).to_string()),
        None => None,
    }
}

/// A timestamp in nanoseconds as whole seconds (rounded down) and the nanoseconds left.
pub fn split_nanos(ns: i128) -> (r: (i128, u32))
    ensures
        r.0 == ns / 1_000_000_000,
        r.1 == ns % 1_000_000_000,
{
    if ns >= 0 {
        let q = ns / 1_000_000_000;
        let m = ns % 1_000_000_000;
        (q, m as u32)
    } else {
        let a = -(ns + 1);
        let q = a / 1_000_000_000;
        let m = a % 1_000_000_000;
        proof {
            assert(a == q * 1_000_000_000 + m && 0 <= m < 1_000_000_000);
            let q2 = -q - 1;
            let m2 = 999_999_999 - m;
            assert(ns == q2 * 1_000_000_000 + m2);
            assert(q2 == ns / 1_000_000_000 && m2 == ns % 1_000_000_000) by (nonlinear_arith)
                requires
                    ns == q2 * 1_000_000_000 + m2,
                    0 <= m2 < 1_000_000_000,
            ;
        }
        (-q - 1, (999_999_999 - m) as u32)
    }
}

/// A timestamp (nanoseconds since the epoch) in the format `fmt`: its whole seconds and
/// the nanoseconds left, written by chrono; none when the seconds leave `i64` or chrono
/// cannot represent the time.
pub open spec fn timestamp_text(ns: i128, fmt: Seq<char>) -> Option<Seq<char>> {
    let secs = ns / 1_000_000_000;
    let nanos = ns % 1_000_000_000;
    if i64::MIN <= secs <= i64::MAX {
        utc_text(secs as i64, nanos as u32, fmt)
    } else {
        None
    }
}

/// A timestamp written in one of the known formats (see `timestamp_text`).
pub fn format_timestamp(ns: i128, fmt: &str) -> (r: Option<String>)
    requires
        known_time_format(fmt@),
    ensures
        opt_view(r) == timestamp_text(ns, fmt@),
{
    let (secs, nanos) = split_nanos(ns);
    if secs < i64::MIN as i128 || secs > i64::MAX as i128 {
        return None;
    }
    format_utc(secs as i64, nanos, fmt)
}

/// A block as a line of the block list.
#[derive(Debug)]
pub struct BlockSummary {
    pub index: usize,
    pub block_type: String,
    pub uuid: String,
    /// The block's time of day, `HH:MM:SS` (UTC).
    pub timestamp: Option<String>,
    pub summary: String,
}

/// The list line of block `id`: its type, uuid, time of day and summary (user content
/// cut to 60 bytes, tool calls counted as `[n tool calls]`).
pub fn block_summary(id: usize, block: &Block) -> (r: BlockSummary)
    ensures
        r.index == id,
        r.block_type@ == block_type_name(spec_block_type(*block)),
        r.uuid@ == spec_uuid(*block),
        opt_view(r.timestamp) == timestamp_text(spec_timestamp(*block), "%H:%M:%S"@),
        r.summary@ == summary_text(*block, 60, "tool calls"@),
{
    BlockSummary {
        index: id,
        block_type: block.block_type().to_string(),
        uuid: copy_str(block.uuid()),
        timestamp: format_timestamp(block.timestamp(), "%H:%M:%S"),
        summary: summarize_block(block, 60, "tool calls"),
    }
}

/// The blocks among the first `k` whose identifier starts with `prefix`, in file order.
pub open spec fn uuid_prefix_matches(bs: Seq<Block>, k: int, prefix: Seq<char>) -> Seq<usize>
    decreases k,
{
    if k <= 0 {
        Seq::empty()
    } else {
        let rest = uuid_prefix_matches(bs, k - 1, prefix);
        let u = spec_uuid(bs[k - 1]);
        if prefix.len() <= u.len() && u.take(prefix.len() as int) == prefix {
            rest.push((k - 1) as usize)
        } else {
            rest
        }
    }
}

/// Looking blocks up by a uuid prefix finds exactly the blocks whose identifier begins
/// with the prefix, each once, in file order.
pub proof fn lemma_uuid_prefix_matches(bs: Seq<Block>, k: int, prefix: Seq<char>)
    requires
        0 <= k <= usize::MAX + 1,
    ensures
        forall|x: usize|
            #[trigger] uuid_prefix_matches(bs, k, prefix).contains(x) <==> (x as int) < k && prefix.len()
                <= spec_uuid(bs[x as int]).len() && spec_uuid(bs[x as int]).take(prefix.len() as int)
                == prefix,
        forall|i: int, j: int|
            0 <= i < j < uuid_prefix_matches(bs, k, prefix).len() ==> uuid_prefix_matches(bs, k, prefix)[i]
                < uuid_prefix_matches(bs, k, prefix)[j],
    decreases k,
{
    if k > 0 {
        lemma_uuid_prefix_matches(bs, k - 1, prefix);
        let r0 = uuid_prefix_matches(bs, k - 1, prefix);
        let r = uuid_prefix_matches(bs, k, prefix);
        assert forall|x: usize| #[trigger] r.contains(x) <==> (x as int) < k && prefix.len()
            <= spec_uuid(bs[x as int]).len() && spec_uuid(bs[x as int]).take(prefix.len() as int)
            == prefix by {
            if r.contains(x) {
                let i = choose|i: int| 0 <= i < r.len() && r[i] == x;
                if i < r0.len() {
                    assert(r0[i] == x);
                    assert(r0.contains(x));
                }
            }
            if (x as int) < k && prefix.len() <= spec_uuid(bs[x as int]).len() && spec_uuid(
                bs[x as int],
            ).take(prefix.len() as int) == prefix {
                if (x as int) < k - 1 {
                    assert(r0.contains(x));
                    let i = choose|i: int| 0 <= i < r0.len() && r0[i] == x;
                    assert(r[i] == x);
                } else {
                    assert(r[r.len() - 1] == x);
                }
            }
        }
        assert forall|i: int, j: int| 0 <= i < j < r.len() implies r[i] < r[j] by {
            if j < r0.len() {
                assert(r[i] == r0[i] && r[j] == r0[j]);
            } else {
                assert(r[i] == r0[i]);
                assert(r0.contains(r0[i]));
            }
        }
    }
}

/// The blocks whose identifier starts with `prefix`, in file order.
pub fn blocks_with_uuid_prefix(session: &Session, prefix: &str) -> (r: Vec<NodeId>)
    ensures
        r@ == uuid_prefix_matches(session.blocks@, session.blocks@.len() as int, prefix@),
{
    let mut r: Vec<NodeId> = Vec::new();
    let mut i: usize = 0;
    while i < session.blocks.len()
        invariant
            0 <= i <= session.blocks@.len(),
            r@ == uuid_prefix_matches(session.blocks@, i as int, prefix@),
        decreases session.blocks@.len() - i,
    {
        if starts_with(session.blocks[i].uuid(), prefix) {
            r.push(i);
        }
        i = i + 1;
    }
    r
}

/// The prompt text of a turn: the content of its user block, `(no content)` when it has
/// none, `(unknown)` when the block is not a user block.
pub open spec fn prompt_text(b: Block) -> Seq<char> {
    match b {
        Block::User(u) => content_or_placeholder(u.content),
        _ => "(unknown)"@,
    }
}

/// The prompt shown for a turn is the text of the user block that opens it: a turn opens
/// with a prompt, which always has content. Of a block that is no user block the text is
/// `(unknown)`; of a user block without content, `(no content)`.
pub proof fn lemma_turn_prompt_text(t: Turn, k: int, bs: Seq<Block>, c: Seq<usize>, b: Block)
    requires
        turn_matches(t, k, bs, c),
    ensures
        bs[t.user_block as int] matches Block::User(u) && u.content is Some && prompt_text(
            bs[t.user_block as int],
        ) == u.content.unwrap()@,
        b matches Block::User(u) && u.content is None ==> prompt_text(b) == "(no content)"@,
        !(b is User) ==> prompt_text(b) == "(unknown)"@,
{
    lemma_turn_contents(t, k, bs, c);
}

/// The prompt text of a turn whose user block is `user_block` (see `prompt_text`).
pub fn turn_prompt(session: &Session, user_block: NodeId) -> (s: &str)
    requires
        user_block < session.blocks@.len(),
    ensures
        s@ == prompt_text(session.blocks@[user_block as int]),
{
    match session.block(user_block) {
        Block::User(u) => match &u.content {
            Some(c) => c.as_str(),
            None => "(no content)",
        },
        _ => "(unknown)",
    }
}

// ─── Tokens of one tool call ────────────────────────────────────────────────

/// The first assistant block, from block `i` on, that made the call `id`.
pub open spec fn call_owner(bs: Seq<Block>, id: Seq<char>, i: int) -> Option<int>
    decreases bs.len() - i,
{
    if i < 0 || i >= bs.len() {
        None
    } else if bs[i] matches Block::Assistant(a) && exists|j: int|
        0 <= j < a.tool_calls@.len() && #[trigger] a.tool_calls@[j].tool_use_id@ == id {
        Some(i)
    } else {
        call_owner(bs, id, i + 1)
    }
}

/// The tokens of a tool call: the selected component of the response that made it and
/// the number of calls that response made (the call's share is the first divided by the
/// second); none when no response made the call.
pub open spec fn call_tokens(bs: Seq<Block>, id: Seq<char>, tt: Seq<char>) -> Option<(int, int)> {
    match call_owner(bs, id, 0) {
        Some(i) => match bs[i] {
            Block::Assistant(a) => Some((token_value_of(a.tokens, tt), a.tool_calls@.len() as int)),
            _ => None,
        },
        None => None,
    }
}

proof fn lemma_call_owner_range(bs: Seq<Block>, id: Seq<char>, i: int)
    ensures
        call_owner(bs, id, i) matches Some(k) ==> i <= k < bs.len() && bs[k] is Assistant,
    decreases bs.len() - i,
{
    if 0 <= i < bs.len() {
        lemma_call_owner_range(bs, id, i + 1);
    }
}

/// Whether block `i` is an assistant response that made the tool call `id`.
pub open spec fn makes_call(bs: Seq<Block>, i: int, id: Seq<char>) -> bool {
    bs[i] matches Block::Assistant(a) && exists|j: int|
        0 <= j < a.tool_calls@.len() && #[trigger] a.tool_calls@[j].tool_use_id@ == id
}

proof fn lemma_call_owner_first(bs: Seq<Block>, id: Seq<char>, i: int)
    requires
        0 <= i,
    ensures
        match call_owner(bs, id, i) {
            Some(k) => i <= k < bs.len() && makes_call(bs, k, id) && forall|m: int|
                i <= m < k ==> !#[trigger] makes_call(bs, m, id),
            None => forall|m: int| i <= m < bs.len() ==> !#[trigger] makes_call(bs, m, id),
        },
    decreases bs.len() - i,
{
    if i < bs.len() {
        lemma_call_owner_first(bs, id, i + 1);
    }
}

/// A tool call's tokens come from the first response that made the call: the selected
/// component of its tokens and its number of calls; there are none exactly when no
/// response made the call.
pub proof fn lemma_call_tokens_source(bs: Seq<Block>, id: Seq<char>, tt: Seq<char>)
    ensures
        call_tokens(bs, id, tt) is None <==> forall|m: int| 0 <= m < bs.len() ==> !#[trigger] makes_call(bs, m, id),
        call_tokens(bs, id, tt) is Some ==> exists|i: int|
            #![trigger bs[i]]
            0 <= i < bs.len() && makes_call(bs, i, id) && (forall|m: int|
                0 <= m < i ==> !#[trigger] makes_call(bs, m, id)) && (bs[i] matches Block::Assistant(a)
                && call_tokens(bs, id, tt) == Some(
                (token_value_of(a.tokens, tt), a.tool_calls@.len() as int),
            )),
{
    lemma_call_owner_first(bs, id, 0);
    if let Some(k) = call_owner(bs, id, 0) {
        assert(bs[k] is Assistant);
    }
}

/// The tokens of the tool call `tool_use_id` (see `call_tokens`).
pub fn find_tool_tokens(session: &Session, tool_use_id: &str, token_type: &str) -> (r: Option<(u64, usize)>)
    requires
        tokens_total(session.blocks@) <= u64::MAX,
    ensures
        match r {
            Some((v, n)) => call_tokens(session.blocks@, tool_use_id@, token_type@) == Some(
                (v as int, n as int),
            ),
            None => call_tokens(session.blocks@, tool_use_id@, token_type@) is None,
        },
{
    let ghost bs = session.blocks@;
    let mut i: usize = 0;
    while i < session.blocks.len()
        invariant
            bs == session.blocks@,
            0 <= i <= bs.len(),
            tokens_total(bs) <= u64::MAX,
            call_owner(bs, tool_use_id@, 0) == call_owner(bs, tool_use_id@, i as int),
        decreases bs.len() - i,
    {
        match &session.blocks[i] {
            Block::Assistant(a) => {
                let mut j: usize = 0;
                while j < a.tool_calls.len()
                    invariant
                        bs == session.blocks@,
                        0 <= i < bs.len(),
                        bs[i as int] == Block::Assistant(*a),
                        tokens_total(bs) <= u64::MAX,
                        call_owner(bs, tool_use_id@, 0) == call_owner(bs, tool_use_id@, i as int),
                        0 <= j <= a.tool_calls@.len(),
                        forall|k: int| 0 <= k < j ==> a.tool_calls@[k].tool_use_id@ != tool_use_id@,
                    decreases a.tool_calls@.len() - j,
                {
                    if str_eq(a.tool_calls[j].tool_use_id.as_str(), tool_use_id) {
                        proof {
                            lemma_tokens_total_element(bs, i as int);
                        }
                        let v = token_value(&a.tokens, token_type);
                        return Some((v, a.tool_calls.len()));
                    }
                    j = j + 1;
                }
            },
            _ => {},
        }
        i = i + 1;
    }
    None
}

} // verus!
