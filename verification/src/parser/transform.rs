use std::collections::HashMap;
use vstd::hash_map::StringHashMap;
use vstd::prelude::*;

use crate::model::block::{
    block_token_total, lemma_tokens_total_element, lemma_tokens_total_nonneg,
    lemma_tokens_total_push, lemma_tokens_total_update, opt_view, spec_tokens, tokens_total,
    AssistantBlock, Block, SystemBlock, SystemSubtype, ToolBlock, ToolCall, UserBlock,
};
use crate::model::types::{clone_opt_string, EntryMetadata, NodeId, RawLineRef, TokenUsage};
use crate::text::{copy_str, join_parts, join_strings, str_eq, string_views};

use super::raw::{
    AssistantContentBlock, CommonFields, RawAssistantEntry, RawEntry, RawSystemEntry,
    RawToolResult, RawToolUse, RawUsage, RawUserEntry, UserContent, UserContentBlock,
};

verus! {

/// A tool call waiting for its result.
#[derive(Debug)]
pub struct PendingToolCall {
    pub tool_use_id: String,
    pub tool_name: String,
    pub input: String,
    pub assistant_uuid: String,
    pub timestamp: i128,
    pub metadata: EntryMetadata,
    /// The line of the assistant entry that made the call.
    pub line: RawLineRef,
}

/// What a pending tool call records, as plain values.
pub struct PendingView {
    pub tool_use_id: Seq<char>,
    pub tool_name: Seq<char>,
    pub input: Seq<char>,
    pub assistant_uuid: Seq<char>,
    pub timestamp: i128,
    pub metadata: EntryMetadata,
    pub line: RawLineRef,
}

impl View for PendingToolCall {
    type V = PendingView;

    open spec fn view(&self) -> PendingView {
        PendingView {
            tool_use_id: self.tool_use_id@,
            tool_name: self.tool_name@,
            input: self.input@,
            assistant_uuid: self.assistant_uuid@,
            timestamp: self.timestamp,
            metadata: self.metadata,
            line: self.line,
        }
    }
}

/// State kept while turning raw entries into blocks.
pub struct Transformer {
    blocks: Vec<Block>,
    /// The lines each block came from, one list per block.
    provenance: Vec<Vec<RawLineRef>>,
    /// request id -> index of the assistant block of that request.
    assistant_by_request_id: StringHashMap<usize>,
    /// Tool calls waiting for their results, in the order they were first registered.
    pending_tool_calls: Vec<PendingToolCall>,
    session_id: Option<String>,
}

// ─── Spec helpers ───────────────────────────────────────────────────────────

/// The view of an optional string, or the empty string.
pub open spec fn or_empty(o: Option<String>) -> Seq<char> {
    match o {
        Some(s) => s@,
        None => Seq::<char>::empty(),
    }
}

/// A timestamp, or the Unix epoch when it is missing.
pub open spec fn ts_or_epoch(t: Option<i128>) -> i128 {
    match t {
        Some(v) => v,
        None => 0,
    }
}

/// The metadata that a block records for its entry.
pub open spec fn metadata_of(c: CommonFields) -> EntryMetadata {
    EntryMetadata {
        version: c.version,
        cwd: c.cwd,
        git_branch: c.git_branch,
        slug: c.slug,
        is_sidechain: c.is_sidechain,
    }
}

/// The session id after seeing an entry: the first session id seen is kept.
pub open spec fn next_session_id(old: Option<Seq<char>>, c: CommonFields) -> Option<Seq<char>> {
    if old is None {
        opt_view(c.session_id)
    } else {
        old
    }
}

/// Position of the pending call with the given tool use id.
pub open spec fn find_pending(p: Seq<PendingView>, id: Seq<char>) -> Option<int>
    decreases p.len(),
{
    if p.len() == 0 {
        None
    } else if p.last().tool_use_id == id {
        Some(p.len() - 1)
    } else {
        find_pending(p.drop_last(), id)
    }
}

/// Pending calls have distinct tool use ids.
pub open spec fn pending_unique(p: Seq<PendingView>) -> bool {
    forall|i: int, j: int|
        0 <= i < p.len() && 0 <= j < p.len() && i != j ==> p[i].tool_use_id != p[j].tool_use_id
}

/// Registering a pending call: it replaces the call with the same id, or is appended.
pub open spec fn pending_insert(p: Seq<PendingView>, c: PendingView) -> Seq<PendingView> {
    match find_pending(p, c.tool_use_id) {
        Some(i) => p.update(i, c),
        None => p.push(c),
    }
}


/// A tool block made from a pending call and its result, carried by the entry `uuid`.
pub open spec fn paired_tool_block(
    b: Block,
    p: PendingView,
    tr: RawToolResult,
    result_uuid: Seq<char>,
) -> bool {
    &&& b matches Block::Tool(t)
    &&& t.tool_use_id@ == p.tool_use_id
    &&& t.tool_name@ == p.tool_name
    &&& t.input@ == p.input
    &&& t.output == tr.content
    &&& t.is_error == tr.is_error
    &&& t.assistant_uuid@ == p.assistant_uuid
    &&& opt_view(t.result_uuid) == Some(result_uuid)
    &&& t.timestamp == p.timestamp
    &&& t.metadata == p.metadata
}

/// A tool block made from a call whose result never arrived.
pub open spec fn unpaired_tool_block(b: Block, p: PendingView) -> bool {
    &&& b matches Block::Tool(t)
    &&& t.tool_use_id@ == p.tool_use_id
    &&& t.tool_name@ == p.tool_name
    &&& t.input@ == p.input
    &&& t.output is None
    &&& !t.is_error
    &&& t.assistant_uuid@ == p.assistant_uuid
    &&& t.result_uuid is None
    &&& t.timestamp == p.timestamp
    &&& t.metadata == p.metadata
}

/// The system subtype recorded for a system entry.
pub open spec fn subtype_matches(st: SystemSubtype, sys: RawSystemEntry) -> bool {
    match sys.subtype {
        Some(s) => if s@ == "turn_duration"@ {
            st == SystemSubtype::TurnDuration {
                duration_ms: match sys.duration_ms {
                    Some(d) => d,
                    None => 0,
                },
            }
        } else if s@ == "stop_hook_summary"@ {
            st is StopHookSummary
        } else if s@ == "compact_boundary"@ {
            st matches SystemSubtype::CompactBoundary { trigger, pre_tokens } && match
                sys.compact_metadata {
                Some(cm) => trigger@ == or_empty(cm.trigger) && pre_tokens == match cm.pre_tokens {
                    Some(n) => n,
                    None => 0,
                },
                None => trigger@ == Seq::<char>::empty() && pre_tokens == 0,
            }
        } else {
            st matches SystemSubtype::Other { subtype } && subtype@ == s@
        },
        None => st matches SystemSubtype::Other { subtype } && subtype@ == Seq::<char>::empty(),
    }
}

/// The system block made from a system entry.
pub open spec fn system_block_from(b: Block, sys: RawSystemEntry) -> bool {
    &&& b matches Block::System(s)
    &&& s.uuid@ == or_empty(sys.common.uuid)
    &&& s.parent_uuid == sys.common.parent_uuid
    &&& s.timestamp == ts_or_epoch(sys.common.timestamp)
    &&& s.session_id@ == or_empty(sys.common.session_id)
    &&& subtype_matches(s.subtype, sys)
    &&& s.metadata == metadata_of(sys.common)
}


/// The texts of the text blocks of a user message that carry one, in order.
pub open spec fn user_texts(bs: Seq<UserContentBlock>) -> Seq<Seq<char>>
    decreases bs.len(),
{
    if bs.len() == 0 {
        Seq::<Seq<char>>::empty()
    } else {
        let r = user_texts(bs.drop_last());
        match bs.last() {
            UserContentBlock::Text { text: Some(t) } => r.push(t@),
            _ => r,
        }
    }
}

/// The message consists of tool results only (at least one, and no text block).
pub open spec fn only_tool_results(bs: Seq<UserContentBlock>) -> bool {
    &&& exists|i: int| 0 <= i < bs.len() && bs[i] is ToolResult
    &&& forall|i: int| 0 <= i < bs.len() ==> !(bs[i] is Text)
}

/// Tool results paired, in order, with the pending calls they answer; a result whose
/// call is not pending is skipped. Returns the pairs and the calls still pending.
pub open spec fn pair_results(p: Seq<PendingView>, bs: Seq<UserContentBlock>) -> (Seq<
    (PendingView, RawToolResult),
>, Seq<PendingView>)
    decreases bs.len(),
{
    if bs.len() == 0 {
        (Seq::empty(), p)
    } else {
        match bs[0] {
            UserContentBlock::ToolResult(tr) => match find_pending(p, tr.tool_use_id@) {
                Some(i) => {
                    let rest = pair_results(p.remove(i), bs.drop_first());
                    (seq![(p[i], tr)] + rest.0, rest.1)
                },
                None => pair_results(p, bs.drop_first()),
            },
            UserContentBlock::Text { .. } => pair_results(p, bs.drop_first()),
        }
    }
}

/// The user block made from a user entry with the given content.
pub open spec fn user_block_from(b: Block, c: CommonFields, content: Option<Seq<char>>) -> bool {
    &&& b matches Block::User(u)
    &&& u.uuid@ == or_empty(c.uuid)
    &&& u.parent_uuid == c.parent_uuid
    &&& u.timestamp == ts_or_epoch(c.timestamp)
    &&& u.session_id@ == or_empty(c.session_id)
    &&& opt_view(u.content) == content
    &&& u.is_meta == c.is_meta
    &&& u.metadata == metadata_of(c)
}

/// The content of the user block of a block-list message: its texts joined by newlines.
pub open spec fn joined_user_texts(bs: Seq<UserContentBlock>) -> Option<Seq<char>> {
    if user_texts(bs).len() == 0 {
        None
    } else {
        Some(join_parts(user_texts(bs), "\n"@))
    }
}

/// Every entry of `p` (from `from` on) is the single line `l`.
pub open spec fn all_single_line(p: Seq<Seq<RawLineRef>>, from: int, l: RawLineRef) -> bool {
    forall|j: int| from <= j < p.len() ==> #[trigger] p[j] == seq![l]
}

/// Pairing answers each call at most once and loses none: every pair is a pending call
/// and a result with that call's id; the calls paired and the calls left pending are,
/// together, the calls that were pending.
pub proof fn lemma_pair_results_answer(p: Seq<PendingView>, bs: Seq<UserContentBlock>)
    ensures
        forall|i: int|
            0 <= i < pair_results(p, bs).0.len() ==> (#[trigger] pair_results(p, bs).0[i]).0.tool_use_id
                == pair_results(p, bs).0[i].1.tool_use_id@,
        forall|i: int|
            0 <= i < pair_results(p, bs).0.len() ==> p.contains(
                (#[trigger] pair_results(p, bs).0[i]).0,
            ),
        forall|x: PendingView| #[trigger] pair_results(p, bs).1.contains(x) ==> p.contains(x),
        pair_results(p, bs).0.len() + pair_results(p, bs).1.len() == p.len(),
    decreases bs.len(),
{
    if bs.len() > 0 {
        let tail = bs.drop_first();
        match bs[0] {
            UserContentBlock::ToolResult(tr) => {
                lemma_find_pending(p, tr.tool_use_id@);
                match find_pending(p, tr.tool_use_id@) {
                    Some(i) => {
                        let q = p.remove(i);
                        lemma_pair_results_answer(q, tail);
                        let rest = pair_results(q, tail);
                        let pairs = seq![(p[i], tr)] + rest.0;
                        assert(pair_results(p, bs) == (pairs, rest.1));
                        assert forall|x: PendingView| q.contains(x) implies p.contains(x) by {
                            let j = choose|j: int| 0 <= j < q.len() && q[j] == x;
                            if j < i {
                                assert(p[j] == x);
                            } else {
                                assert(p[j + 1] == x);
                            }
                        }
                        assert forall|k: int| 0 <= k < pairs.len() implies p.contains(
                            (#[trigger] pairs[k]).0,
                        ) && pairs[k].0.tool_use_id == pairs[k].1.tool_use_id@ by {
                            if k == 0 {
                                assert(p[i] == pairs[0].0);
                            } else {
                                assert(pairs[k] == rest.0[k - 1]);
                            }
                        }
                    },
                    None => {
                        lemma_pair_results_answer(p, tail);
                    },
                }
            },
            UserContentBlock::Text { .. } => {
                lemma_pair_results_answer(p, tail);
            },
        }
    }
}

pub proof fn lemma_find_pending(p: Seq<PendingView>, id: Seq<char>)
    ensures
        match find_pending(p, id) {
            Some(i) => 0 <= i < p.len() && p[i].tool_use_id == id,
            None => forall|j: int| 0 <= j < p.len() ==> p[j].tool_use_id != id,
        },
    decreases p.len(),
{
    if p.len() > 0 && p.last().tool_use_id != id {
        let q = p.drop_last();
        lemma_find_pending(q, id);
        assert forall|j: int| 0 <= j < q.len() implies q[j] == p[j] by {}
    }
}



/// The token usage that an assistant entry reports (zero when it reports none).
pub open spec fn usage_tokens(u: Option<RawUsage>) -> TokenUsage {
    match u {
        Some(x) => TokenUsage {
            input_tokens: x.input_tokens,
            output_tokens: x.output_tokens,
            cache_creation_input_tokens: x.cache_creation_input_tokens,
            cache_read_input_tokens: x.cache_read_input_tokens,
        },
        None => TokenUsage::zero(),
    }
}

/// The total tokens that an entry brings: only assistant entries carry usage.
pub open spec fn entry_tokens(e: RawEntry) -> int {
    match e {
        RawEntry::Assistant(a) => usage_tokens(a.message.usage).spec_total(),
        _ => 0,
    }
}

/// The non-empty texts of an assistant message's text blocks, in order.
pub open spec fn assistant_texts(c: Seq<AssistantContentBlock>) -> Seq<Seq<char>>
    decreases c.len(),
{
    if c.len() == 0 {
        Seq::<Seq<char>>::empty()
    } else {
        let r = assistant_texts(c.drop_last());
        match c.last() {
            AssistantContentBlock::Text { text: Some(t) } => if t@.len() > 0 {
                r.push(t@)
            } else {
                r
            },
            _ => r,
        }
    }
}

/// The non-empty thinking texts of an assistant message, in order.
pub open spec fn assistant_thinking(c: Seq<AssistantContentBlock>) -> Seq<Seq<char>>
    decreases c.len(),
{
    if c.len() == 0 {
        Seq::<Seq<char>>::empty()
    } else {
        let r = assistant_thinking(c.drop_last());
        match c.last() {
            AssistantContentBlock::Thinking { thinking: Some(t) } => if t@.len() > 0 {
                r.push(t@)
            } else {
                r
            },
            _ => r,
        }
    }
}

/// The tool uses of an assistant message, in order.
pub open spec fn tool_uses(c: Seq<AssistantContentBlock>) -> Seq<RawToolUse>
    decreases c.len(),
{
    if c.len() == 0 {
        Seq::<RawToolUse>::empty()
    } else {
        let r = tool_uses(c.drop_last());
        match c.last() {
            AssistantContentBlock::ToolUse(tu) => r.push(tu),
            _ => r,
        }
    }
}

/// The pending call registered for a tool use of an assistant entry on line `l`; `caller`
/// is the uuid of the assistant block that makes the call.
pub open spec fn pending_for(
    tu: RawToolUse,
    a: CommonFields,
    caller: Seq<char>,
    l: RawLineRef,
) -> PendingView {
    PendingView {
        tool_use_id: tu.id@,
        tool_name: tu.name@,
        input: tu.input@,
        assistant_uuid: caller,
        timestamp: ts_or_epoch(a.timestamp),
        metadata: metadata_of(a),
        line: l,
    }
}

/// The pending calls after registering the tool uses in order.
pub open spec fn register_calls(
    p: Seq<PendingView>,
    uses: Seq<RawToolUse>,
    a: CommonFields,
    caller: Seq<char>,
    l: RawLineRef,
) -> Seq<PendingView>
    decreases uses.len(),
{
    if uses.len() == 0 {
        p
    } else {
        pending_insert(
            register_calls(p, uses.drop_last(), a, caller, l),
            pending_for(uses.last(), a, caller, l),
        )
    }
}

/// The tool calls record the tool uses, in order.
pub open spec fn calls_match(calls: Seq<ToolCall>, uses: Seq<RawToolUse>) -> bool {
    &&& calls.len() == uses.len()
    &&& forall|i: int|
        0 <= i < calls.len() ==> {
            &&& (#[trigger] calls[i]).tool_use_id@ == uses[i].id@
            &&& calls[i].tool_name@ == uses[i].name@
            &&& calls[i].input@ == uses[i].input@
        }
}

/// The parts joined by `sep`, or nothing when there are no parts.
pub open spec fn joined_or_none(parts: Seq<Seq<char>>, sep: Seq<char>) -> Option<Seq<char>> {
    if parts.len() == 0 {
        None
    } else {
        Some(join_parts(parts, sep))
    }
}

/// The assistant block made from the first entry of a request.
pub open spec fn new_assistant_block(b: Block, a: RawAssistantEntry) -> bool {
    let c = a.message.content@;
    &&& b matches Block::Assistant(x)
    &&& x.uuid@ == or_empty(a.common.uuid)
    &&& x.parent_uuid == a.common.parent_uuid
    &&& x.timestamp == ts_or_epoch(a.common.timestamp)
    &&& x.session_id@ == or_empty(a.common.session_id)
    &&& x.request_id@ == or_empty(a.request_id)
    &&& x.model@ == or_empty(a.message.model)
    &&& opt_view(x.content) == joined_or_none(assistant_texts(c), ""@)
    &&& opt_view(x.thinking) == joined_or_none(assistant_thinking(c), "\n"@)
    &&& calls_match(x.tool_calls@, tool_uses(c))
    &&& x.stop_reason == a.message.stop_reason
    &&& x.tokens == usage_tokens(a.message.usage)
    &&& x.metadata == metadata_of(a.common)
}

/// `n` is the assistant block `o` with a later entry of the same request merged in:
/// texts appended, thinking appended on a new line, tool calls and tokens added, and the
/// stop reason taken from the later entry when it has one.
pub open spec fn merged_assistant_block(n: Block, o: Block, a: RawAssistantEntry) -> bool {
    let c = a.message.content@;
    let texts = assistant_texts(c);
    let thinking = assistant_thinking(c);
    &&& n matches Block::Assistant(x)
    &&& o matches Block::Assistant(y)
    &&& x.uuid == y.uuid
    &&& x.parent_uuid == y.parent_uuid
    &&& x.timestamp == y.timestamp
    &&& x.session_id == y.session_id
    &&& x.request_id == y.request_id
    &&& x.model == y.model
    &&& x.metadata == y.metadata
    &&& opt_view(x.content) == if texts.len() == 0 {
        opt_view(y.content)
    } else {
        Some(or_empty(y.content) + join_parts(texts, ""@))
    }
    &&& opt_view(x.thinking) == if thinking.len() == 0 {
        opt_view(y.thinking)
    } else {
        match y.thinking {
            Some(t) => Some(t@ + "\n"@ + join_parts(thinking, "\n"@)),
            None => Some(join_parts(thinking, "\n"@)),
        }
    }
    &&& x.tool_calls@.take(y.tool_calls@.len() as int) == y.tool_calls@
    &&& calls_match(x.tool_calls@.skip(y.tool_calls@.len() as int), tool_uses(c))
    &&& x.tokens == y.tokens.plus(usage_tokens(a.message.usage))
    &&& x.stop_reason == if a.message.stop_reason is Some {
        a.message.stop_reason
    } else {
        y.stop_reason
    }
}

// ─── Exec helpers ───────────────────────────────────────────────────────────

fn string_or_empty(o: Option<String>) -> (s: String)
    ensures
        s@ == or_empty(o),
        o matches Some(x) ==> s == x,
{
    match o {
        Some(s) => s,
        None => String::new(),
    }
}

fn extract_metadata(common: &CommonFields) -> (m: EntryMetadata)
    ensures
        m == metadata_of(*common),
{
    EntryMetadata {
        version: clone_opt_string(&common.version),
        cwd: clone_opt_string(&common.cwd),
        git_branch: clone_opt_string(&common.git_branch),
        slug: clone_opt_string(&common.slug),
        is_sidechain: common.is_sidechain,
    }
}

fn ts_or_zero(t: Option<i128>) -> (v: i128)
    ensures
        v == ts_or_epoch(t),
{
    match t {
        Some(v) => v,
        None => 0,
    }
}


/// Merges the content of a later entry of the same request into an assistant block.
fn merge_into(
    existing: &mut AssistantBlock,
    text_parts: &Vec<String>,
    thinking_parts: &Vec<String>,
    tool_calls: Vec<ToolCall>,
    tokens: &TokenUsage,
    stop_reason: Option<String>,
)
    requires
        old(existing).tokens.can_merge(*tokens),
    ensures
        final(existing).uuid == old(existing).uuid,
        final(existing).parent_uuid == old(existing).parent_uuid,
        final(existing).timestamp == old(existing).timestamp,
        final(existing).session_id == old(existing).session_id,
        final(existing).request_id == old(existing).request_id,
        final(existing).model == old(existing).model,
        final(existing).metadata == old(existing).metadata,
        opt_view(final(existing).content) == if text_parts@.len() == 0 {
            opt_view(old(existing).content)
        } else {
            Some(
                or_empty(old(existing).content) + join_parts(
                    string_views(text_parts@),
                    ""@,
                ),
            )
        },
        opt_view(final(existing).thinking) == if thinking_parts@.len() == 0 {
            opt_view(old(existing).thinking)
        } else {
            match old(existing).thinking {
                Some(t) => Some(t@ + "\n"@ + join_parts(string_views(thinking_parts@), "\n"@)),
                None => Some(join_parts(string_views(thinking_parts@), "\n"@)),
            }
        },
        final(existing).tool_calls@ == old(existing).tool_calls@ + tool_calls@,
        final(existing).tokens == old(existing).tokens.plus(*tokens),
        final(existing).stop_reason == if stop_reason is Some {
            stop_reason
        } else {
            old(existing).stop_reason
        },
{
    if text_parts.len() > 0 {
        let new_text = join_strings(text_parts, "");
        match existing.content.take() {
            Some(mut c) => {
                c.append(new_text.as_str());
                existing.content = Some(c);
            },
            None => {
                existing.content = Some(new_text);
            },
        }
    }
    if thinking_parts.len() > 0 {
        let new_thinking = join_strings(thinking_parts, "\n");
        match existing.thinking.take() {
            Some(mut t) => {
                t.append("\n");
                t.append(new_thinking.as_str());
                existing.thinking = Some(t);
            },
            None => {
                existing.thinking = Some(new_thinking);
            },
        }
    }
    let mut calls = tool_calls;
    existing.tool_calls.append(&mut calls);
    existing.tokens.merge(tokens);
    if stop_reason.is_some() {
        existing.stop_reason = stop_reason;
    }
}

fn usage_of(u: &Option<RawUsage>) -> (t: TokenUsage)
    ensures
        t == usage_tokens(*u),
{
    match u {
        Some(x) => TokenUsage {
            input_tokens: x.input_tokens,
            output_tokens: x.output_tokens,
            cache_creation_input_tokens: x.cache_creation_input_tokens,
            cache_read_input_tokens: x.cache_read_input_tokens,
        },
        None => TokenUsage::default(),
    }
}

impl Transformer {
    // ─── The state, as seen by contracts ────────────────────────────────────

    /// Processing a user entry: tool results are paired, in order, with the pending calls
    /// they answer (each pair becomes a tool block), and a user block follows unless the
    /// message holds nothing but tool results. Every new block records the entry's line.
    pub open spec fn user_step(
        &self,
        next: &Transformer,
        user: RawUserEntry,
        line_ref: RawLineRef,
    ) -> bool {
        &&& next.wf()
        &&& next.session_id() == next_session_id(self.session_id(), user.common)
        &&& forall|id: Seq<char>| next.request_block(id) == self.request_block(id)
        &&& next.blocks().take(self.blocks().len() as int) == self.blocks()
        &&& next.provenance().take(self.provenance().len() as int) == self.provenance()
        &&& all_single_line(next.provenance(), self.provenance().len() as int, line_ref)
        &&& tokens_total(next.blocks()) == tokens_total(self.blocks())
        &&& match user.message.content {
            UserContent::Text(t) => {
                &&& next.blocks().len() == self.blocks().len() + 1
                &&& user_block_from(next.blocks().last(), user.common, Some(t@))
                &&& next.pending() == self.pending()
            },
            UserContent::Blocks(bs) => {
                let (pairs, rest) = pair_results(self.pending(), bs@);
                let n = self.blocks().len() + pairs.len();
                &&& next.pending() == rest
                &&& forall|j: int|
                    0 <= j < pairs.len() ==> paired_tool_block(
                        #[trigger] next.blocks()[self.blocks().len() + j],
                        pairs[j].0,
                        pairs[j].1,
                        or_empty(user.common.uuid),
                    )
                &&& if only_tool_results(bs@) {
                    next.blocks().len() == n
                } else {
                    &&& next.blocks().len() == n + 1
                    &&& user_block_from(next.blocks().last(), user.common, joined_user_texts(bs@))
                }
            },
        }
    }

    /// The assistant block that makes the calls of an assistant entry: the block of its
    /// request when the request already has one, else the block the entry starts. Its uuid.
    pub open spec fn caller_uuid(&self, asst: RawAssistantEntry) -> Seq<char> {
        let rid = or_empty(asst.request_id);
        if rid.len() > 0 && self.request_block(rid) is Some {
            match self.blocks()[self.request_block(rid).unwrap()] {
                Block::Assistant(b) => b.uuid@,
                _ => or_empty(asst.common.uuid),
            }
        } else {
            or_empty(asst.common.uuid)
        }
    }

    /// Processing an assistant entry: its tool uses become pending calls of the calling
    /// block (see `caller_uuid`); an entry of a
    /// request already seen is merged into that request's block, any other entry starts
    /// a new assistant block (registered under its request id when it has one).
    pub open spec fn assistant_step(
        &self,
        next: &Transformer,
        asst: RawAssistantEntry,
        line_ref: RawLineRef,
    ) -> bool {
        let rid = or_empty(asst.request_id);
        &&& next.wf()
        &&& next.session_id() == next_session_id(self.session_id(), asst.common)
        &&& next.pending() == register_calls(
            self.pending(),
            tool_uses(asst.message.content@),
            asst.common,
            self.caller_uuid(asst),
            line_ref,
        )
        &&& tokens_total(next.blocks()) == tokens_total(self.blocks()) + usage_tokens(
            asst.message.usage,
        ).spec_total()
        &&& if rid.len() > 0 && self.request_block(rid) is Some {
            let i = self.request_block(rid).unwrap();
            &&& 0 <= i < self.blocks().len()
            &&& next.blocks() == self.blocks().update(i, next.blocks()[i])
            &&& merged_assistant_block(next.blocks()[i], self.blocks()[i], asst)
            &&& next.provenance() == self.provenance().update(
                i,
                self.provenance()[i].push(line_ref),
            )
            &&& forall|id: Seq<char>| next.request_block(id) == self.request_block(id)
        } else {
            &&& next.blocks().len() == self.blocks().len() + 1
            &&& next.blocks().drop_last() == self.blocks()
            &&& new_assistant_block(next.blocks().last(), asst)
            &&& next.provenance() == self.provenance().push(seq![line_ref])
            &&& forall|id: Seq<char>|
                next.request_block(id) == if rid.len() > 0 && id == rid {
                    Some(self.blocks().len() as int)
                } else {
                    self.request_block(id)
                }
        }
    }

    /// Processing a system entry: one system block is appended.
    pub open spec fn system_step(
        &self,
        next: &Transformer,
        sys: RawSystemEntry,
        line_ref: RawLineRef,
    ) -> bool {
        &&& next.wf()
        &&& next.session_id() == next_session_id(self.session_id(), sys.common)
        &&& next.blocks().len() == self.blocks().len() + 1
        &&& next.blocks().drop_last() == self.blocks()
        &&& system_block_from(next.blocks().last(), sys)
        &&& next.provenance() == self.provenance().push(seq![line_ref])
        &&& next.pending() == self.pending()
        &&& forall|id: Seq<char>| next.request_block(id) == self.request_block(id)
        &&& tokens_total(next.blocks()) == tokens_total(self.blocks())
    }

    /// The state of a new transformer: nothing produced or pending, no session id and no
    /// request seen.
    pub open spec fn is_fresh(&self) -> bool {
        &&& self.wf()
        &&& self.blocks() == Seq::<Block>::empty()
        &&& self.provenance() == Seq::<Seq<RawLineRef>>::empty()
        &&& self.pending() == Seq::<PendingView>::empty()
        &&& self.session_id() is None
        &&& forall|id: Seq<char>| self.request_block(id) is None
    }

    /// What finishing this state gives: its blocks, then a tool block without output for
    /// each call still pending; the lines each block came from (for a flushed call, the
    /// line of the assistant entry that made it); and the session id.
    pub open spec fn finishes_as(
        &self,
        blocks: Seq<Block>,
        lines: Map<usize, Vec<RawLineRef>>,
        session_id: Option<Seq<char>>,
    ) -> bool {
        &&& blocks.len() == self.blocks().len() + self.pending().len()
        &&& blocks.take(self.blocks().len() as int) == self.blocks()
        &&& forall|j: int|
            0 <= j < self.pending().len() ==> unpaired_tool_block(
                #[trigger] blocks[self.blocks().len() + j],
                self.pending()[j],
            )
        &&& forall|i: usize| #[trigger] lines.contains_key(i) <==> (i as int) < blocks.len()
        &&& forall|i: usize|
            (i as int) < self.blocks().len() ==> (#[trigger] lines[i])@ == self.provenance()[i as int]
        &&& forall|j: int|
            0 <= j < self.pending().len() ==> lines[(self.blocks().len() + j) as usize]@ == seq![
                (#[trigger] self.pending()[j]).line,
            ]
        &&& session_id == self.session_id()
    }

    /// The usage of an assistant entry can be added, field by field and without overflow,
    /// to the block of its request (there is nothing to add when the entry starts a block).
    pub open spec fn merge_fits(&self, asst: RawAssistantEntry) -> bool {
        let rid = or_empty(asst.request_id);
        rid.len() > 0 && self.request_block(rid) is Some ==> match self.blocks()[self.request_block(
            rid,
        ).unwrap()] {
            Block::Assistant(b) => b.tokens.can_merge(usage_tokens(asst.message.usage)),
            _ => true,
        }
    }

    /// When all tokens so far and the entry's fit in a `u64`, so does every merge.
    pub proof fn lemma_merge_fits(&self, asst: RawAssistantEntry)
        requires
            self.wf(),
            tokens_total(self.blocks()) + usage_tokens(asst.message.usage).spec_total() <= u64::MAX,
        ensures
            self.merge_fits(asst),
    {
        let rid = or_empty(asst.request_id);
        if rid.len() > 0 && self.request_block(rid) is Some {
            assert(self.assistant_by_request_id@.contains_key(rid));
            let i = self.assistant_by_request_id@[rid] as int;
            assert(0 <= i < self.blocks().len());
            lemma_tokens_total_element(self.blocks(), i);
        }
    }

    /// The blocks produced so far, in production order.
    pub closed spec fn blocks(&self) -> Seq<Block> {
        self.blocks@
    }

    /// For each block, the lines it was built from.
    pub closed spec fn provenance(&self) -> Seq<Seq<RawLineRef>> {
        self.provenance@.map_values(|v: Vec<RawLineRef>| v@)
    }

    /// The index of the assistant block that a request id is merged into.
    pub closed spec fn request_block(&self, id: Seq<char>) -> Option<int> {
        if self.assistant_by_request_id@.contains_key(id) {
            Some(self.assistant_by_request_id@[id] as int)
        } else {
            None
        }
    }

    /// Tool calls still waiting for their results.
    pub closed spec fn pending(&self) -> Seq<PendingView> {
        self.pending_tool_calls@.map_values(|p: PendingToolCall| p@)
    }

    /// The session id: the first one seen on any user, assistant or system entry.
    pub closed spec fn session_id(&self) -> Option<Seq<char>> {
        opt_view(self.session_id)
    }

    /// A consistent state records at least one line for every block.
    pub proof fn lemma_wf_provenance_len(&self)
        requires
            self.wf(),
        ensures
            self.provenance().len() == self.blocks().len(),
            forall|i: int| 0 <= i < self.provenance().len() ==> (#[trigger] self.provenance()[i]).len() > 0,
    {
        assert forall|i: int| 0 <= i < self.provenance().len() implies (#[trigger] self.provenance()[i]).len() > 0 by {
            assert(self.provenance()[i] == self.provenance@[i]@);
        }
    }

    /// Internal consistency of the state.
    pub closed spec fn wf(&self) -> bool {
        &&& self.provenance@.len() == self.blocks@.len()
        &&& forall|i: int| 0 <= i < self.provenance@.len() ==> (#[trigger] self.provenance@[i])@.len() > 0
        &&& pending_unique(self.pending())
        &&& forall|k: Seq<char>|
            #[trigger] self.assistant_by_request_id@.contains_key(k) ==> {
                let v = self.assistant_by_request_id@[k];
                &&& (v as int) < self.blocks@.len()
                &&& self.blocks@[v as int] matches Block::Assistant(a) && a.request_id@ == k
                &&& k.len() > 0
            }
    }

    pub fn new() -> (t: Self)
        ensures
            t.wf(),
            t.blocks() == Seq::<Block>::empty(),
            t.provenance() == Seq::<Seq<RawLineRef>>::empty(),
            t.pending() == Seq::<PendingView>::empty(),
            t.session_id() is None,
            forall|id: Seq<char>| t.request_block(id) is None,
    {
        let t = Transformer {
            blocks: Vec::new(),
            provenance: Vec::new(),
            assistant_by_request_id: StringHashMap::new(),
            pending_tool_calls: Vec::new(),
            session_id: None,
        };
        assert(t.provenance() =~= Seq::<Seq<RawLineRef>>::empty());
        assert(t.pending() =~= Seq::<PendingView>::empty());
        t
    }


    /// Processes one raw entry, producing or updating blocks.
    pub fn process_entry(&mut self, entry: RawEntry, line_ref: RawLineRef)
        requires
            old(self).wf(),
            match entry {
                RawEntry::Assistant(a) => old(self).merge_fits(a),
                _ => true,
            },
        ensures
            final(self).wf(),
            tokens_total(final(self).blocks()) == tokens_total(old(self).blocks()) + entry_tokens(
                entry,
            ),
            match entry {
                RawEntry::User(u) => old(self).user_step(final(self), u, line_ref),
                RawEntry::Assistant(a) => old(self).assistant_step(final(self), a, line_ref),
                RawEntry::System(s) => old(self).system_step(final(self), s, line_ref),
                _ => *final(self) == *old(self),
            },
    {
        match entry {
            RawEntry::User(user) => self.process_user(user, line_ref),
            RawEntry::Assistant(asst) => self.process_assistant(asst, line_ref),
            RawEntry::System(sys) => self.process_system(sys, line_ref),
            RawEntry::Progress | RawEntry::FileHistorySnapshot | RawEntry::QueueOperation => {},
        }
    }

    /// Finishes: every call still pending becomes a tool block without output. Returns the
    /// blocks, the lines each block came from (for a flushed call, the line of the assistant
    /// entry that made it), and the session id.
    pub fn finish(self) -> (r: (Vec<Block>, HashMap<NodeId, Vec<RawLineRef>>, Option<String>))
        requires
            self.wf(),
        ensures
            r.0@.len() == self.blocks().len() + self.pending().len(),
            r.0@.take(self.blocks().len() as int) == self.blocks(),
            forall|j: int|
                0 <= j < self.pending().len() ==> unpaired_tool_block(
                    #[trigger] r.0@[self.blocks().len() + j],
                    self.pending()[j],
                ),
            forall|i: usize| #[trigger] r.1@.contains_key(i) <==> (i as int) < r.0@.len(),
            forall|i: usize|
                (i as int) < self.blocks().len() ==> (#[trigger] r.1@[i])@ == self.provenance()[i as int],
            forall|j: int|
                0 <= j < self.pending().len() ==> r.1@[(self.blocks().len() + j) as usize]@ == seq![
                    (#[trigger] self.pending()[j]).line,
                ],
            opt_view(r.2) == self.session_id(),
            tokens_total(r.0@) == tokens_total(self.blocks()),
    {
        let ghost blocks0 = self.blocks();
        let ghost pending0 = self.pending();
        let ghost prov0 = self.provenance();
        let Transformer { blocks, provenance, assistant_by_request_id: _, pending_tool_calls, session_id } =
            self;
        let mut blocks = blocks;
        broadcast use vstd::std_specs::hash::group_hash_axioms;

        let mut prov_out: HashMap<NodeId, Vec<RawLineRef>> = HashMap::new();
        let mut provenance = provenance;
        let mut n: usize = 0;
        let ghost prov_all = provenance@;
        let total = provenance.len();
        while n < total
            invariant
                total == prov_all.len(),
                0 <= n <= total,
                provenance@ == prov_all.skip(n as int),
                forall|i: usize| #[trigger] prov_out@.contains_key(i) <==> i < n,
                forall|i: usize| i < n ==> #[trigger] prov_out@[i] == prov_all[i as int],
            decreases total - n,
        {
            let v = provenance.remove(0);
            prov_out.insert(n, v);
            assert(provenance@ =~= prov_all.skip(n + 1));
            n = n + 1;
        }
        let mut pending_tool_calls = pending_tool_calls;
        let mut k: usize = 0;
        let count = pending_tool_calls.len();
        let ghost pend_all = pending_tool_calls@;
        assert(blocks@.take(blocks0.len() as int) =~= blocks0);
        while k < count
            invariant
                count == pend_all.len(),
                pend_all.map_values(|p: PendingToolCall| p@) == pending0,
                0 <= k <= count,
                pending_tool_calls@ == pend_all.skip(k as int),
                blocks@.len() == blocks0.len() + k,
                blocks@.take(blocks0.len() as int) == blocks0,
                forall|j: int|
                    0 <= j < k ==> unpaired_tool_block(
                        #[trigger] blocks@[blocks0.len() + j],
                        pending0[j],
                    ),
                forall|i: usize| #[trigger] prov_out@.contains_key(i) <==> (i as int) < blocks@.len(),
                forall|i: usize| (i as int) < blocks0.len() ==> (#[trigger] prov_out@[i])@ == prov0[i as int],
                forall|j: int|
                    0 <= j < k ==> prov_out@[(blocks0.len() + j) as usize]@ == seq![
                        (#[trigger] pending0[j]).line,
                    ],
                tokens_total(blocks@) == tokens_total(blocks0),
            decreases count - k,
        {
            let pending = pending_tool_calls.remove(0);
            assert(pending == pend_all[k as int]);
            let line = pending.line;
            let idx = blocks.len();
            let block = Block::Tool(
                ToolBlock {
                    tool_use_id: pending.tool_use_id,
                    tool_name: pending.tool_name,
                    input: pending.input,
                    output: None,
                    is_error: false,
                    assistant_uuid: pending.assistant_uuid,
                    result_uuid: None,
                    timestamp: pending.timestamp,
                    metadata: pending.metadata,
                },
            );
            assert(unpaired_tool_block(block, pending0[k as int]));
            proof {
                lemma_tokens_total_push(blocks@, block);
            }
            let ghost before = blocks@;
            let ghost prov_before = prov_out@;
            blocks.push(block);
            let mut lv: Vec<RawLineRef> = Vec::new();
            lv.push(line);
            prov_out.insert(idx, lv);
            proof {
                assert(lv@ =~= seq![pending0[k as int].line]);
                assert forall|j: int|
                    0 <= j < k + 1 implies prov_out@[(blocks0.len() + j) as usize]@ == seq![
                        (#[trigger] pending0[j]).line,
                    ] by {
                    if j < k {
                        assert(prov_out@[(blocks0.len() + j) as usize] == prov_before[(blocks0.len() + j) as usize]);
                    }
                }
                assert(pending_tool_calls@ =~= pend_all.skip(k + 1));
                assert(blocks@.take(blocks0.len() as int) =~= before.take(blocks0.len() as int));
                assert forall|j: int|
                    0 <= j < k + 1 implies unpaired_tool_block(
                    #[trigger] blocks@[blocks0.len() + j],
                    pending0[j],
                ) by {
                    if j < k {
                        assert(blocks@[blocks0.len() + j] == before[blocks0.len() + j]);
                    }
                }
            }
            k = k + 1;
        }
        (blocks, prov_out, session_id)
    }

    fn note_session_id(&mut self, c: &CommonFields)
        ensures
            final(self).session_id() == next_session_id(old(self).session_id(), *c),
            final(self).blocks == old(self).blocks,
            final(self).provenance == old(self).provenance,
            final(self).assistant_by_request_id == old(self).assistant_by_request_id,
            final(self).pending_tool_calls == old(self).pending_tool_calls,
    {
        if self.session_id.is_none() {
            self.session_id = clone_opt_string(&c.session_id);
        }
    }

    /// Appends a block together with the single line it came from.
    fn push_block(&mut self, b: Block, line_ref: RawLineRef)
        requires
            old(self).wf(),
        ensures
            final(self).wf(),
            final(self).blocks() == old(self).blocks().push(b),
            final(self).provenance() == old(self).provenance().push(seq![line_ref]),
            final(self).assistant_by_request_id == old(self).assistant_by_request_id,
            final(self).pending_tool_calls == old(self).pending_tool_calls,
            final(self).session_id == old(self).session_id,
            tokens_total(final(self).blocks()) == tokens_total(old(self).blocks())
                + block_token_total(b),
    {
        proof {
            lemma_tokens_total_push(self.blocks(), b);
        }
        self.blocks.push(b);
        let mut lines = Vec::new();
        lines.push(line_ref);
        self.provenance.push(lines);
        assert(self.provenance() =~= old(self).provenance().push(seq![line_ref]));
        assert forall|k: Seq<char>| #[trigger] self.assistant_by_request_id@.contains_key(k) implies {
            let v = self.assistant_by_request_id@[k];
            &&& (v as int) < self.blocks@.len()
            &&& self.blocks@[v as int] matches Block::Assistant(a) && a.request_id@ == k
            &&& k.len() > 0
        } by {
            let v = old(self).assistant_by_request_id@[k];
            assert(old(self).blocks@[v as int] == self.blocks@[v as int]);
        }
    }


    /// Index of the pending call with the given id.
    fn pending_index(&self, id: &str) -> (r: Option<usize>)
        requires
            self.wf(),
        ensures
            r == match find_pending(self.pending(), id@) {
                Some(i) => Some(i as usize),
                None => None::<usize>,
            },
    {
        proof {
            lemma_find_pending(self.pending(), id@);
        }
        let mut i: usize = 0;
        while i < self.pending_tool_calls.len()
            invariant
                0 <= i <= self.pending_tool_calls@.len(),
                self.wf(),
                forall|j: int| 0 <= j < i ==> self.pending()[j].tool_use_id != id@,
            decreases self.pending_tool_calls@.len() - i,
        {
            if str_eq(self.pending_tool_calls[i].tool_use_id.as_str(), id) {
                proof {
                    lemma_find_pending(self.pending(), id@);
                    let f = find_pending(self.pending(), id@);
                    if f is None {
                        assert(self.pending()[i as int].tool_use_id != id@);
                    } else {
                        let fi = f.unwrap();
                        if fi != i {
                            assert(self.pending()[fi].tool_use_id != self.pending()[i as int].tool_use_id);
                        }
                    }
                }
                return Some(i);
            }
            i = i + 1;
        }
        None
    }

    // ─── User entries ───────────────────────────────────────────────────────

    fn process_user(&mut self, user: RawUserEntry, line_ref: RawLineRef)
        requires
            old(self).wf(),
        ensures
            old(self).user_step(final(self), user, line_ref),
    {
        let ghost user0 = user;
        let ghost old_blocks = self.blocks();
        let ghost old_prov = self.provenance();
        self.note_session_id(&user.common);
        let metadata = extract_metadata(&user.common);
        let timestamp = ts_or_zero(user.common.timestamp);
        let uuid = string_or_empty(user.common.uuid);
        let session_id = string_or_empty(user.common.session_id);
        match user.message.content {
            UserContent::Blocks(blocks) => {
                let ghost bs = blocks@;
                let ghost p0 = self.pending();
                let ghost mut produced: Seq<(PendingView, RawToolResult)> = Seq::empty();
                let mut has_tool_result = false;
                let mut has_non_tool_result = false;
                let mut text_content: Vec<String> = Vec::new();
                let mut k: usize = 0;
                assert(bs.skip(0) =~= bs);
                assert(old_blocks.take(old_blocks.len() as int) =~= old_blocks);
                assert(old_prov.take(old_prov.len() as int) =~= old_prov);
                while k < blocks.len()
                    invariant
                        bs == blocks@,
                        0 <= k <= bs.len(),
                        self.wf(),
                        self.session_id() == next_session_id(old(self).session_id(), user0.common),
                        forall|id: Seq<char>| self.request_block(id) == old(self).request_block(id),
                        uuid@ == or_empty(user0.common.uuid),
                        pair_results(p0, bs) == (
                            produced + pair_results(self.pending(), bs.skip(k as int)).0,
                            pair_results(self.pending(), bs.skip(k as int)).1,
                        ),
                        self.blocks().len() == old_blocks.len() + produced.len(),
                        self.blocks().take(old_blocks.len() as int) == old_blocks,
                        forall|j: int|
                            0 <= j < produced.len() ==> paired_tool_block(
                                #[trigger] self.blocks()[old_blocks.len() + j],
                                produced[j].0,
                                produced[j].1,
                                uuid@,
                            ),
                        self.provenance().take(old_prov.len() as int) == old_prov,
                        all_single_line(self.provenance(), old_prov.len() as int, line_ref),
                        self.provenance().len() == self.blocks().len(),
                        old_prov.len() == old_blocks.len(),
                        tokens_total(self.blocks()) == tokens_total(old_blocks),
                        has_tool_result == exists|i: int| 0 <= i < k && bs[i] is ToolResult,
                        has_non_tool_result == exists|i: int| 0 <= i < k && bs[i] is Text,
                        string_views(text_content@) == user_texts(bs.take(k as int)),
                    decreases bs.len() - k,
                {
                    let ghost cur = self.pending();
                    let ghost rest_bs = bs.skip(k as int);
                    assert(rest_bs[0] == bs[k as int]);
                    assert(rest_bs.drop_first() =~= bs.skip(k + 1));
                    assert(bs.take(k + 1).drop_last() =~= bs.take(k as int));
                    assert(bs.take(k + 1).last() == bs[k as int]);
                    match &blocks[k] {
                        UserContentBlock::ToolResult(tr) => {
                            has_tool_result = true;
                            let found = self.pending_index(tr.tool_use_id.as_str());
                            proof {
                                lemma_find_pending(cur, tr.tool_use_id@);
                            }
                            match found {
                                Some(i) => {
                                    assert(self.pending() == cur);
                                    assert(find_pending(cur, tr.tool_use_id@) is Some);
                                    let ghost fi = find_pending(cur, tr.tool_use_id@).unwrap();
                                    assert(0 <= fi < cur.len());
                                    assert(cur.len() == self.pending_tool_calls.len());
                                    assert(fi as usize == i);
                                    assert(find_pending(cur, tr.tool_use_id@) == Some(i as int));
                                    let pending = self.pending_tool_calls.remove(i);
                                    let ghost pair = (pending@, *tr);
                                    assert(self.pending() =~= cur.remove(i as int));
                                    let tool_block = Block::Tool(
                                        ToolBlock {
                                            tool_use_id: pending.tool_use_id,
                                            tool_name: pending.tool_name,
                                            input: pending.input,
                                            output: clone_opt_string(&tr.content),
                                            is_error: tr.is_error,
                                            assistant_uuid: pending.assistant_uuid,
                                            result_uuid: Some(uuid.clone()),
                                            timestamp: pending.timestamp,
                                            metadata: pending.metadata,
                                        },
                                    );
                                    assert(paired_tool_block(tool_block, pair.0, pair.1, uuid@));
                                    let ghost before_blocks = self.blocks();
                                    let ghost before_prov = self.provenance();
                                    assert(pending_unique(self.pending())) by {
                                        assert forall|a: int, b: int|
                                            0 <= a < self.pending().len() && 0 <= b
                                                < self.pending().len() && a != b implies
                                            self.pending()[a].tool_use_id
                                                != self.pending()[b].tool_use_id by {
                                            let a0 = if a < i { a } else { a + 1 };
                                            let b0 = if b < i { b } else { b + 1 };
                                            assert(self.pending()[a] == cur[a0]);
                                            assert(self.pending()[b] == cur[b0]);
                                        }
                                    }
                                    self.push_block(tool_block, line_ref);
                                    proof {
                                        produced = produced.push(pair);
                                        assert(self.blocks().take(old_blocks.len() as int)
                                            =~= before_blocks.take(old_blocks.len() as int));
                                        assert(self.provenance().take(old_prov.len() as int)
                                            =~= before_prov.take(old_prov.len() as int));
                                        assert forall|j: int|
                                            0 <= j < produced.len() implies paired_tool_block(
                                            #[trigger] self.blocks()[old_blocks.len() + j],
                                            produced[j].0,
                                            produced[j].1,
                                            uuid@,
                                        ) by {
                                            if j < produced.len() - 1 {
                                                assert(self.blocks()[old_blocks.len() + j]
                                                    == before_blocks[old_blocks.len() + j]);
                                            }
                                        }
                                        let tail = pair_results(self.pending(), bs.skip(k + 1));
                                        assert(rest_bs[0] == UserContentBlock::ToolResult(*tr));
                                        assert(find_pending(cur, tr.tool_use_id@) == Some(i as int));
                                        assert(self.pending() == cur.remove(i as int));
                                        assert(pair.0 == cur[i as int]);
                                        assert(pair_results(cur, rest_bs) == (
                                            seq![pair] + tail.0,
                                            tail.1,
                                        ));
                                        assert(produced + tail.0 =~= produced.drop_last() + (
                                        seq![pair] + tail.0));
                                    }
                                },
                                None => {
                                    proof {
                                        assert(pair_results(cur, rest_bs) == pair_results(
                                            cur,
                                            bs.skip(k + 1),
                                        ));
                                    }
                                },
                            }
                        },
                        UserContentBlock::Text { text } => {
                            has_non_tool_result = true;
                            match text {
                                Some(t) => {
                                    text_content.push(t.clone());
                                },
                                None => {},
                            }
                            proof {
                                assert(string_views(text_content@) =~= user_texts(
                                    bs.take(k + 1),
                                ));
                                assert(pair_results(cur, rest_bs) == pair_results(
                                    cur,
                                    bs.skip(k + 1),
                                ));
                            }
                        },
                    }
                    k = k + 1;
                }
                proof {
                    assert(bs.skip(k as int) =~= Seq::<UserContentBlock>::empty());
                    assert(bs.take(k as int) =~= bs);
                    assert(produced + Seq::<(PendingView, RawToolResult)>::empty()
                        =~= produced);
                }
                if has_tool_result && !has_non_tool_result {
                    return;
                }
                let content = if text_content.len() == 0 {
                    None
                } else {
                    Some(join_strings(&text_content, "\n"))
                };
                let user_block = Block::User(
                    UserBlock {
                        uuid,
                        parent_uuid: user.common.parent_uuid,
                        timestamp,
                        session_id,
                        content,
                        is_meta: user.common.is_meta,
                        metadata,
                    },
                );
                assert(user_block_from(user_block, user0.common, joined_user_texts(bs)));
                let ghost before_blocks = self.blocks();
                let ghost before_prov = self.provenance();
                self.push_block(user_block, line_ref);
                proof {
                    assert(self.blocks().take(old_blocks.len() as int) =~= before_blocks.take(
                        old_blocks.len() as int,
                    ));
                    assert(self.provenance().take(old_prov.len() as int) =~= before_prov.take(
                        old_prov.len() as int,
                    ));
                    assert forall|j: int|
                        0 <= j < produced.len() implies paired_tool_block(
                        #[trigger] self.blocks()[old_blocks.len() + j],
                        produced[j].0,
                        produced[j].1,
                        uuid@,
                    ) by {
                        assert(self.blocks()[old_blocks.len() + j] == before_blocks[old_blocks.len()
                            + j]);
                    }
                }
            },
            UserContent::Text(text) => {
                let user_block = Block::User(
                    UserBlock {
                        uuid,
                        parent_uuid: user.common.parent_uuid,
                        timestamp,
                        session_id,
                        content: Some(text),
                        is_meta: user.common.is_meta,
                        metadata,
                    },
                );
                self.push_block(user_block, line_ref);
                proof {
                    assert(self.blocks().take(old_blocks.len() as int) =~= old_blocks);
                    assert(self.provenance().take(old_prov.len() as int) =~= old_prov);
                }
            },
        }
    }


    /// Registers a pending tool call, replacing a pending call with the same id.
    fn register_pending(&mut self, p: PendingToolCall)
        requires
            old(self).wf(),
        ensures
            final(self).wf(),
            final(self).pending() == pending_insert(old(self).pending(), p@),
            final(self).blocks == old(self).blocks,
            final(self).provenance == old(self).provenance,
            final(self).assistant_by_request_id == old(self).assistant_by_request_id,
            final(self).session_id == old(self).session_id,
    {
        let ghost old_p = self.pending();
        proof {
            lemma_find_pending(old_p, p@.tool_use_id);
        }
        let found = self.pending_index(p.tool_use_id.as_str());
        match found {
            Some(i) => {
                let ghost pv = p@;
                assert(old_p.len() == self.pending_tool_calls.len());
                assert(find_pending(old_p, pv.tool_use_id) == Some(i as int));
                self.pending_tool_calls.set(i, p);
                assert(self.pending() =~= old_p.update(i as int, pv));
                assert(pending_unique(self.pending())) by {
                    assert forall|a: int, b: int|
                        0 <= a < self.pending().len() && 0 <= b < self.pending().len() && a
                            != b implies self.pending()[a].tool_use_id
                        != self.pending()[b].tool_use_id by {
                        if a != i && b != i {
                            assert(self.pending()[a] == old_p[a]);
                            assert(self.pending()[b] == old_p[b]);
                        } else if a == i {
                            assert(old_p[a].tool_use_id == pv.tool_use_id);
                            assert(old_p[b] == self.pending()[b]);
                        } else {
                            assert(old_p[b].tool_use_id == pv.tool_use_id);
                            assert(old_p[a] == self.pending()[a]);
                        }
                    }
                }
            },
            None => {
                let ghost pv = p@;
                self.pending_tool_calls.push(p);
                assert(self.pending() =~= old_p.push(pv));
                assert(pending_unique(self.pending())) by {
                    assert forall|a: int, b: int|
                        0 <= a < self.pending().len() && 0 <= b < self.pending().len() && a
                            != b implies self.pending()[a].tool_use_id
                        != self.pending()[b].tool_use_id by {
                        if a < old_p.len() && b < old_p.len() {
                            assert(self.pending()[a] == old_p[a]);
                            assert(self.pending()[b] == old_p[b]);
                        } else if a < old_p.len() {
                            assert(self.pending()[a] == old_p[a]);
                        } else {
                            assert(self.pending()[b] == old_p[b]);
                        }
                    }
                }
            },
        }
    }

    /// The assistant block registered for a request id.
    fn request_index(&self, id: &str) -> (r: Option<usize>)
        requires
            self.wf(),
        ensures
            match r {
                Some(i) => self.request_block(id@) == Some(i as int),
                None => self.request_block(id@) is None,
            },
    {
        match self.assistant_by_request_id.get(id) {
            Some(i) => Some(*i),
            None => None,
        }
    }

    // ─── Assistant entries ──────────────────────────────────────────────────

    fn process_assistant(&mut self, asst: RawAssistantEntry, line_ref: RawLineRef)
        requires
            old(self).wf(),
            old(self).merge_fits(asst),
        ensures
            old(self).assistant_step(final(self), asst, line_ref),
    {
        let ghost asst0 = asst;
        let ghost c = asst.message.content@;
        let ghost old_blocks = self.blocks();
        let ghost old_prov = self.provenance();
        let ghost p0 = self.pending();
        self.note_session_id(&asst.common);
        let metadata = extract_metadata(&asst.common);
        let timestamp = ts_or_zero(asst.common.timestamp);
        let uuid = string_or_empty(asst.common.uuid);
        let request_id = string_or_empty(asst.request_id);
        let existing: Option<usize> = if !request_id.as_str().is_empty() {
            self.request_index(request_id.as_str())
        } else {
            None
        };
        let caller: String = match existing {
            Some(idx) => {
                proof {
                    assert(self.assistant_by_request_id@.contains_key(request_id@));
                }
                match &self.blocks[idx] {
                    Block::Assistant(b) => b.uuid.clone(),
                    _ => uuid.clone(),
                }
            },
            None => uuid.clone(),
        };
        proof {
            assert(caller@ == old(self).caller_uuid(asst0));
        }

        let mut text_parts: Vec<String> = Vec::new();
        let mut thinking_parts: Vec<String> = Vec::new();
        let mut tool_calls: Vec<ToolCall> = Vec::new();
        let mut k: usize = 0;
        assert(c.take(0) =~= Seq::<AssistantContentBlock>::empty());
        while k < asst.message.content.len()
            invariant
                c == asst.message.content@,
                0 <= k <= c.len(),
                self.wf(),
                self.blocks() == old_blocks,
                self.provenance() == old_prov,
                forall|id: Seq<char>| self.request_block(id) == old(self).request_block(id),
                self.session_id() == next_session_id(old(self).session_id(), asst0.common),
                uuid@ == or_empty(asst0.common.uuid),
                caller@ == old(self).caller_uuid(asst0),
                timestamp == ts_or_epoch(asst0.common.timestamp),
                metadata == metadata_of(asst0.common),
                string_views(text_parts@) == assistant_texts(c.take(k as int)),
                string_views(thinking_parts@) == assistant_thinking(c.take(k as int)),
                calls_match(tool_calls@, tool_uses(c.take(k as int))),
                self.pending() == register_calls(
                    p0,
                    tool_uses(c.take(k as int)),
                    asst0.common,
                    old(self).caller_uuid(asst0),
                    line_ref,
                ),
            decreases c.len() - k,
        {
            assert(c.take(k + 1).drop_last() =~= c.take(k as int));
            assert(c.take(k + 1).last() == c[k as int]);
            match &asst.message.content[k] {
                AssistantContentBlock::Text { text } => {
                    match text {
                        Some(t) => {
                            if !t.as_str().is_empty() {
                                text_parts.push(t.clone());
                            }
                        },
                        None => {},
                    }
                    assert(string_views(text_parts@) =~= assistant_texts(c.take(k + 1)));
                    assert(string_views(thinking_parts@) =~= assistant_thinking(c.take(k + 1)));
                },
                AssistantContentBlock::Thinking { thinking } => {
                    match thinking {
                        Some(t) => {
                            if !t.as_str().is_empty() {
                                thinking_parts.push(t.clone());
                            }
                        },
                        None => {},
                    }
                    assert(string_views(text_parts@) =~= assistant_texts(c.take(k + 1)));
                    assert(string_views(thinking_parts@) =~= assistant_thinking(c.take(k + 1)));
                },
                AssistantContentBlock::ToolUse(tu) => {
                    let ghost before_calls = tool_calls@;
                    tool_calls.push(
                        ToolCall {
                            tool_use_id: tu.id.clone(),
                            tool_name: tu.name.clone(),
                            input: tu.input.clone(),
                        },
                    );
                    let p = PendingToolCall {
                        tool_use_id: tu.id.clone(),
                        tool_name: tu.name.clone(),
                        input: tu.input.clone(),
                        assistant_uuid: caller.clone(),
                        timestamp,
                        metadata: metadata.clone(),
                        line: line_ref,
                    };
                    assert(p@ == pending_for(*tu, asst0.common, old(self).caller_uuid(asst0), line_ref));
                    assert(tool_uses(c.take(k + 1)).drop_last() =~= tool_uses(c.take(k as int)));
                    self.register_pending(p);
                    assert(tool_uses(c.take(k + 1)) == tool_uses(c.take(k as int)).push(*tu));
                    assert(string_views(text_parts@) =~= assistant_texts(c.take(k + 1)));
                    assert(string_views(thinking_parts@) =~= assistant_thinking(c.take(k + 1)));
                    assert(calls_match(tool_calls@, tool_uses(c.take(k + 1)))) by {
                        assert forall|i: int| 0 <= i < tool_calls@.len() implies {
                            &&& (#[trigger] tool_calls@[i]).tool_use_id@ == tool_uses(
                                c.take(k + 1),
                            )[i].id@
                            &&& tool_calls@[i].tool_name@ == tool_uses(c.take(k + 1))[i].name@
                            &&& tool_calls@[i].input@ == tool_uses(c.take(k + 1))[i].input@
                        } by {
                            if i < before_calls.len() {
                                assert(tool_calls@[i] == before_calls[i]);
                            }
                        }
                    }
                },
            }
            k = k + 1;
        }
        assert(c.take(k as int) =~= c);
        let tokens = usage_of(&asst.message.usage);

        if !request_id.as_str().is_empty() {
            match existing {
                Some(existing_idx) => {
                    let ghost i = existing_idx as int;
                    proof {
                        assert(self.assistant_by_request_id@.contains_key(request_id@));
                        assert(0 <= i < self.blocks().len());
                    }
                    let ghost ob = self.blocks()[i];
                    assert(ob matches Block::Assistant(_));
                    match &mut self.blocks[existing_idx] {
                        Block::Assistant(existing) => {
                            merge_into(
                                existing,
                                &text_parts,
                                &thinking_parts,
                                tool_calls,
                                &tokens,
                                asst.message.stop_reason,
                            );
                        },
                        _ => {},
                    }
                    self.provenance[existing_idx].push(line_ref);
                    proof {
                        let nb = self.blocks()[i];
                        assert(nb matches Block::Assistant(_));
                        assert(nb->Assistant_0.tokens == ob->Assistant_0.tokens.plus(tokens));
                        assert(nb->Assistant_0.uuid == ob->Assistant_0.uuid);
                        assert(nb->Assistant_0.tool_calls@ == ob->Assistant_0.tool_calls@ + tool_calls@);
                        assert(opt_view(nb->Assistant_0.content) == if text_parts@.len() == 0 {
            opt_view(ob->Assistant_0.content)
        } else {
            Some(
                or_empty(ob->Assistant_0.content) + join_parts(
                    string_views(text_parts@),
                    ""@,
                ),
            )
        });
                        assert(nb->Assistant_0.tool_calls@.take(ob->Assistant_0.tool_calls@.len() as int) =~= ob->Assistant_0.tool_calls@);
                        assert(nb->Assistant_0.tool_calls@.skip(ob->Assistant_0.tool_calls@.len() as int) =~= tool_calls@);
                        assert(self.blocks() =~= old_blocks.update(i, nb));
                        assert(merged_assistant_block(nb, ob, asst0));
                        lemma_tokens_total_update(old_blocks, i, nb);
                        assert(self.provenance() =~= old_prov.update(i, old_prov[i].push(line_ref)));
                        assert forall|kk: Seq<char>| #[trigger] self.assistant_by_request_id@.contains_key(kk) implies {
                            let v = self.assistant_by_request_id@[kk];
                            &&& (v as int) < self.blocks@.len()
                            &&& self.blocks@[v as int] matches Block::Assistant(a) && a.request_id@ == kk
                            &&& kk.len() > 0
                        } by {
                            let v = self.assistant_by_request_id@[kk];
                            if v as int != i {
                                assert(self.blocks@[v as int] == old_blocks[v as int]);
                            }
                        }
                    }
                    return;
                },
                None => {},
            }
        }

        let content = if text_parts.len() == 0 {
            None
        } else {
            Some(join_strings(&text_parts, ""))
        };
        let thinking = if thinking_parts.len() == 0 {
            None
        } else {
            Some(join_strings(&thinking_parts, "\n"))
        };
        let model = string_or_empty(asst.message.model);
        let session_id = string_or_empty(asst.common.session_id);
        let block = Block::Assistant(
            AssistantBlock {
                uuid,
                parent_uuid: asst.common.parent_uuid,
                timestamp,
                session_id,
                request_id: request_id.clone(),
                model,
                content,
                thinking,
                tool_calls,
                stop_reason: asst.message.stop_reason,
                tokens,
                metadata,
            },
        );
        assert(new_assistant_block(block, asst0));
        let id = self.blocks.len();
        self.push_block(block, line_ref);
        if !request_id.as_str().is_empty() {
            let ghost before = self.assistant_by_request_id@;
            assert(forall|x: Seq<char>| self.request_block(x) == old(self).request_block(x));
            proof {
                assert(self.blocks@[id as int] == block);
            }
            self.assistant_by_request_id.insert(request_id, id);
            proof {
                assert forall|kk: Seq<char>| #[trigger] self.assistant_by_request_id@.contains_key(kk) implies {
                    let v = self.assistant_by_request_id@[kk];
                    &&& (v as int) < self.blocks@.len()
                    &&& self.blocks@[v as int] matches Block::Assistant(a) && a.request_id@ == kk
                    &&& kk.len() > 0
                } by {
                    if kk != or_empty(asst0.request_id) {
                        assert(before.contains_key(kk));
                    }
                }
            }
        }
        assert(self.blocks().drop_last() =~= old_blocks);
    }

    // ─── System entries ─────────────────────────────────────────────────────

    fn process_system(&mut self, sys: RawSystemEntry, line_ref: RawLineRef)
        requires
            old(self).wf(),
        ensures
            old(self).system_step(final(self), sys, line_ref),
    {
        self.note_session_id(&sys.common);
        let metadata = extract_metadata(&sys.common);
        let timestamp = ts_or_zero(sys.common.timestamp);
        let subtype = match &sys.subtype {
            Some(s) => {
                if str_eq(s.as_str(), "turn_duration") {
                    SystemSubtype::TurnDuration {
                        duration_ms: match sys.duration_ms {
                            Some(d) => d,
                            None => 0,
                        },
                    }
                } else if str_eq(s.as_str(), "stop_hook_summary") {
                    SystemSubtype::StopHookSummary
                } else if str_eq(s.as_str(), "compact_boundary") {
                    match &sys.compact_metadata {
                        Some(cm) => {
                            let trigger = match &cm.trigger {
                                Some(t) => t.clone(),
                                None => String::new(),
                            };
                            let pre_tokens = match cm.pre_tokens {
                                Some(n) => n,
                                None => 0,
                            };
                            SystemSubtype::CompactBoundary { trigger, pre_tokens }
                        },
                        None => SystemSubtype::CompactBoundary {
                            trigger: String::new(),
                            pre_tokens: 0,
                        },
                    }
                } else {
                    SystemSubtype::Other { subtype: s.clone() }
                }
            },
            None => SystemSubtype::Other { subtype: String::new() },
        };
        let ghost sys_copy = sys;
        let uuid = string_or_empty(sys.common.uuid);
        let session_id = string_or_empty(sys.common.session_id);
        let block = Block::System(
            SystemBlock {
                uuid,
                parent_uuid: sys.common.parent_uuid,
                timestamp,
                session_id,
                subtype,
                metadata,
            },
        );
        assert(system_block_from(block, sys_copy));
        self.push_block(block, line_ref);
        assert(self.blocks().drop_last() =~= old(self).blocks());
    }
}

} // verus!
