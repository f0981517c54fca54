use vstd::prelude::*;

use super::types::{BlockType, EntryMetadata, TokenUsage};

verus! {

/// A tool invocation extracted from an assistant message's content blocks.
///
/// `input` holds the tool input as compact JSON text.
#[derive(Debug)]
pub struct ToolCall {
    pub tool_use_id: String,
    pub tool_name: String,
    pub input: String,
}

/// System entry subtypes.
#[derive(Debug)]
pub enum SystemSubtype {
    TurnDuration { duration_ms: u64 },
    StopHookSummary,
    CompactBoundary { trigger: String, pre_tokens: u64 },
    Other { subtype: String },
}

/// A user message. Timestamps are nanoseconds since the Unix epoch (UTC).
#[derive(Debug)]
pub struct UserBlock {
    pub uuid: String,
    pub parent_uuid: Option<String>,
    pub timestamp: i128,
    pub session_id: String,
    pub content: Option<String>,
    pub is_meta: bool,
    pub metadata: EntryMetadata,
}

/// An assistant response, possibly merged from several log entries of one request.
#[derive(Debug)]
pub struct AssistantBlock {
    pub uuid: String,
    pub parent_uuid: Option<String>,
    pub timestamp: i128,
    pub session_id: String,
    pub request_id: String,
    pub model: String,
    pub content: Option<String>,
    pub thinking: Option<String>,
    pub tool_calls: Vec<ToolCall>,
    pub stop_reason: Option<String>,
    pub tokens: TokenUsage,
    pub metadata: EntryMetadata,
}

/// A tool call paired with its result (when one arrived).
///
/// `input` and `output` hold JSON as compact text.
#[derive(Debug)]
pub struct ToolBlock {
    pub tool_use_id: String,
    pub tool_name: String,
    pub input: String,
    pub output: Option<String>,
    pub is_error: bool,
    pub assistant_uuid: String,
    pub result_uuid: Option<String>,
    pub timestamp: i128,
    pub metadata: EntryMetadata,
}

/// A system entry.
#[derive(Debug)]
pub struct SystemBlock {
    pub uuid: String,
    pub parent_uuid: Option<String>,
    pub timestamp: i128,
    pub session_id: String,
    pub subtype: SystemSubtype,
    pub metadata: EntryMetadata,
}

#[derive(Debug)]
pub enum Block {
    User(UserBlock),
    Assistant(AssistantBlock),
    Tool(ToolBlock),
    System(SystemBlock),
}

/// The type of a block.
pub open spec fn spec_block_type(b: Block) -> BlockType {
    match b {
        Block::User(_) => BlockType::User,
        Block::Assistant(_) => BlockType::Assistant,
        Block::Tool(_) => BlockType::Tool,
        Block::System(_) => BlockType::System,
    }
}

/// The timestamp of a block.
pub open spec fn spec_timestamp(b: Block) -> i128 {
    match b {
        Block::User(u) => u.timestamp,
        Block::Assistant(a) => a.timestamp,
        Block::Tool(t) => t.timestamp,
        Block::System(s) => s.timestamp,
    }
}

/// The identifier of a block: its uuid, or the tool use id for a tool block.
pub open spec fn spec_uuid(b: Block) -> Seq<char> {
    match b {
        Block::User(u) => u.uuid@,
        Block::Assistant(a) => a.uuid@,
        Block::Tool(t) => t.tool_use_id@,
        Block::System(s) => s.uuid@,
    }
}

/// The identifier of a block's parent: the recorded parent uuid, or for a tool block
/// the uuid of the assistant block that called it.
pub open spec fn spec_parent_uuid(b: Block) -> Option<Seq<char>> {
    match b {
        Block::User(u) => opt_view(u.parent_uuid),
        Block::Assistant(a) => opt_view(a.parent_uuid),
        Block::Tool(t) => Some(t.assistant_uuid@),
        Block::System(s) => opt_view(s.parent_uuid),
    }
}

/// The token usage of a block: only assistant blocks have one.
pub open spec fn spec_tokens(b: Block) -> Option<TokenUsage> {
    match b {
        Block::Assistant(a) => Some(a.tokens),
        _ => None,
    }
}

/// The duration recorded by a turn-duration system block.
pub open spec fn spec_duration_ms(b: Block) -> Option<u64> {
    match b {
        Block::System(s) => match s.subtype {
            SystemSubtype::TurnDuration { duration_ms } => Some(duration_ms),
            _ => None,
        },
        _ => None,
    }
}

/// The view of an optional string.
pub open spec fn opt_view(o: Option<String>) -> Option<Seq<char>> {
    match o {
        Some(s) => Some(s@),
        None => None,
    }
}

/// The total token count of a block (zero for blocks without tokens).
pub open spec fn block_token_total(b: Block) -> int {
    match spec_tokens(b) {
        Some(t) => t.spec_total(),
        None => 0,
    }
}

/// The sum of the total token counts of the blocks.
pub open spec fn tokens_total(bs: Seq<Block>) -> int
    decreases bs.len(),
{
    if bs.len() == 0 {
        0
    } else {
        tokens_total(bs.drop_last()) + block_token_total(bs.last())
    }
}

pub proof fn lemma_tokens_total_push(bs: Seq<Block>, b: Block)
    ensures
        tokens_total(bs.push(b)) == tokens_total(bs) + block_token_total(b),
{
    assert(bs.push(b).drop_last() =~= bs);
}

pub proof fn lemma_tokens_total_nonneg(bs: Seq<Block>)
    ensures
        tokens_total(bs) >= 0,
    decreases bs.len(),
{
    if bs.len() > 0 {
        lemma_tokens_total_nonneg(bs.drop_last());
    }
}

/// One block's tokens never exceed the total of its sequence.
pub proof fn lemma_tokens_total_element(bs: Seq<Block>, i: int)
    requires
        0 <= i < bs.len(),
    ensures
        0 <= block_token_total(bs[i]) <= tokens_total(bs),
    decreases bs.len(),
{
    lemma_tokens_total_nonneg(bs.drop_last());
    if i < bs.len() - 1 {
        lemma_tokens_total_element(bs.drop_last(), i);
        assert(bs.drop_last()[i] == bs[i]);
    }
}

/// Replacing one block changes the total by the difference of the two blocks' tokens.
pub proof fn lemma_tokens_total_update(bs: Seq<Block>, i: int, b: Block)
    requires
        0 <= i < bs.len(),
    ensures
        tokens_total(bs.update(i, b)) == tokens_total(bs) - block_token_total(bs[i])
            + block_token_total(b),
    decreases bs.len(),
{
    if i == bs.len() - 1 {
        assert(bs.update(i, b).drop_last() =~= bs.drop_last());
    } else {
        lemma_tokens_total_update(bs.drop_last(), i, b);
        assert(bs.update(i, b).drop_last() =~= bs.drop_last().update(i, b));
    }
}

/// Generic querying across block types.
pub trait BlockInfo {
    spec fn info_block(&self) -> Block;

    fn block_type(&self) -> (t: BlockType)
        ensures
            t == spec_block_type(self.info_block()),
    ;

    fn timestamp(&self) -> (t: i128)
        ensures
            t == spec_timestamp(self.info_block()),
    ;

    fn uuid(&self) -> (u: &str)
        ensures
            u@ == spec_uuid(self.info_block()),
    ;

    fn parent_uuid(&self) -> (p: Option<&str>)
        ensures
            match p {
                Some(s) => spec_parent_uuid(self.info_block()) == Some(s@),
                None => spec_parent_uuid(self.info_block()) is None,
            },
    ;

    fn tokens(&self) -> (t: Option<&TokenUsage>)
        ensures
            match t {
                Some(u) => spec_tokens(self.info_block()) == Some(*u),
                None => spec_tokens(self.info_block()) is None,
            },
    ;

    fn duration_ms(&self) -> (d: Option<u64>)
        ensures
            d == spec_duration_ms(self.info_block()),
    ;
}

/// An optional string as an optional slice.
pub fn opt_as_str(o: &Option<String>) -> (r: Option<&str>)
    ensures
        match r {
            Some(s) => opt_view(*o) == Some(s@),
            None => o is None,
        },
{
    match o {
        Some(s) => Some(s.as_str()),
        None => None,
    }
}

impl BlockInfo for Block {
    open spec fn info_block(&self) -> Block {
        *self
    }

    fn block_type(&self) -> (t: BlockType) {
        match self {
            Block::User(_) => BlockType::User,
            Block::Assistant(_) => BlockType::Assistant,
            Block::Tool(_) => BlockType::Tool,
            Block::System(_) => BlockType::System,
        }
    }

    fn timestamp(&self) -> (t: i128) {
        match self {
            Block::User(b) => b.timestamp,
            Block::Assistant(b) => b.timestamp,
            Block::Tool(b) => b.timestamp,
            Block::System(b) => b.timestamp,
        }
    }

    fn uuid(&self) -> (u: &str) {
        match self {
            Block::User(b) => b.uuid.as_str(),
            Block::Assistant(b) => b.uuid.as_str(),
            Block::Tool(b) => b.tool_use_id.as_str(),
            Block::System(b) => b.uuid.as_str(),
        }
    }

    fn parent_uuid(&self) -> (p: Option<&str>) {
        match self {
            Block::User(b) => opt_as_str(&b.parent_uuid),
            Block::Assistant(b) => opt_as_str(&b.parent_uuid),
            Block::Tool(b) => Some(b.assistant_uuid.as_str()),
            Block::System(b) => opt_as_str(&b.parent_uuid),
        }
    }

    fn tokens(&self) -> (t: Option<&TokenUsage>) {
        match self {
            Block::Assistant(b) => Some(&b.tokens),
            _ => None,
        }
    }

    fn duration_ms(&self) -> (d: Option<u64>) {
        match self {
            Block::System(b) => match &b.subtype {
                SystemSubtype::TurnDuration { duration_ms } => Some(*duration_ms),
                _ => None,
            },
            _ => None,
        }
    }
}

} // verus!
