use vstd::prelude::*;

verus! {

/// One line of a session log, dispatched by its `type` field.
///
/// The JSON decoding of a line into this shape is done outside the library; JSON values
/// that the library carries but does not interpret (tool inputs and results) are held as
/// compact JSON text, and timestamps as nanoseconds since the Unix epoch.
#[derive(Debug)]
pub enum RawEntry {
    User(RawUserEntry),
    Assistant(RawAssistantEntry),
    System(RawSystemEntry),
    Progress,
    FileHistorySnapshot,
    QueueOperation,
}

/// Fields shared by user, assistant, and system entries.
#[derive(Debug)]
pub struct CommonFields {
    pub uuid: Option<String>,
    pub parent_uuid: Option<String>,
    pub timestamp: Option<i128>,
    pub session_id: Option<String>,
    pub is_sidechain: bool,
    pub version: Option<String>,
    pub cwd: Option<String>,
    pub git_branch: Option<String>,
    pub slug: Option<String>,
    pub is_meta: bool,
}

#[derive(Debug)]
pub struct RawUserEntry {
    pub common: CommonFields,
    pub message: RawUserMessage,
}

#[derive(Debug)]
pub struct RawUserMessage {
    pub role: Option<String>,
    pub content: UserContent,
}

/// User message content: either plain text or an array of content blocks.
#[derive(Debug)]
pub enum UserContent {
    Text(String),
    Blocks(Vec<UserContentBlock>),
}

#[derive(Debug)]
pub enum UserContentBlock {
    ToolResult(RawToolResult),
    Text { text: Option<String> },
}

#[derive(Debug)]
pub struct RawToolResult {
    pub tool_use_id: String,
    /// The result content as compact JSON text.
    pub content: Option<String>,
    pub is_error: bool,
}

#[derive(Debug)]
pub struct RawAssistantEntry {
    pub common: CommonFields,
    pub request_id: Option<String>,
    pub message: RawAssistantMessage,
}

#[derive(Debug)]
pub struct RawAssistantMessage {
    pub model: Option<String>,
    pub id: Option<String>,
    pub role: Option<String>,
    pub content: Vec<AssistantContentBlock>,
    pub stop_reason: Option<String>,
    pub usage: Option<RawUsage>,
}

#[derive(Debug)]
pub enum AssistantContentBlock {
    Text { text: Option<String> },
    Thinking { thinking: Option<String> },
    ToolUse(RawToolUse),
}

#[derive(Debug)]
pub struct RawToolUse {
    pub id: String,
    pub name: String,
    /// The tool input as compact JSON text.
    pub input: String,
}

#[derive(Debug, Clone, Copy, PartialEq, Eq, Structural)]
pub struct RawUsage {
    pub input_tokens: u64,
    pub output_tokens: u64,
    pub cache_creation_input_tokens: u64,
    pub cache_read_input_tokens: u64,
}

impl Default for RawUsage {
    fn default() -> (u: RawUsage)
        ensures
            u.input_tokens == 0 && u.output_tokens == 0 && u.cache_creation_input_tokens == 0
                && u.cache_read_input_tokens == 0,
    {
        RawUsage {
            input_tokens: 0,
            output_tokens: 0,
            cache_creation_input_tokens: 0,
            cache_read_input_tokens: 0,
        }
    }
}

#[derive(Debug)]
pub struct RawSystemEntry {
    pub common: CommonFields,
    pub subtype: Option<String>,
    pub duration_ms: Option<u64>,
    pub compact_metadata: Option<RawCompactMetadata>,
}

#[derive(Debug)]
pub struct RawCompactMetadata {
    pub trigger: Option<String>,
    pub pre_tokens: Option<u64>,
}

} // verus!
