use clauson::model::block::{
    AssistantBlock, Block, BlockInfo, SystemBlock, SystemSubtype, ToolBlock, UserBlock,
};
use clauson::model::types::{BlockType, EntryMetadata, TokenUsage};

// 2026-02-18T14:46:16Z as nanoseconds since the epoch.
const NOW: i128 = 1_771_425_976_000_000_000;

fn make_user_block() -> Block {
    Block::User(UserBlock {
        uuid: "user-1".to_string(),
        parent_uuid: None,
        timestamp: NOW,
        session_id: "sess-1".to_string(),
        content: Some("Hello".to_string()),
        is_meta: false,
        metadata: EntryMetadata::default(),
    })
}

fn make_assistant_block() -> Block {
    Block::Assistant(AssistantBlock {
        uuid: "asst-1".to_string(),
        parent_uuid: Some("user-1".to_string()),
        timestamp: NOW,
        session_id: "sess-1".to_string(),
        request_id: "req-1".to_string(),
        model: "opus-4-6".to_string(),
        content: Some("Hi there".to_string()),
        thinking: None,
        tool_calls: vec![],
        stop_reason: Some("end_turn".to_string()),
        tokens: TokenUsage {
            input_tokens: 100,
            output_tokens: 50,
            cache_creation_input_tokens: 200,
            cache_read_input_tokens: 300,
        },
        metadata: EntryMetadata::default(),
    })
}

fn make_tool_block() -> Block {
    Block::Tool(ToolBlock {
        tool_use_id: "toolu_01".to_string(),
        tool_name: "Read".to_string(),
        input: "{\"file_path\":\"/tmp/test\"}".to_string(),
        output: Some("\"file contents\"".to_string()),
        is_error: false,
        assistant_uuid: "asst-1".to_string(),
        result_uuid: Some("user-2".to_string()),
        timestamp: NOW,
        metadata: EntryMetadata::default(),
    })
}

fn make_system_block() -> Block {
    Block::System(SystemBlock {
        uuid: "sys-1".to_string(),
        parent_uuid: None,
        timestamp: NOW,
        session_id: "sess-1".to_string(),
        subtype: SystemSubtype::TurnDuration { duration_ms: 12500 },
        metadata: EntryMetadata::default(),
    })
}

#[test]
fn block_info_user() {
    let block = make_user_block();
    assert_eq!(block.block_type(), BlockType::User);
    assert!(block.tokens().is_none());
    assert_eq!(block.uuid(), "user-1");
    assert!(block.parent_uuid().is_none());
    assert!(block.duration_ms().is_none());
}

#[test]
fn block_info_assistant() {
    let block = make_assistant_block();
    assert_eq!(block.block_type(), BlockType::Assistant);
    let tokens = block.tokens().unwrap();
    assert_eq!(tokens.input_tokens, 100);
    assert_eq!(tokens.output_tokens, 50);
    assert_eq!(block.uuid(), "asst-1");
    assert_eq!(block.parent_uuid(), Some("user-1"));
}

#[test]
fn block_info_tool() {
    let block = make_tool_block();
    assert_eq!(block.block_type(), BlockType::Tool);
    assert!(block.tokens().is_none());
    assert_eq!(block.uuid(), "toolu_01");
    assert_eq!(block.parent_uuid(), Some("asst-1"));
}

#[test]
fn block_info_system_turn_duration() {
    let block = make_system_block();
    assert_eq!(block.block_type(), BlockType::System);
    assert_eq!(block.duration_ms(), Some(12500));
    assert_eq!(block.uuid(), "sys-1");
}

#[test]
fn token_usage_total_input() {
    let t = TokenUsage {
        input_tokens: 10,
        output_tokens: 5,
        cache_creation_input_tokens: 100,
        cache_read_input_tokens: 200,
    };
    assert_eq!(t.total_input(), 310);
    assert_eq!(t.total(), 315);
}

#[test]
fn token_usage_merge() {
    let mut a = TokenUsage {
        input_tokens: 10,
        output_tokens: 5,
        ..Default::default()
    };
    let b = TokenUsage {
        input_tokens: 20,
        output_tokens: 15,
        ..Default::default()
    };
    a.merge(&b);
    assert_eq!(a.input_tokens, 30);
    assert_eq!(a.output_tokens, 20);
}

#[test]
fn block_type_display() {
    assert_eq!(BlockType::User.to_string(), "user");
    assert_eq!(BlockType::Assistant.to_string(), "assistant");
    assert_eq!(BlockType::Tool.to_string(), "tool");
    assert_eq!(BlockType::System.to_string(), "system");
}

#[test]
fn token_usage_merge_is_componentwise_and_adds_totals() {
    let mut a = TokenUsage {
        input_tokens: 1,
        output_tokens: 2,
        cache_creation_input_tokens: 3,
        cache_read_input_tokens: 4,
    };
    let b = TokenUsage {
        input_tokens: 10,
        output_tokens: 20,
        cache_creation_input_tokens: 30,
        cache_read_input_tokens: 40,
    };
    let before = a.total() + b.total();
    a.add_assign(b);
    assert_eq!(a.cache_creation_input_tokens, 33);
    assert_eq!(a.cache_read_input_tokens, 44);
    assert_eq!(a.total(), before);
    let mut z = TokenUsage::default();
    z.merge(&b);
    assert_eq!(z, b);
}

#[test]
fn entry_metadata_clone_keeps_fields() {
    let m = EntryMetadata {
        version: Some("1.0".to_string()),
        cwd: Some("/tmp".to_string()),
        git_branch: None,
        slug: Some("s".to_string()),
        is_sidechain: true,
    };
    let c = m.clone();
    assert_eq!(c.version.as_deref(), Some("1.0"));
    assert_eq!(c.cwd.as_deref(), Some("/tmp"));
    assert!(c.git_branch.is_none());
    assert!(c.is_sidechain);
}
