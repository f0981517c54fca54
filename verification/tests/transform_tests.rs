use clauson::model::block::{Block, SystemSubtype};
use clauson::model::types::RawLineRef;
use clauson::parser::raw::{
    AssistantContentBlock, CommonFields, RawAssistantEntry, RawAssistantMessage,
    RawCompactMetadata, RawEntry, RawSystemEntry, RawToolResult, RawToolUse, RawUsage,
    RawUserEntry, RawUserMessage, UserContent, UserContentBlock,
};
use clauson::parser::transform::Transformer;
use clauson::parser::{lines_fit, parse_session_lines};

fn make_line_ref(n: usize) -> RawLineRef {
    RawLineRef { line_number: n, byte_offset: 0, byte_length: 100 }
}

fn common(uuid: &str, parent: Option<&str>, ts: i128) -> CommonFields {
    CommonFields {
        uuid: Some(uuid.to_string()),
        parent_uuid: parent.map(|p| p.to_string()),
        timestamp: Some(ts),
        session_id: Some("sess1".to_string()),
        is_sidechain: false,
        version: None,
        cwd: None,
        git_branch: None,
        slug: None,
        is_meta: false,
    }
}

fn user_text(uuid: &str, text: &str, meta: bool) -> RawEntry {
    let mut c = common(uuid, None, 1_000);
    c.is_meta = meta;
    RawEntry::User(RawUserEntry {
        common: c,
        message: RawUserMessage {
            role: Some("user".to_string()),
            content: UserContent::Text(text.to_string()),
        },
    })
}

fn usage(i: u64, o: u64, cc: u64, cr: u64) -> Option<RawUsage> {
    Some(RawUsage {
        input_tokens: i,
        output_tokens: o,
        cache_creation_input_tokens: cc,
        cache_read_input_tokens: cr,
    })
}

fn assistant(
    uuid: &str,
    parent: Option<&str>,
    request: &str,
    content: Vec<AssistantContentBlock>,
    stop: Option<&str>,
    u: Option<RawUsage>,
) -> RawEntry {
    RawEntry::Assistant(RawAssistantEntry {
        common: common(uuid, parent, 2_000),
        request_id: Some(request.to_string()),
        message: RawAssistantMessage {
            model: Some("opus-4-6".to_string()),
            id: None,
            role: Some("assistant".to_string()),
            content,
            stop_reason: stop.map(|s| s.to_string()),
            usage: u,
        },
    })
}

fn text(t: &str) -> AssistantContentBlock {
    AssistantContentBlock::Text { text: Some(t.to_string()) }
}

fn transform_single(entry: RawEntry) -> Vec<Block> {
    let mut t = Transformer::new();
    t.process_entry(entry, make_line_ref(1));
    let (blocks, _, _) = t.finish();
    blocks
}

fn transform_sequence(entries: Vec<RawEntry>) -> Vec<Block> {
    let mut t = Transformer::new();
    for (i, e) in entries.into_iter().enumerate() {
        t.process_entry(e, make_line_ref(i + 1));
    }
    let (blocks, _, _) = t.finish();
    blocks
}

#[test]
fn transform_user_text_message() {
    let blocks = transform_single(user_text("u1", "Hello world", false));
    assert_eq!(blocks.len(), 1);
    match &blocks[0] {
        Block::User(u) => {
            assert_eq!(u.uuid, "u1");
            assert_eq!(u.content.as_deref(), Some("Hello world"));
            assert!(!u.is_meta);
        }
        _ => panic!("expected UserBlock"),
    }
}

#[test]
fn transform_user_meta() {
    let blocks = transform_single(user_text("u1", "meta content", true));
    assert_eq!(blocks.len(), 1);
    match &blocks[0] {
        Block::User(u) => assert!(u.is_meta),
        _ => panic!("expected UserBlock"),
    }
}

#[test]
fn transform_assistant_text() {
    let e = assistant("a1", Some("u1"), "req_01", vec![text("Hello!")], Some("end_turn"), usage(100, 50, 200, 300));
    let blocks = transform_single(e);
    assert_eq!(blocks.len(), 1);
    match &blocks[0] {
        Block::Assistant(a) => {
            assert_eq!(a.content.as_deref(), Some("Hello!"));
            assert_eq!(a.tokens.input_tokens, 100);
            assert_eq!(a.tokens.output_tokens, 50);
            assert_eq!(a.model, "opus-4-6");
            assert_eq!(a.stop_reason.as_deref(), Some("end_turn"));
        }
        _ => panic!("expected AssistantBlock"),
    }
}

#[test]
fn transform_assistant_with_thinking() {
    let e = assistant(
        "a1",
        None,
        "req_01",
        vec![
            AssistantContentBlock::Thinking { thinking: Some("Let me think...".to_string()) },
            text("Answer."),
        ],
        Some("end_turn"),
        None,
    );
    let blocks = transform_single(e);
    assert_eq!(blocks.len(), 1);
    match &blocks[0] {
        Block::Assistant(a) => {
            assert_eq!(a.thinking.as_deref(), Some("Let me think..."));
            assert_eq!(a.content.as_deref(), Some("Answer."));
        }
        _ => panic!("expected AssistantBlock"),
    }
}

fn read_tool_use() -> AssistantContentBlock {
    AssistantContentBlock::ToolUse(RawToolUse {
        id: "toolu_01".to_string(),
        name: "Read".to_string(),
        input: "{\"file_path\":\"/tmp/test\"}".to_string(),
    })
}

#[test]
fn transform_assistant_with_tool_calls() {
    let e = assistant("a1", None, "req_01", vec![text("Let me read that."), read_tool_use()], Some("tool_use"), None);
    let blocks = transform_single(e);
    // Assistant block + unpaired tool call
    assert_eq!(blocks.len(), 2);
    match &blocks[0] {
        Block::Assistant(a) => {
            assert_eq!(a.tool_calls.len(), 1);
            assert_eq!(a.tool_calls[0].tool_name, "Read");
            assert_eq!(a.tool_calls[0].tool_use_id, "toolu_01");
        }
        _ => panic!("expected AssistantBlock"),
    }
    // Unpaired tool call becomes ToolBlock with no output
    match &blocks[1] {
        Block::Tool(t) => {
            assert_eq!(t.tool_name, "Read");
            assert!(t.output.is_none());
        }
        _ => panic!("expected ToolBlock"),
    }
}

#[test]
fn transform_tool_result_pairs_with_tool_use() {
    let asst = assistant("a1", None, "req_01", vec![read_tool_use()], Some("tool_use"), None);
    let mut c = common("u2", Some("a1"), 3_000);
    c.is_meta = false;
    let user = RawEntry::User(RawUserEntry {
        common: c,
        message: RawUserMessage {
            role: Some("user".to_string()),
            content: UserContent::Blocks(vec![UserContentBlock::ToolResult(RawToolResult {
                tool_use_id: "toolu_01".to_string(),
                content: Some("\"file contents\"".to_string()),
                is_error: false,
            })]),
        },
    });
    let blocks = transform_sequence(vec![asst, user]);
    // Should have: AssistantBlock + ToolBlock (paired)
    assert_eq!(blocks.len(), 2);
    match &blocks[1] {
        Block::Tool(t) => {
            assert_eq!(t.tool_name, "Read");
            assert_eq!(t.output.as_deref(), Some("\"file contents\""));
            assert!(!t.is_error);
            assert_eq!(t.result_uuid.as_deref(), Some("u2"));
        }
        _ => panic!("expected ToolBlock"),
    }
    // Tool result carrier should NOT produce a UserBlock
    assert!(
        !blocks.iter().any(|b| matches!(b, Block::User(_))),
        "tool_result-only user entries should not produce UserBlocks"
    );
}

#[test]
fn transform_assistant_merge_by_request_id() {
    let first = assistant("a1", None, "req_01", vec![text("First part ")], None, usage(10, 5, 0, 0));
    let second = assistant("a2", None, "req_01", vec![text("second part.")], Some("end_turn"), usage(20, 10, 0, 0));
    let blocks = transform_sequence(vec![first, second]);
    assert_eq!(blocks.len(), 1);
    match &blocks[0] {
        Block::Assistant(a) => {
            assert_eq!(a.content.as_deref(), Some("First part second part."));
            assert_eq!(a.tokens.input_tokens, 30);
            assert_eq!(a.tokens.output_tokens, 15);
            assert_eq!(a.stop_reason.as_deref(), Some("end_turn"));
        }
        _ => panic!("expected AssistantBlock"),
    }
}

fn system(uuid: &str, subtype: &str, duration: Option<u64>, compact: Option<RawCompactMetadata>) -> RawEntry {
    RawEntry::System(RawSystemEntry {
        common: common(uuid, None, 4_000),
        subtype: Some(subtype.to_string()),
        duration_ms: duration,
        compact_metadata: compact,
    })
}

#[test]
fn transform_system_turn_duration() {
    let blocks = transform_single(system("s1", "turn_duration", Some(12345), None));
    assert_eq!(blocks.len(), 1);
    match &blocks[0] {
        Block::System(s) => match &s.subtype {
            SystemSubtype::TurnDuration { duration_ms } => {
                assert_eq!(*duration_ms, 12345);
            }
            _ => panic!("expected TurnDuration"),
        },
        _ => panic!("expected SystemBlock"),
    }
}

#[test]
fn transform_system_compact_boundary() {
    let meta = RawCompactMetadata { trigger: Some("auto".to_string()), pre_tokens: Some(169054) };
    let blocks = transform_single(system("s2", "compact_boundary", None, Some(meta)));
    assert_eq!(blocks.len(), 1);
    match &blocks[0] {
        Block::System(s) => match &s.subtype {
            SystemSubtype::CompactBoundary { trigger, pre_tokens } => {
                assert_eq!(trigger, "auto");
                assert_eq!(*pre_tokens, 169054);
            }
            _ => panic!("expected CompactBoundary"),
        },
        _ => panic!("expected SystemBlock"),
    }
}

#[test]
fn transform_skips_progress_and_snapshots() {
    let blocks = transform_sequence(vec![RawEntry::Progress, RawEntry::FileHistorySnapshot]);
    assert!(blocks.is_empty());
}

#[test]
fn transform_token_merging() {
    let first = assistant("a1", None, "req_01", vec![text("a")], None, usage(10, 5, 100, 200));
    let second = assistant("a2", None, "req_01", vec![text("b")], Some("end_turn"), usage(20, 10, 50, 100));
    let blocks = transform_sequence(vec![first, second]);
    match &blocks[0] {
        Block::Assistant(a) => {
            assert_eq!(a.tokens.input_tokens, 30);
            assert_eq!(a.tokens.output_tokens, 15);
            assert_eq!(a.tokens.cache_creation_input_tokens, 150);
            assert_eq!(a.tokens.cache_read_input_tokens, 300);
        }
        _ => panic!("expected AssistantBlock"),
    }
}

#[test]
fn parse_lines_records_provenance_and_session_id() {
    let lines = vec![
        (Some(user_text("u1", "hi", false)), 10usize),
        (None, 5usize),
        (Some(assistant("a1", Some("u1"), "r1", vec![text("ok")], None, usage(1, 2, 3, 4))), 7usize),
        (Some(assistant("a2", Some("u1"), "r1", vec![text("more")], None, usage(1, 1, 1, 1))), 3usize),
    ];
    assert!(lines_fit(&lines));
    let s = parse_session_lines(lines, "/tmp/x.jsonl".to_string());
    assert_eq!(s.file_path, "/tmp/x.jsonl");
    assert_eq!(s.session_id.as_deref(), Some("sess1"));
    assert_eq!(s.blocks.len(), 2);
    let p0 = &s.provenance[&0];
    assert_eq!(p0.len(), 1);
    assert_eq!(p0[0], RawLineRef { line_number: 1, byte_offset: 0, byte_length: 10 });
    let p1 = &s.provenance[&1];
    assert_eq!(p1.len(), 2);
    // line 3 starts after 10 + 1 and 5 + 1 bytes
    assert_eq!(p1[0], RawLineRef { line_number: 3, byte_offset: 17, byte_length: 7 });
    assert_eq!(p1[1], RawLineRef { line_number: 4, byte_offset: 25, byte_length: 3 });
    // tokens are conserved by the transformation
    assert!(s.tokens_fit());
    let total: u64 = s.blocks.iter().map(|b| match b {
        Block::Assistant(a) => a.tokens.total(),
        _ => 0,
    }).sum();
    assert_eq!(total, 10 + 4);
}

#[test]
fn lines_fit_detects_token_overflow() {
    let lines = vec![
        (Some(assistant("a1", None, "r1", vec![], None, usage(u64::MAX, 0, 0, 0))), 1usize),
        (Some(assistant("a2", None, "r2", vec![], None, usage(1, 0, 0, 0))), 1usize),
    ];
    assert!(!lines_fit(&lines));
}

#[test]
fn merged_entry_calls_belong_to_the_request_block() {
    let first = assistant("a1", Some("u1"), "req_01", vec![text("Looking.")], None, None);
    let second = assistant("a2", Some("u1"), "req_01", vec![read_tool_use()], Some("tool_use"), None);
    let lines = vec![
        (Some(user_text("u1", "read it", false)), 10usize),
        (Some(first), 10usize),
        (Some(second), 10usize),
    ];
    let s = parse_session_lines(lines, "/tmp/m.jsonl".to_string());
    assert_eq!(s.blocks.len(), 3);
    match &s.blocks[2] {
        Block::Tool(t) => assert_eq!(t.assistant_uuid, "a1"),
        _ => panic!("expected ToolBlock"),
    }
    // the tool block hangs below the assistant block that made the call
    assert_eq!(s.parent_of(2), Some(1));
    assert_eq!(s.children_of(1), &[2]);
    // the call that never got a result keeps the line of the entry that made it
    assert_eq!(s.provenance.len(), 3);
    assert_eq!(s.provenance[&2], vec![RawLineRef { line_number: 3, byte_offset: 22, byte_length: 10 }]);
    assert_eq!(s.provenance[&1].len(), 2);
}

#[test]
fn every_block_keeps_its_lines() {
    let asst = assistant("a1", Some("u1"), "req_01", vec![text("Reading."), read_tool_use()], Some("tool_use"), usage(1, 1, 0, 0));
    let lines = vec![
        (Some(user_text("u1", "hello", false)), 20usize),
        (None, 4usize),
        (Some(asst), 30usize),
        (Some(system("s1", "turn_duration", Some(10), None)), 12usize),
    ];
    assert!(lines_fit(&lines));
    let s = parse_session_lines(lines, "/tmp/p.jsonl".to_string());
    assert_eq!(s.blocks.len(), 4);
    for id in 0..s.blocks.len() {
        let refs = &s.provenance[&id];
        assert!(!refs.is_empty(), "block {id} has no provenance");
        for r in refs {
            assert!(r.line_number >= 1);
            assert_ne!(r.line_number, 2, "line 2 held no entry");
        }
    }
    // the unpaired Read call comes from the assistant entry's line
    assert_eq!(s.provenance[&3], vec![RawLineRef { line_number: 3, byte_offset: 26, byte_length: 30 }]);
}
