use std::collections::HashMap;
use clauson::analysis::blocks::{
    block_summary, blocks_with_uuid_prefix, find_tool_tokens, format_timestamp,
    list_blocks, parse_block_type, subtype_string, summarize_block, turn_prompt, type_counts,
};
use clauson::analysis::detail::{detail_from_field, extract_tool_detail, truncate_detail};
use clauson::analysis::permissions::{
    permission_detail, permission_detail_summary, permission_details_for, permission_summary,
    waits_ok,
};
use clauson::analysis::time::{durations_by_block, estimate_durations, sort_turns, time_by_group, timestamps_ok};
use clauson::analysis::tokens::{
    parse_token_types, pct_column_label, token_type_json_key, token_type_label, token_value,
};
use clauson::analysis::tools::{tool_call_counts, tool_stats};
use clauson::analysis::usage::{tokens_by_tool, tokens_by_type, total_usage};
use clauson::model::block::{
    AssistantBlock, Block, SystemBlock, SystemSubtype, ToolBlock, ToolCall, UserBlock,
};
use clauson::model::session::Session;
use clauson::model::tool_event::ToolCallLifecycle;
use clauson::model::types::{BlockType, EntryMetadata, TokenUsage};
use clauson::output::{Column, Table};
use clauson::text::{char_is_whitespace, first_line_of, format_number, truncate};

const MS: i128 = 1_000_000;
const T0: i128 = 1_771_425_976_000_000_000;

fn user(uuid: &str, parent: Option<&str>, t: i128, content: Option<&str>, meta: bool) -> Block {
    Block::User(UserBlock {
        uuid: uuid.to_string(),
        parent_uuid: parent.map(|p| p.to_string()),
        timestamp: t,
        session_id: "s".to_string(),
        content: content.map(|c| c.to_string()),
        is_meta: meta,
        metadata: EntryMetadata::default(),
    })
}

fn call(id: &str, name: &str) -> ToolCall {
    ToolCall { tool_use_id: id.to_string(), tool_name: name.to_string(), input: "{}".to_string() }
}

fn usage(i: u64, o: u64, cc: u64, cr: u64) -> TokenUsage {
    TokenUsage { input_tokens: i, output_tokens: o, cache_creation_input_tokens: cc, cache_read_input_tokens: cr }
}

fn asst(uuid: &str, parent: &str, t: i128, content: Option<&str>, calls: Vec<ToolCall>, tokens: TokenUsage) -> Block {
    Block::Assistant(AssistantBlock {
        uuid: uuid.to_string(),
        parent_uuid: Some(parent.to_string()),
        timestamp: t,
        session_id: "s".to_string(),
        request_id: format!("req-{uuid}"),
        model: "m".to_string(),
        content: content.map(|c| c.to_string()),
        thinking: None,
        tool_calls: calls,
        stop_reason: None,
        tokens,
        metadata: EntryMetadata::default(),
    })
}

fn tool(id: &str, name: &str, asst_uuid: &str, t: i128, input: &str, err: bool) -> Block {
    Block::Tool(ToolBlock {
        tool_use_id: id.to_string(),
        tool_name: name.to_string(),
        input: input.to_string(),
        output: None,
        is_error: err,
        assistant_uuid: asst_uuid.to_string(),
        result_uuid: None,
        timestamp: t,
        metadata: EntryMetadata::default(),
    })
}

fn system(uuid: &str, t: i128, st: SystemSubtype) -> Block {
    Block::System(SystemBlock {
        uuid: uuid.to_string(),
        parent_uuid: None,
        timestamp: t,
        session_id: "s".to_string(),
        subtype: st,
        metadata: EntryMetadata::default(),
    })
}

/// A session of two turns.
fn sample_session() -> Session {
    let blocks = vec![
        user("u0", None, T0 - 5_000 * MS, None, true),
        user("u1", None, T0, Some("first prompt"), false),
        asst("a1", "u1", T0 + 1_000 * MS, Some("reading"), vec![call("t1", "Read"), call("t2", "Bash")], usage(10, 20, 30, 40)),
        tool("t1", "Read", "a1", T0 + 1_500 * MS, "{\"file_path\":\"/tmp/a\"}", false),
        tool("t2", "Bash", "a1", T0 + 2_500 * MS, "{\"command\":\"ls -la\"}", true),
        system("s1", T0 + 4_000 * MS, SystemSubtype::TurnDuration { duration_ms: 4000 }),
        user("u2", Some("s1"), T0 + 10_000 * MS, Some("second"), false),
        asst("a2", "u2", T0 + 11_000 * MS, None, vec![], usage(1, 2, 3, 4)),
        tool("t3", "Read", "a2", T0 + 12_000 * MS, "{\"file_path\":\"/tmp/b\"}", false),
    ];
    Session::build(blocks, HashMap::new(), Some("s".to_string()), "f.jsonl".to_string())
}

#[test]
fn session_indexes_and_graph() {
    let s = sample_session();
    assert_eq!(s.node_for_uuid("a1"), Some(2));
    assert_eq!(s.node_for_uuid("zzz"), None);
    assert_eq!(s.parent_of(2), Some(1));
    assert_eq!(s.parent_of(1), None);
    assert_eq!(s.children_of(2), &[3, 4]);
    assert_eq!(s.children_of(99), &[] as &[usize]);
    assert_eq!(s.roots, vec![0, 1, 5]);
    assert_eq!(s.blocks_of_type(BlockType::Tool), &[3, 4, 8]);
    assert_eq!(s.tools_by_name("Read"), &[3, 8]);
    assert_eq!(s.tools_by_name("Grep"), &[] as &[usize]);
    assert_eq!(s.ancestors(8), vec![7, 6, 5]);
    assert!(s.ancestors(0).is_empty());
    assert_eq!(s.chronological, vec![0, 1, 2, 3, 4, 5, 6, 7, 8]);
}

#[test]
fn subtree_lists_block_then_descendants_from_a_stack() {
    let s = sample_session();
    assert_eq!(s.subtree(1), vec![1, 2, 3, 4]);
    assert_eq!(s.subtree(5), vec![5, 6, 7, 8]);
    assert_eq!(s.subtree(0), vec![0]);
    assert_eq!(s.subtree(99), vec![99]);
    let blocks = vec![
        user("r", None, 1, None, false),
        user("a", Some("r"), 2, None, false),
        user("b", Some("r"), 3, None, false),
        user("c", Some("a"), 4, None, false),
        user("d", Some("b"), 5, None, false),
        user("e", Some("a"), 6, None, false),
    ];
    let t = Session::build(blocks, HashMap::new(), None, String::new());
    // the children of the root, then the last child's descendants before the first's
    assert_eq!(t.subtree(0), vec![0, 1, 2, 4, 3, 5]);
    assert_eq!(t.subtree(1), vec![1, 3, 5]);
}

#[test]
fn chronological_order_is_stable_sort_by_time() {
    let blocks = vec![
        user("b", None, 30, Some("x"), false),
        user("a", None, 10, Some("y"), false),
        user("c", None, 30, Some("z"), false),
        user("d", None, 20, Some("w"), false),
    ];
    let s = Session::build(blocks, HashMap::new(), None, String::new());
    assert_eq!(s.chronological, vec![1, 3, 0, 2]);
}

#[test]
fn turns_split_at_prompts() {
    let s = sample_session();
    assert!(s.tokens_fit());
    let turns = s.turns();
    assert_eq!(turns.len(), 2);
    let t0 = &turns[0];
    assert_eq!(t0.index, 0);
    assert_eq!(t0.user_block, 1);
    assert_eq!(t0.all_blocks, vec![1, 2, 3, 4, 5]);
    assert_eq!(t0.tool_blocks, vec![3, 4]);
    assert_eq!(t0.assistant_blocks, vec![2]);
    assert_eq!(t0.system_blocks, vec![5]);
    assert_eq!(t0.total_tokens, usage(10, 20, 30, 40));
    assert_eq!(t0.duration_ms, Some(4000));
    let t1 = &turns[1];
    assert_eq!(t1.index, 1);
    assert_eq!(t1.all_blocks, vec![6, 7, 8]);
    assert_eq!(t1.total_tokens.total(), 10);
    assert_eq!(t1.duration_ms, None);
    // the turns partition the blocks from the first prompt on
    let joined: Vec<usize> = turns.iter().flat_map(|t| t.all_blocks.clone()).collect();
    assert_eq!(joined, s.chronological[1..].to_vec());
    assert_eq!(turn_prompt(&s, t0.user_block), "first prompt");
}

#[test]
fn turns_empty_without_prompts() {
    let blocks = vec![user("m", None, 1, Some("meta"), true), user("n", None, 2, None, false)];
    let s = Session::build(blocks, HashMap::new(), None, String::new());
    assert!(s.turns().is_empty());
}

#[test]
fn list_blocks_filters() {
    let s = sample_session();
    assert_eq!(list_blocks(&s, None, None, None), vec![0, 1, 2, 3, 4, 5, 6, 7, 8]);
    assert_eq!(list_blocks(&s, Some("tool"), None, None), vec![3, 4, 8]);
    assert_eq!(list_blocks(&s, Some("bogus"), None, None), vec![0, 1, 6]);
    assert_eq!(list_blocks(&s, None, Some(2), None), vec![6, 7, 8]);
    assert!(list_blocks(&s, None, Some(0), None).is_empty());
    assert!(list_blocks(&s, None, Some(3), None).is_empty());
    assert_eq!(list_blocks(&s, None, Some(1), Some("Read")), vec![3]);
    assert_eq!(parse_block_type("system"), BlockType::System);
}

#[test]
fn type_and_tool_counts() {
    let s = sample_session();
    let c = type_counts(&s);
    assert_eq!(c, vec![(BlockType::User, 3), (BlockType::Assistant, 2), (BlockType::Tool, 3), (BlockType::System, 1)]);
    let counts = tool_call_counts(&s);
    assert_eq!(counts, vec![("Read".to_string(), 2), ("Bash".to_string(), 1)]);
}

#[test]
fn tool_stats_sorting() {
    let s = sample_session();
    let by_count = tool_stats(&s, "count");
    assert_eq!(by_count[0].name, "Read");
    assert_eq!(by_count[0].count, 2);
    assert_eq!(by_count[0].errors, 0);
    assert_eq!(by_count[1].name, "Bash");
    assert_eq!(by_count[1].errors, 1);
    let by_name = tool_stats(&s, "name");
    assert_eq!(by_name[0].name, "Bash");
    assert_eq!(by_name[1].name, "Read");
}

#[test]
fn token_aggregates() {
    let s = sample_session();
    let total = total_usage(&s);
    assert_eq!(total, usage(11, 22, 33, 44));
    let by_type = tokens_by_type(&s);
    assert_eq!(by_type, vec![("assistant".to_string(), usage(11, 22, 33, 44))]);
    let by_tool = tokens_by_tool(&s, "total");
    // a1 splits 100 tokens between Read and Bash; a2 has no tool calls
    assert_eq!(by_tool.len(), 3);
    assert_eq!(by_tool[0], ("Read".to_string(), usage(5, 10, 15, 20)));
    assert_eq!(by_tool[1], ("Bash".to_string(), usage(5, 10, 15, 20)));
    assert_eq!(by_tool[2], ("(no tool)".to_string(), usage(1, 2, 3, 4)));
    let by_input = tokens_by_tool(&s, "input");
    assert_eq!(by_input[2].0, "(no tool)");
    assert_eq!(find_tool_tokens(&s, "t2", "output"), Some((20, 2)));
    assert_eq!(find_tool_tokens(&s, "t9", "output"), None);
}

#[test]
fn token_type_helpers() {
    assert_eq!(
        parse_token_types("all"),
        vec!["input", "output", "cache-create", "cache-read", "total"]
    );
    assert_eq!(parse_token_types(" output, cache-read ,total"), vec!["output", "cache-read", "total"]);
    assert_eq!(parse_token_types(""), vec![""]);
    assert_eq!(parse_token_types("a,,b"), vec!["a", "", "b"]);
    let u = usage(1, 2, 3, 4);
    assert_eq!(token_value(&u, "input"), 1);
    assert_eq!(token_value(&u, "output"), 2);
    assert_eq!(token_value(&u, "cache-create"), 3);
    assert_eq!(token_value(&u, "cache-read"), 4);
    assert_eq!(token_value(&u, "anything"), 10);
    assert_eq!(token_type_label("cache-read"), "Cache Read");
    assert_eq!(token_type_label("x"), "Total");
    assert_eq!(pct_column_label("total", 1), "% of Total");
    assert_eq!(pct_column_label("total", 2), "% of Total");
    assert_eq!(pct_column_label("input", 1), "% of Input");
    assert_eq!(token_type_json_key("cache-create"), "cache_creation_input_tokens");
    assert_eq!(token_type_json_key("total"), "total");
}

#[test]
fn durations_and_time_groups() {
    let s = sample_session();
    assert!(timestamps_ok(&s));
    let d = estimate_durations(&s);
    let ms: Vec<u64> = d.iter().map(|b| b.duration_ms).collect();
    assert_eq!(ms, vec![5000, 1000, 500, 1000, 1500, 6000, 1000, 1000, 0]);
    let by_block = durations_by_block(&s);
    assert_eq!(by_block[3], 1000);
    assert_eq!(by_block[4], 1500);
    let by_tool = time_by_group(&s, true);
    assert_eq!(by_tool.len(), 2);
    assert_eq!(by_tool[0].name, "Bash");
    assert_eq!(by_tool[0].total_ms, 1500);
    assert_eq!(by_tool[1].name, "Read");
    assert_eq!(by_tool[1].count, 2);
    assert_eq!(by_tool[1].total_ms, 1000);
    let by_type = time_by_group(&s, false);
    assert_eq!(by_type[0].name, "user");
    assert_eq!(by_type[0].total_ms, 7000);
    assert_eq!(by_type[1].name, "system");
    assert_eq!(by_type[3].name, "assistant");
}

#[test]
fn sort_turns_by_value() {
    let s = sample_session();
    let mut turns = s.turns();
    sort_turns(&mut turns, &s, "tool-calls");
    assert_eq!(turns[0].index, 0);
    sort_turns(&mut turns, &s, "tokens");
    assert_eq!(turns[0].index, 0);
    assert_eq!(turns[1].index, 1);
    sort_turns(&mut turns, &s, "time");
    // turn 1 has no recorded duration: its blocks sum to 1000 + 1000 + 0 ms, below 4000
    assert_eq!(turns[0].index, 0);
    assert_eq!(turns[1].index, 1);
}

#[test]
fn block_summaries() {
    let s = sample_session();
    let b = &s.blocks[2];
    assert_eq!(summarize_block(b, 60, "tool calls"), "reading [2 tool calls]");
    assert_eq!(summarize_block(&s.blocks[7], 60, "tools"), "(empty)");
    assert_eq!(summarize_block(&s.blocks[4], 60, "tools"), "Bash ERROR");
    assert_eq!(summarize_block(&s.blocks[0], 60, "tools"), "(no content)");
    assert_eq!(summarize_block(&s.blocks[5], 60, "tools"), "TurnDuration { duration_ms: 4000 }");
    let line = block_summary(1, &s.blocks[1]);
    assert_eq!(line.block_type, "user");
    assert_eq!(line.uuid, "u1");
    assert_eq!(line.timestamp.as_deref(), Some("14:46:16"));
    assert_eq!(line.summary, "first prompt");
    assert_eq!(
        subtype_string(&SystemSubtype::CompactBoundary { trigger: "a\"b".to_string(), pre_tokens: 7 }),
        "CompactBoundary { trigger: \"a\\\"b\", pre_tokens: 7 }"
    );
    assert_eq!(subtype_string(&SystemSubtype::Other { subtype: "x".to_string() }), "Other { subtype: \"x\" }");
    assert_eq!(blocks_with_uuid_prefix(&s, "t"), vec![3, 4, 8]);
    assert!(blocks_with_uuid_prefix(&s, "nope").is_empty());
}

#[test]
fn timestamps_as_text() {
    assert_eq!(format_timestamp(T0, "%Y-%m-%d %H:%M:%S").as_deref(), Some("2026-02-18 14:46:16"));
    assert_eq!(format_timestamp(T0 + 829 * MS, "%H:%M:%S%.3f").as_deref(), Some("14:46:16.829"));
    assert_eq!(format_timestamp(-1, "%Y-%m-%d %H:%M:%S").as_deref(), Some("1969-12-31 23:59:59"));
}

#[test]
fn tool_details() {
    assert_eq!(extract_tool_detail("Bash", "{\"command\":\"ls -la\\nrm x\"}"), "ls -la");
    assert_eq!(extract_tool_detail("Read", "{}"), "(no path)");
    assert_eq!(extract_tool_detail("Grep", "{\"pattern\":\"fn main\"}"), "fn main");
    assert_eq!(extract_tool_detail("WebFetch", "{\"url\":\"u\"}"), "{\"url\":\"u\"}");
    let long = format!("{{\"command\":\"{}\"}}", "x".repeat(100));
    assert_eq!(extract_tool_detail("Bash", &long), format!("{}...", "x".repeat(57)));
    assert_eq!(permission_detail("Bash", &long), format!("{}...", "x".repeat(37)));
    assert_eq!(truncate_detail("one\r\ntwo"), "one");
    assert_eq!(detail_from_field("Edit", None, "{}"), "(no path)");
    // a cut inside a multi-byte character keeps the whole characters before it
    let wide = format!("{{\"command\":\"{}\"}}", "é".repeat(40));
    assert_eq!(extract_tool_detail("Bash", &wide), format!("{}...", "é".repeat(28)));
    assert_eq!(permission_detail("Bash", &wide), format!("{}...", "é".repeat(18)));
}

fn lc(id: &str, tool: &str, input: &str, perm: Option<i128>, done: Option<i128>, ok: bool) -> ToolCallLifecycle {
    ToolCallLifecycle {
        tool_use_id: id.to_string(),
        tool_name: tool.to_string(),
        tool_input: input.to_string(),
        pre_tool_use: Some(T0),
        permission_request: perm,
        completion: done,
        succeeded: ok,
    }
}

#[test]
fn permission_statistics() {
    let ls = vec![
        lc("1", "Read", "{}", None, Some(T0 + MS), true),
        lc("2", "Bash", "{\"command\":\"cargo test\"}", Some(T0), Some(T0 + 3_000 * MS), true),
        lc("3", "Bash", "{\"command\":\"rm -rf x\"}", Some(T0), Some(T0 + 1_500 * MS), false),
        lc("4", "Bash", "{\"command\":\"cargo test\"}", None, Some(T0 + MS), true),
    ];
    assert!(waits_ok(&ls));
    let sum = permission_summary(&ls);
    assert_eq!(sum.len(), 2);
    assert_eq!(sum[0].name, "Bash");
    assert_eq!(sum[0].calls, 3);
    assert_eq!(sum[0].prompted, 2);
    assert_eq!(sum[0].denied, 1);
    assert_eq!(sum[0].wait_ms, 4500);
    assert_eq!(sum[1].name, "Read");
    assert_eq!(sum[1].calls, 1);
    let details = permission_details_for(&ls, "Bash");
    assert_eq!(details[0], "");
    assert_eq!(details[1], "cargo test");
    let by_detail = permission_detail_summary(&ls, "Bash", &details);
    assert_eq!(by_detail.len(), 2);
    assert_eq!(by_detail[0].name, "cargo test");
    assert_eq!(by_detail[0].calls, 2);
    assert_eq!(by_detail[0].prompted, 1);
    assert_eq!(by_detail[1].name, "rm -rf x");
    assert_eq!(by_detail[1].denied, 1);
}

#[test]
fn table_rendering() {
    let mut t = Table::new(vec![Column::left("Name"), Column::right("Count")]);
    t.add_row(vec!["Read".to_string(), "12".to_string()]);
    t.add_row(vec!["LongerName".to_string()]);
    assert!(t.fits());
    assert_eq!(t.widths(), vec![10, 5]);
    let lines = t.render();
    assert_eq!(lines, vec![
        "Name        Count".to_string(),
        "-----------------".to_string(),
        "Read           12".to_string(),
        "LongerName       ".to_string(),
    ]);
}

#[test]
fn text_helpers() {
    assert_eq!(truncate("hello", 10), "hello");
    assert_eq!(truncate("hello world", 8), "hello...");
    assert_eq!(truncate("hello", 2), "he");
    assert_eq!(truncate("ééé", 1), "");
    assert_eq!(truncate("ééé", 2), "é");
    // a cut that would fall inside a character moves back to the character boundary
    assert_eq!(truncate("ééé", 4), "...");
    assert_eq!(truncate("aéé", 4), "a...");
    assert_eq!(format_number(0), "0");
    assert_eq!(format_number(999), "999");
    assert_eq!(format_number(1000), "1,000");
    assert_eq!(format_number(1234567), "1,234,567");
    assert_eq!(first_line_of("a\nb"), "a");
    assert_eq!(first_line_of("abc"), "abc");
}

#[test]
fn format_row_ignores_extra_cells_and_widths() {
    let t = Table::new(vec![Column::left("A"), Column::right("B")]);
    let cells = vec!["x".to_string(), "y".to_string(), "z".to_string()];
    assert_eq!(t.format_row(&cells, &vec![3, 2, 9]), "x     y");
}

#[test]
fn white_space_matches_std_on_every_char() {
    for u in 0u32..=0x10FFFF {
        if let Some(c) = char::from_u32(u) {
            assert_eq!(char_is_whitespace(c), c.is_whitespace(), "U+{u:04X}");
        }
    }
}
