use clauson::model::tool_event::{
    build_lifecycles, filter_events, ToolCallLifecycle, ToolEvent, ToolEventKind,
};
use clauson::parser::tool_events::{sidecar_dir_of, sidecar_file_name, sidecar_path};
use std::path::PathBuf;

// Seconds after 1_700_000_000 as nanoseconds since the epoch.
fn ts(secs: i64) -> i128 {
    (1_700_000_000i128 + secs as i128) * 1_000_000_000
}

fn make_event(kind: ToolEventKind, tool: &str, id: &str, t: i128) -> ToolEvent {
    ToolEvent {
        event: kind,
        tool_name: tool.to_string(),
        tool_use_id: Some(id.to_string()),
        tool_input: "{}".to_string(),
        session_id: None,
        permission_mode: None,
        timestamp: t,
        permission_suggestions: None,
    }
}

fn lifecycle(id: &str, tool: &str, perm: Option<i128>, completion: Option<i128>, ok: bool) -> ToolCallLifecycle {
    ToolCallLifecycle {
        tool_use_id: id.into(),
        tool_name: tool.into(),
        tool_input: "{}".into(),
        pre_tool_use: Some(ts(0)),
        permission_request: perm,
        completion,
        succeeded: ok,
    }
}

#[test]
fn tool_event_kind_display() {
    assert_eq!(ToolEventKind::PreToolUse.to_string(), "PreToolUse");
    assert_eq!(ToolEventKind::PermissionRequest.to_string(), "PermissionRequest");
    assert_eq!(ToolEventKind::PostToolUse.to_string(), "PostToolUse");
    assert_eq!(ToolEventKind::PostToolUseFailure.to_string(), "PostToolUseFailure");
}

#[test]
fn lifecycle_auto_approved() {
    let lc = lifecycle("t1", "Bash", None, Some(ts(1)), true);
    assert!(!lc.was_prompted());
    assert!(!lc.was_denied());
    assert_eq!(lc.status_label(), "auto-approved");
}

#[test]
fn lifecycle_prompted_approved() {
    let lc = lifecycle("t2", "Bash", Some(ts(1)), Some(ts(5)), true);
    assert!(lc.was_prompted());
    assert!(!lc.was_denied());
    assert_eq!(lc.status_label(), "prompted->approved");
}

#[test]
fn lifecycle_prompted_denied() {
    let lc = lifecycle("t3", "Bash", Some(ts(1)), Some(ts(2)), false);
    assert!(lc.was_prompted());
    assert!(lc.was_denied());
    assert_eq!(lc.status_label(), "prompted->denied");
}

#[test]
fn lifecycle_no_completion() {
    // PermissionRequest but no PostToolUse/PostToolUseFailure (session ended)
    let lc = lifecycle("t4", "Bash", Some(ts(1)), None, false);
    assert!(lc.was_prompted());
    assert!(lc.was_denied());
    assert_eq!(lc.status_label(), "prompted->denied");
}

#[test]
fn lifecycle_permission_wait_secs() {
    let lc = lifecycle("t5", "Bash", Some(ts(10)), Some(ts(14)), true);
    let wait = lc.permission_wait_ms().unwrap() as f64 / 1000.0;
    assert!((wait - 4.0).abs() < 0.001);
}

#[test]
fn lifecycle_no_wait_when_auto_approved() {
    let lc = lifecycle("t6", "Read", None, Some(ts(1)), true);
    assert!(lc.permission_wait_ms().is_none());
}

#[test]
fn lifecycle_wait_truncates_toward_zero() {
    let lc = lifecycle("t7", "Bash", Some(ts(10)), Some(ts(10) + 2_999_999), true);
    assert_eq!(lc.permission_wait_ms(), Some(2));
    let back = lifecycle("t8", "Bash", Some(ts(10)), Some(ts(10) - 2_999_999), true);
    assert_eq!(back.permission_wait_ms(), Some(-2));
}

#[test]
fn build_lifecycles_groups_by_tool_use_id() {
    let events = vec![
        make_event(ToolEventKind::PreToolUse, "Bash", "t1", ts(0)),
        make_event(ToolEventKind::PermissionRequest, "Bash", "t1", ts(1)),
        make_event(ToolEventKind::PostToolUse, "Bash", "t1", ts(5)),
    ];
    let lifecycles = build_lifecycles(&events);
    assert_eq!(lifecycles.len(), 1);
    assert!(lifecycles[0].pre_tool_use.is_some());
    assert!(lifecycles[0].permission_request.is_some());
    assert!(lifecycles[0].succeeded);
}

#[test]
fn build_lifecycles_preserves_order() {
    let events = vec![
        make_event(ToolEventKind::PreToolUse, "Read", "t2", ts(0)),
        make_event(ToolEventKind::PreToolUse, "Bash", "t1", ts(1)),
        make_event(ToolEventKind::PostToolUse, "Read", "t2", ts(2)),
        make_event(ToolEventKind::PostToolUse, "Bash", "t1", ts(3)),
    ];
    let lifecycles = build_lifecycles(&events);
    assert_eq!(lifecycles.len(), 2);
    assert_eq!(lifecycles[0].tool_use_id, "t2");
    assert_eq!(lifecycles[1].tool_use_id, "t1");
}

#[test]
fn build_lifecycles_empty_input() {
    let lifecycles = build_lifecycles(&vec![]);
    assert!(lifecycles.is_empty());
}

#[test]
fn build_lifecycles_matches_permission_request_without_id() {
    let mut pre = make_event(ToolEventKind::PreToolUse, "Bash", "toolu_def456", ts(2));
    pre.tool_input = "{\"command\":\"cargo test\"}".to_string();
    let mut other = make_event(ToolEventKind::PreToolUse, "Bash", "toolu_other", ts(3));
    other.tool_input = "{\"command\":\"ls\"}".to_string();
    let mut perm = make_event(ToolEventKind::PermissionRequest, "Bash", "", ts(4));
    perm.tool_use_id = None;
    perm.tool_input = "{\"command\":\"cargo test\"}".to_string();
    let mut post = make_event(ToolEventKind::PostToolUseFailure, "Bash", "toolu_def456", ts(8));
    post.tool_input = "{\"command\":\"cargo test\"}".to_string();
    let mut stray = make_event(ToolEventKind::PermissionRequest, "Write", "", ts(9));
    stray.tool_use_id = None;
    let ls = build_lifecycles(&vec![pre, other, perm, post, stray]);
    assert_eq!(ls.len(), 2);
    assert_eq!(ls[0].tool_use_id, "toolu_def456");
    assert_eq!(ls[0].permission_request, Some(ts(4)));
    assert_eq!(ls[0].completion, Some(ts(8)));
    assert!(!ls[0].succeeded);
    assert_eq!(ls[0].status_label(), "prompted->denied");
    assert_eq!(ls[0].permission_wait_ms(), Some(4000));
    assert_eq!(ls[1].tool_use_id, "toolu_other");
    assert!(ls[1].permission_request.is_none());
}

#[test]
fn build_lifecycles_last_completion_wins() {
    let events = vec![
        make_event(ToolEventKind::PreToolUse, "Bash", "t1", ts(0)),
        make_event(ToolEventKind::PostToolUseFailure, "Bash", "t1", ts(1)),
        make_event(ToolEventKind::PostToolUse, "Bash", "t1", ts(2)),
    ];
    let ls = build_lifecycles(&events);
    assert_eq!(ls.len(), 1);
    assert_eq!(ls[0].completion, Some(ts(2)));
    assert!(ls[0].succeeded);
}

#[test]
fn sidecar_path_replaces_extension() {
    let p = PathBuf::from("/home/user/.sessions/abc.jsonl");
    assert_eq!(
        PathBuf::from(sidecar_path(p.to_str().unwrap())),
        PathBuf::from("/home/user/.sessions/abc.tool-events.jsonl")
    );
}

#[test]
fn sidecar_path_no_extension() {
    let p = PathBuf::from("/tmp/session");
    assert_eq!(
        PathBuf::from(sidecar_path(p.to_str().unwrap())),
        PathBuf::from("/tmp/session.tool-events.jsonl")
    );
}

#[test]
fn sidecar_path_relative_file() {
    assert_eq!(sidecar_path("abc.jsonl"), "abc.tool-events.jsonl");
    assert_eq!(sidecar_file_name(Some("x")), "x.tool-events.jsonl");
    assert_eq!(sidecar_file_name(None), ".tool-events.jsonl");
    assert_eq!(sidecar_dir_of(None), ".");
    assert_eq!(sidecar_dir_of(Some("/a/b")), "/a/b");
}

#[test]
fn list_filter_by_tool_and_kind() {
    let events = vec![
        make_event(ToolEventKind::PreToolUse, "Bash", "t1", ts(0)),
        make_event(ToolEventKind::PermissionRequest, "Bash", "t1", ts(1)),
        make_event(ToolEventKind::PreToolUse, "Read", "t2", ts(2)),
        make_event(ToolEventKind::PostToolUse, "Bash", "t1", ts(3)),
    ];
    assert_eq!(filter_events(&events, None, None), vec![0, 1, 2, 3]);
    assert_eq!(filter_events(&events, Some("Bash"), None), vec![0, 1, 3]);
    assert_eq!(filter_events(&events, None, Some("PreToolUse")), vec![0, 2]);
    assert_eq!(filter_events(&events, Some("Bash"), Some("PostToolUse")), vec![3]);
    assert!(filter_events(&events, Some("Grep"), None).is_empty());
}
