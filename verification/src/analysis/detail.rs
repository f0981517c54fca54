use vstd::prelude::*;

use crate::text::{
    copy_str, first_line, first_line_of, str_eq, truncate, truncated,
};

verus! {

/// The string found under `key` in the JSON object that `text` holds, when `text` parses
/// as JSON and the value there is a string.
pub uninterp spec fn json_str_at(text: Seq<char>, key: Seq<char>) -> Option<Seq<char>>;

/// `serde_json::from_str` into a `serde_json::Value`, then `Value::get` and
/// `Value::as_str`. The contract only names the result, which is a function of the text
/// and the key; JSON parsing is left to serde_json.
#[verifier::external_body]
fn json_str_field(text: &str, key: &str) -> (r: Option<String>)
    ensures
        match r {
            Some(s) => json_str_at(text@, key@) == Some(s@),
            None => json_str_at(text@, key@) is None,
        },
{
    match serde_json::from_str::<serde_json::Value>(text) {
        Ok(v) => match v.get(key) {
            Some(x) => match x.as_str() {
                Some(s) => Some(s.to_string()),
                None => None,
            },
            None => None,
        },
        Err(_) => None,
    }
}

/// The input field that describes a call of a tool, and the text used when it is
/// missing: the command of `Bash`, the file path of `Read`, `Write` and `Edit`, the
/// pattern of `Grep` and `Glob`. Other tools have none.
pub open spec fn detail_key(tool: Seq<char>) -> Option<(Seq<char>, Seq<char>)> {
    if tool == "Bash"@ {
        Some(("command"@, "(no command)"@))
    } else if tool == "Read"@ || tool == "Write"@ || tool == "Edit"@ {
        Some(("file_path"@, "(no path)"@))
    } else if tool == "Grep"@ || tool == "Glob"@ {
        Some(("pattern"@, "(no pattern)"@))
    } else {
        None
    }
}

/// The detail of a call given the value of its describing field: the field, or the
/// text for a missing field; the whole JSON input for a tool without such a field.
pub open spec fn pick_detail(tool: Seq<char>, field: Option<Seq<char>>, input: Seq<char>) -> Seq<
    char,
> {
    match detail_key(tool) {
        Some((_, missing)) => match field {
            Some(f) => f,
            None => missing,
        },
        None => input,
    }
}

/// The detail of a call of `tool` with the given JSON input, before truncation.
pub open spec fn raw_detail(tool: Seq<char>, input: Seq<char>) -> Seq<char> {
    match detail_key(tool) {
        Some((key, _)) => pick_detail(tool, json_str_at(input, key), input),
        None => input,
    }
}

/// The describing field of a tool (see `detail_key`).
pub fn detail_field(tool_name: &str) -> (r: Option<(&'static str, &'static str)>)
    ensures
        match r {
            Some((k, d)) => detail_key(tool_name@) == Some((k@, d@)),
            None => detail_key(tool_name@) is None,
        },
{
    if str_eq(tool_name, "Bash") {
        Some(("command", "(no command)"))
    } else if str_eq(tool_name, "Read") || str_eq(tool_name, "Write") || str_eq(tool_name, "Edit") {
        Some(("file_path", "(no path)"))
    } else if str_eq(tool_name, "Grep") || str_eq(tool_name, "Glob") {
        Some(("pattern", "(no pattern)"))
    } else {
        None
    }
}

/// The detail of a call given the value of its describing field (see `pick_detail`).
pub fn detail_from_field(tool_name: &str, field: Option<&str>, input: &str) -> (r: String)
    ensures
        r@ == pick_detail(
            tool_name@,
            match field {
                Some(f) => Some(f@),
                None => None,
            },
            input@,
        ),
{
    match detail_field(tool_name) {
        Some((_, missing)) => match field {
            Some(f) => copy_str(f),
            None => copy_str(missing),
        },
        None => copy_str(input),
    }
}

/// The detail of a call before truncation: its describing field looked up in the JSON
/// input (see `raw_detail`).
pub fn detail_source(tool_name: &str, input: &str) -> (r: String)
    ensures
        r@ == raw_detail(tool_name@, input@),
{
    match detail_field(tool_name) {
        Some((key, _)) => {
            let field = json_str_field(input, key);
            match &field {
                Some(f) => detail_from_field(tool_name, Some(f.as_str()), input),
                None => detail_from_field(tool_name, None, input),
            }
        },
        None => copy_str(input),
    }
}

/// The first line of a detail, cut to 60 bytes.
pub fn truncate_detail(s: &str) -> (r: String)
    ensures
        r@ == truncated(first_line(s@), 60),
{
    let line = first_line_of(s);
    truncate(line.as_str(), 60)
}

/// The detail of a call as the statistics show it: the first line of the raw detail,
/// cut to 60 bytes.
pub fn extract_tool_detail(tool_name: &str, input: &str) -> (r: String)
    ensures
        r@ == truncated(first_line(raw_detail(tool_name@, input@)), 60),
{
    let raw = detail_source(tool_name, input);
    truncate_detail(raw.as_str())
}


/// What a call's detail names: the command of a `Bash` call, the file path of a `Read`,
/// `Write` or `Edit` call, the pattern of a `Grep` or `Glob` call, when the JSON input has
/// that field as a string (else `(no command)`, `(no path)`, `(no pattern)`); any other
/// tool shows its whole input. The statistics show the first line of it, cut to 60 bytes.
pub proof fn lemma_detail_names(tool: Seq<char>, input: Seq<char>)
    ensures
        tool == "Bash"@ ==> raw_detail(tool, input) == match json_str_at(input, "command"@) {
            Some(c) => c,
            None => "(no command)"@,
        },
        tool == "Read"@ || tool == "Write"@ || tool == "Edit"@ ==> raw_detail(tool, input)
            == match json_str_at(input, "file_path"@) {
            Some(f) => f,
            None => "(no path)"@,
        },
        tool == "Grep"@ || tool == "Glob"@ ==> raw_detail(tool, input) == match json_str_at(
            input,
            "pattern"@,
        ) {
            Some(p) => p,
            None => "(no pattern)"@,
        },
        tool != "Bash"@ && tool != "Read"@ && tool != "Write"@ && tool != "Edit"@ && tool
            != "Grep"@ && tool != "Glob"@ ==> raw_detail(tool, input) == input,
{
    reveal_strlit("Bash");
    reveal_strlit("Read");
    reveal_strlit("Write");
    reveal_strlit("Edit");
    reveal_strlit("Grep");
    reveal_strlit("Glob");
    assert("Read"@[0] != "Bash"@[0] && "Write"@[0] != "Bash"@[0] && "Edit"@[0] != "Bash"@[0]);
    assert("Grep"@[0] != "Bash"@[0] && "Grep"@[0] != "Read"@[0] && "Grep"@[0] != "Write"@[0]
        && "Grep"@[0] != "Edit"@[0]);
    assert("Glob"@[0] != "Bash"@[0] && "Glob"@[0] != "Read"@[0] && "Glob"@[0] != "Write"@[0]
        && "Glob"@[0] != "Edit"@[0]);
}

} // verus!
