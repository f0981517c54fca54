use vstd::prelude::*;

use crate::model::session::{enumerates, lemma_enumerates_step};
use crate::text::{copy_str, str_eq};

verus! {

/// The kind of a hook event.
#[derive(Debug, Clone, Copy, PartialEq, Eq, Structural)]
pub enum ToolEventKind {
    PreToolUse,
    PermissionRequest,
    PostToolUse,
    PostToolUseFailure,
}

/// The name of an event kind, as it appears in the event log.
pub open spec fn kind_name(k: ToolEventKind) -> Seq<char> {
    match k {
        ToolEventKind::PreToolUse => "PreToolUse"@,
        ToolEventKind::PermissionRequest => "PermissionRequest"@,
        ToolEventKind::PostToolUse => "PostToolUse"@,
        ToolEventKind::PostToolUseFailure => "PostToolUseFailure"@,
    }
}

impl ToolEventKind {
    /// The name of the event kind.
    pub fn to_string(&self) -> (s: String)
        ensures
            s@ == kind_name(*self),
    {
        match self {
            ToolEventKind::PreToolUse => "PreToolUse".to_string(),
            ToolEventKind::PermissionRequest => "PermissionRequest".to_string(),
            ToolEventKind::PostToolUse => "PostToolUse".to_string(),
            ToolEventKind::PostToolUseFailure => "PostToolUseFailure".to_string(),
        }
    }
}

/// One hook event of the tool-events log.
///
/// `tool_input` holds the tool input as compact JSON text, and each permission
/// suggestion is the compact JSON text of one suggestion object. The timestamp is in
/// nanoseconds since the Unix epoch (UTC).
#[derive(Debug)]
pub struct ToolEvent {
    pub event: ToolEventKind,
    pub tool_name: String,
    /// Missing for permission requests, which the hook reports without one.
    pub tool_use_id: Option<String>,
    pub tool_input: String,
    pub session_id: Option<String>,
    pub permission_mode: Option<String>,
    pub timestamp: i128,
    pub permission_suggestions: Option<Vec<String>>,
}

/// Whether an event passes the list filters: its tool is `tool` and the name of its kind
/// is `kind`, for each filter that is given.
pub open spec fn event_matches(e: ToolEvent, tool: Option<&str>, kind: Option<&str>) -> bool {
    &&& match tool {
        Some(t) => e.tool_name@ == t@,
        None => true,
    }
    &&& match kind {
        Some(k) => kind_name(e.event) == k@,
        None => true,
    }
}

/// The positions of the events that pass the list filters, in order.
pub fn filter_events(events: &Vec<ToolEvent>, tool: Option<&str>, kind: Option<&str>) -> (r: Vec<
    usize,
>)
    ensures
        enumerates(r@, events@.len() as int, |i: int| event_matches(events@[i], tool, kind)),
{
    let ghost pred = |i: int| event_matches(events@[i], tool, kind);
    let mut r: Vec<usize> = Vec::new();
    let mut i: usize = 0;
    while i < events.len()
        invariant
            0 <= i <= events@.len(),
            pred == (|i: int| event_matches(events@[i], tool, kind)),
            enumerates(r@, i as int, pred),
        decreases events@.len() - i,
    {
        let e = &events[i];
        let tool_ok = match tool {
            Some(t) => str_eq(e.tool_name.as_str(), t),
            None => true,
        };
        let kind_ok = match kind {
            Some(k) => {
                let name = e.event.to_string();
                str_eq(name.as_str(), k)
            },
            None => true,
        };
        proof {
            lemma_enumerates_step(r@, i as int, pred);
            assert(pred(i as int) == (tool_ok && kind_ok));
        }
        if tool_ok && kind_ok {
            r.push(i);
        }
        i = i + 1;
    }
    r
}

/// The lifecycle of one tool call, rebuilt from its events. Timestamps are in
/// nanoseconds since the Unix epoch.
#[derive(Debug)]
pub struct ToolCallLifecycle {
    pub tool_use_id: String,
    pub tool_name: String,
    /// Compact JSON text of the tool input.
    pub tool_input: String,
    pub pre_tool_use: Option<i128>,
    pub permission_request: Option<i128>,
    pub completion: Option<i128>,
    pub succeeded: bool,
}

/// A lifecycle as a value.
pub struct LifecycleView {
    pub tool_use_id: Seq<char>,
    pub tool_name: Seq<char>,
    pub tool_input: Seq<char>,
    pub pre_tool_use: Option<i128>,
    pub permission_request: Option<i128>,
    pub completion: Option<i128>,
    pub succeeded: bool,
}

impl View for ToolCallLifecycle {
    type V = LifecycleView;

    open spec fn view(&self) -> LifecycleView {
        LifecycleView {
            tool_use_id: self.tool_use_id@,
            tool_name: self.tool_name@,
            tool_input: self.tool_input@,
            pre_tool_use: self.pre_tool_use,
            permission_request: self.permission_request,
            completion: self.completion,
            succeeded: self.succeeded,
        }
    }
}

/// The status of a lifecycle, as displayed.
pub open spec fn status_name(l: LifecycleView) -> Seq<char> {
    if l.permission_request is None {
        "auto-approved"@
    } else if l.succeeded {
        "prompted->approved"@
    } else {
        "prompted->denied"@
    }
}

/// A duration in nanoseconds as whole milliseconds, truncated toward zero.
pub open spec fn millis_toward_zero(ns: int) -> int {
    if ns >= 0 {
        ns / 1_000_000
    } else {
        -((-ns) / 1_000_000)
    }
}

/// The time between the permission request and the completion, in milliseconds.
pub open spec fn wait_ms(l: LifecycleView) -> Option<int> {
    match (l.permission_request, l.completion) {
        (Some(p), Some(c)) => Some(millis_toward_zero(c - p)),
        _ => None,
    }
}

/// The status says what happened to the call: `auto-approved` exactly when no permission
/// was asked, `prompted->denied` exactly when one was asked and the call did not succeed,
/// and `prompted->approved` otherwise.
pub proof fn lemma_status_names(l: LifecycleView)
    ensures
        (status_name(l) == "auto-approved"@) <==> l.permission_request is None,
        (status_name(l) == "prompted->denied"@) <==> (l.permission_request is Some && !l.succeeded),
        (status_name(l) == "prompted->approved"@) <==> (l.permission_request is Some && l.succeeded),
{
    reveal_strlit("auto-approved");
    reveal_strlit("prompted->denied");
    reveal_strlit("prompted->approved");
    assert("auto-approved"@[0] != "prompted->denied"@[0]);
    assert("auto-approved"@[0] != "prompted->approved"@[0]);
    assert("prompted->denied"@[10] != "prompted->approved"@[10]);
}

/// A wait in whole milliseconds is the nanosecond difference with the part below a
/// millisecond dropped, toward zero: its millisecond count times one million lies between
/// zero and the difference, less than a millisecond away from it.
pub proof fn lemma_whole_millis(ns: int)
    ensures
        ns >= 0 ==> 0 <= millis_toward_zero(ns) * 1_000_000 <= ns < millis_toward_zero(ns)
            * 1_000_000 + 1_000_000,
        ns < 0 ==> millis_toward_zero(ns) * 1_000_000 - 1_000_000 < ns <= millis_toward_zero(ns)
            * 1_000_000 <= 0,
{
    if ns >= 0 {
        assert(0 <= (ns / 1_000_000) * 1_000_000 <= ns < (ns / 1_000_000) * 1_000_000 + 1_000_000)
            by (nonlinear_arith)
            requires
                ns >= 0,
        ;
    } else {
        let m = -ns;
        assert(0 <= (m / 1_000_000) * 1_000_000 <= m < (m / 1_000_000) * 1_000_000 + 1_000_000)
            by (nonlinear_arith)
            requires
                m > 0,
        ;
    }
}

impl ToolCallLifecycle {
    /// A permission request was seen for the call.
    pub fn was_prompted(&self) -> (b: bool)
        ensures
            b == (self.permission_request is Some),
    {
        self.permission_request.is_some()
    }

    /// The user was asked and the call did not succeed.
    pub fn was_denied(&self) -> (b: bool)
        ensures
            b == (self.permission_request is Some && !self.succeeded),
    {
        self.permission_request.is_some() && !self.succeeded
    }

    /// The time between the permission request and the completion, in whole
    /// milliseconds (truncated toward zero), when both were seen.
    pub fn permission_wait_ms(&self) -> (w: Option<i128>)
        requires
            match (self.permission_request, self.completion) {
                (Some(p), Some(c)) => i128::MIN <= c - p <= i128::MAX,
                _ => true,
            },
        ensures
            match w {
                Some(v) => wait_ms(self@) == Some(v as int),
                None => wait_ms(self@) is None,
            },
    {
        match (self.permission_request, self.completion) {
            (Some(p), Some(c)) => {
                let d = c - p;
                if d >= 0 {
                    Some(d / 1_000_000)
                } else {
                    let m = if d == i128::MIN {
                        i128::MAX / 1_000_000
                    } else {
                        (-d) / 1_000_000
                    };
                    proof {
                        if d == i128::MIN {
                            assert((-d) / 1_000_000 == i128::MAX / 1_000_000) by (nonlinear_arith)
                                requires
                                    d == i128::MIN,
                            ;
                        }
                    }
                    Some(-m)
                }
            },
            _ => None,
        }
    }

    /// `auto-approved`, `prompted->approved` or `prompted->denied`.
    pub fn status_label(&self) -> (s: &str)
        ensures
            s@ == status_name(self@),
    {
        if !self.was_prompted() {
            "auto-approved"
        } else if self.succeeded {
            "prompted->approved"
        } else {
            "prompted->denied"
        }
    }
}

// ─── Rebuilding lifecycles ──────────────────────────────────────────────────

/// The position of the lifecycle with the given tool use id.
pub open spec fn find_lifecycle(ls: Seq<LifecycleView>, id: Seq<char>) -> Option<int>
    decreases ls.len(),
{
    if ls.len() == 0 {
        None
    } else if ls.last().tool_use_id == id {
        Some(ls.len() - 1)
    } else {
        find_lifecycle(ls.drop_last(), id)
    }
}

/// The tool use id of the most recent pre-tool-use event among `prior` with the given
/// tool name and input.
pub open spec fn matching_pre(prior: Seq<ToolEvent>, name: Seq<char>, input: Seq<char>) -> Option<
    Seq<char>,
>
    decreases prior.len(),
{
    if prior.len() == 0 {
        None
    } else {
        let e = prior.last();
        if e.event == ToolEventKind::PreToolUse && e.tool_use_id is Some && e.tool_name@ == name
            && e.tool_input@ == input {
            Some(e.tool_use_id.unwrap()@)
        } else {
            matching_pre(prior.drop_last(), name, input)
        }
    }
}

/// A new lifecycle for the first event of a tool use id.
pub open spec fn fresh_lifecycle(e: ToolEvent, id: Seq<char>) -> LifecycleView {
    LifecycleView {
        tool_use_id: id,
        tool_name: e.tool_name@,
        tool_input: e.tool_input@,
        pre_tool_use: None,
        permission_request: None,
        completion: None,
        succeeded: false,
    }
}

/// What an event records in its lifecycle: the time of its kind (the latest event of a
/// kind wins); a completion also records whether it succeeded.
pub open spec fn record_event(l: LifecycleView, k: ToolEventKind, t: i128) -> LifecycleView {
    match k {
        ToolEventKind::PreToolUse => LifecycleView { pre_tool_use: Some(t), ..l },
        ToolEventKind::PermissionRequest => LifecycleView { permission_request: Some(t), ..l },
        ToolEventKind::PostToolUse => LifecycleView { completion: Some(t), succeeded: true, ..l },
        ToolEventKind::PostToolUseFailure => LifecycleView {
            completion: Some(t),
            succeeded: false,
            ..l
        },
    }
}

/// The lifecycles after one more event. An event with a tool use id belongs to that
/// id's lifecycle (created at its first event). A permission request without one
/// belongs to the lifecycle of the most recent earlier pre-tool-use event with the same
/// tool name and input; other events without an id, and requests that match nothing,
/// change nothing.
pub open spec fn lifecycle_step(ls: Seq<LifecycleView>, prior: Seq<ToolEvent>, e: ToolEvent) -> Seq<
    LifecycleView,
> {
    match e.tool_use_id {
        Some(id) => match find_lifecycle(ls, id@) {
            Some(k) => ls.update(k, record_event(ls[k], e.event, e.timestamp)),
            None => ls.push(record_event(fresh_lifecycle(e, id@), e.event, e.timestamp)),
        },
        None => if e.event == ToolEventKind::PermissionRequest {
            match matching_pre(prior, e.tool_name@, e.tool_input@) {
                Some(id) => match find_lifecycle(ls, id) {
                    Some(k) => ls.update(k, record_event(ls[k], e.event, e.timestamp)),
                    None => ls,
                },
                None => ls,
            }
        } else {
            ls
        },
    }
}

/// The lifecycles rebuilt from a sequence of events, in the order their tool use ids
/// first appear.
pub open spec fn lifecycles_of(events: Seq<ToolEvent>) -> Seq<LifecycleView>
    decreases events.len(),
{
    if events.len() == 0 {
        Seq::empty()
    } else {
        lifecycle_step(
            lifecycles_of(events.drop_last()),
            events.drop_last(),
            events.last(),
        )
    }
}

/// The time a lifecycle records for events of kind `k`: the pre-tool-use time, the
/// permission request time, or the completion time for both kinds of completion.
pub open spec fn time_of_kind(l: LifecycleView, k: ToolEventKind) -> Option<i128> {
    match k {
        ToolEventKind::PreToolUse => l.pre_tool_use,
        ToolEventKind::PermissionRequest => l.permission_request,
        _ => l.completion,
    }
}

/// An event with a tool use id lands in that id's lifecycle: afterwards the lifecycle of
/// the id exists, records the event's time for its kind, keeps its times for the other
/// kinds, and a completion sets success exactly when the tool use succeeded. Other
/// lifecycles are unchanged.
pub proof fn lemma_event_recorded(ls: Seq<LifecycleView>, prior: Seq<ToolEvent>, e: ToolEvent)
    requires
        e.tool_use_id is Some,
    ensures
        ({
            let id = e.tool_use_id.unwrap()@;
            let r = lifecycle_step(ls, prior, e);
            &&& find_lifecycle(r, id) is Some
            &&& {
                let k = find_lifecycle(r, id).unwrap();
                &&& r[k].tool_use_id == id
                &&& time_of_kind(r[k], e.event) == Some(e.timestamp)
                &&& (e.event == ToolEventKind::PostToolUse ==> r[k].succeeded)
                &&& (e.event == ToolEventKind::PostToolUseFailure ==> !r[k].succeeded)
                &&& forall|other: ToolEventKind|
                    other != e.event && !(e.event is PostToolUse && other is PostToolUseFailure)
                        && !(e.event is PostToolUseFailure && other is PostToolUse) ==> time_of_kind(
                        r[k],
                        other,
                    ) == match find_lifecycle(ls, id) {
                        Some(j) => time_of_kind(ls[j], other),
                        None => None,
                    }
            }
            &&& forall|j: int|
                0 <= j < ls.len() && ls[j].tool_use_id != id ==> #[trigger] r[j] == ls[j]
        }),
{
    let id = e.tool_use_id.unwrap()@;
    let r = lifecycle_step(ls, prior, e);
    lemma_find_lifecycle(ls, id);
    match find_lifecycle(ls, id) {
        Some(k) => {
            lemma_find_lifecycle_update(ls, k, record_event(ls[k], e.event, e.timestamp), id);
        },
        None => {
            assert(r.drop_last() =~= ls);
            assert(r.last().tool_use_id == id);
            assert(find_lifecycle(r, id) == Some(ls.len() as int));
        },
    }
}

proof fn lemma_find_lifecycle_update(ls: Seq<LifecycleView>, k: int, l: LifecycleView, id: Seq<char>)
    requires
        0 <= k < ls.len(),
        l.tool_use_id == ls[k].tool_use_id,
    ensures
        find_lifecycle(ls.update(k, l), id) == find_lifecycle(ls, id),
    decreases ls.len(),
{
    let u = ls.update(k, l);
    if k < ls.len() - 1 {
        assert(u.last() == ls.last());
        if ls.last().tool_use_id != id {
            assert(u.drop_last() =~= ls.drop_last().update(k, l));
            lemma_find_lifecycle_update(ls.drop_last(), k, l, id);
        }
    } else {
        assert(u.drop_last() =~= ls.drop_last());
    }
}

/// No two lifecycles share a tool use id.
pub open spec fn ids_unique(ls: Seq<LifecycleView>) -> bool {
    forall|i: int, j: int|
        0 <= i < j < ls.len() ==> ls[i].tool_use_id != ls[j].tool_use_id
}

pub proof fn lemma_find_lifecycle(ls: Seq<LifecycleView>, id: Seq<char>)
    ensures
        match find_lifecycle(ls, id) {
            Some(k) => 0 <= k < ls.len() && ls[k].tool_use_id == id,
            None => forall|k: int| 0 <= k < ls.len() ==> ls[k].tool_use_id != id,
        },
    decreases ls.len(),
{
    if ls.len() > 0 && ls.last().tool_use_id != id {
        lemma_find_lifecycle(ls.drop_last(), id);
        let r = find_lifecycle(ls.drop_last(), id);
        if r is Some {
            assert(ls.drop_last()[r.unwrap()] == ls[r.unwrap()]);
        } else {
            assert forall|k: int| 0 <= k < ls.len() implies ls[k].tool_use_id != id by {
                if k < ls.len() - 1 {
                    assert(ls.drop_last()[k] == ls[k]);
                }
            }
        }
    }
}

/// Rebuilding keeps one lifecycle per tool use id.
pub proof fn lemma_lifecycles_ids_unique(events: Seq<ToolEvent>)
    ensures
        ids_unique(lifecycles_of(events)),
    decreases events.len(),
{
    if events.len() > 0 {
        let prior = events.drop_last();
        let e = events.last();
        let ls = lifecycles_of(prior);
        lemma_lifecycles_ids_unique(prior);
        let next = lifecycles_of(events);
        match e.tool_use_id {
            Some(id) => {
                lemma_find_lifecycle(ls, id@);
                if find_lifecycle(ls, id@) is None {
                    assert forall|i: int, j: int|
                        0 <= i < j < next.len() implies next[i].tool_use_id
                        != next[j].tool_use_id by {
                        if j < ls.len() {
                            assert(next[i] == ls[i] && next[j] == ls[j]);
                        } else {
                            assert(next[i] == ls[i]);
                        }
                    }
                } else {
                    let k = find_lifecycle(ls, id@).unwrap();
                    assert forall|i: int, j: int|
                        0 <= i < j < next.len() implies next[i].tool_use_id
                        != next[j].tool_use_id by {
                        assert(next[i].tool_use_id == ls[i].tool_use_id);
                        assert(next[j].tool_use_id == ls[j].tool_use_id);
                    }
                }
            },
            None => {
                if e.event == ToolEventKind::PermissionRequest {
                    match matching_pre(prior, e.tool_name@, e.tool_input@) {
                        Some(id) => {
                            lemma_find_lifecycle(ls, id);
                            if find_lifecycle(ls, id) is Some {
                                assert forall|i: int, j: int|
                                    0 <= i < j < next.len() implies next[i].tool_use_id
                                    != next[j].tool_use_id by {
                                    assert(next[i].tool_use_id == ls[i].tool_use_id);
                                    assert(next[j].tool_use_id == ls[j].tool_use_id);
                                }
                            }
                        },
                        None => {},
                    }
                }
            },
        }
    }
}

/// Position of the lifecycle with the given id, searching from the end.
fn lifecycle_index(ls: &Vec<ToolCallLifecycle>, id: &str) -> (r: Option<usize>)
    ensures
        match r {
            Some(k) => k < ls@.len() && Some(k as int) == find_lifecycle(ls@.map_values(
                |l: ToolCallLifecycle| l@,
            ), id@),
            None => find_lifecycle(ls@.map_values(|l: ToolCallLifecycle| l@), id@) is None,
        },
{
    let ghost vs = ls@.map_values(|l: ToolCallLifecycle| l@);
    let mut i: usize = ls.len();
    proof {
        assert(vs.take(i as int) =~= vs);
        lemma_find_lifecycle(vs, id@);
    }
    while i > 0
        invariant
            0 <= i <= ls@.len(),
            vs == ls@.map_values(|l: ToolCallLifecycle| l@),
            find_lifecycle(vs, id@) == find_lifecycle(vs.take(i as int), id@),
        decreases i,
    {
        let ghost t = vs.take(i as int);
        proof {
            assert(t.drop_last() =~= vs.take(i - 1));
            assert(t.last() == ls@[i - 1]@);
        }
        if str_eq(ls[i - 1].tool_use_id.as_str(), id) {
            return Some(i - 1);
        }
        i = i - 1;
    }
    proof {
        assert(vs.take(0) =~= Seq::<LifecycleView>::empty());
    }
    None
}

/// The tool use id of the most recent pre-tool-use event among the first `n` events with
/// the given tool name and input.
fn find_matching_pre<'a>(events: &'a Vec<ToolEvent>, n: usize, name: &str, input: &str) -> (r:
    Option<&'a str>)
    requires
        n <= events@.len(),
    ensures
        match r {
            Some(s) => matching_pre(events@.take(n as int), name@, input@) == Some(s@),
            None => matching_pre(events@.take(n as int), name@, input@) is None,
        },
{
    let mut i: usize = n;
    while i > 0
        invariant
            0 <= i <= n <= events@.len(),
            matching_pre(events@.take(n as int), name@, input@) == matching_pre(
                events@.take(i as int),
                name@,
                input@,
            ),
        decreases i,
    {
        let ghost t = events@.take(i as int);
        proof {
            assert(t.drop_last() =~= events@.take(i - 1));
            assert(t.last() == events@[i - 1]);
        }
        let e = &events[i - 1];
        if e.event == ToolEventKind::PreToolUse && str_eq(e.tool_name.as_str(), name) && str_eq(
            e.tool_input.as_str(),
            input,
        ) {
            match &e.tool_use_id {
                Some(id) => {
                    return Some(id.as_str());
                },
                None => {},
            }
        }
        i = i - 1;
    }
    None
}

/// Records an event's kind and time in a lifecycle.
fn record(l: &mut ToolCallLifecycle, k: ToolEventKind, t: i128)
    ensures
        final(l)@ == record_event(old(l)@, k, t),
{
    match k {
        ToolEventKind::PreToolUse => {
            l.pre_tool_use = Some(t);
        },
        ToolEventKind::PermissionRequest => {
            l.permission_request = Some(t);
        },
        ToolEventKind::PostToolUse => {
            l.completion = Some(t);
            l.succeeded = true;
        },
        ToolEventKind::PostToolUseFailure => {
            l.completion = Some(t);
            l.succeeded = false;
        },
    }
}

/// Groups the events into tool call lifecycles, in the order their tool use ids first
/// appear. Events with a tool use id are grouped by it; a permission request without one
/// is matched to the most recent earlier pre-tool-use event with the same tool name and
/// input.
pub fn build_lifecycles(events: &Vec<ToolEvent>) -> (r: Vec<ToolCallLifecycle>)
    ensures
        r@.map_values(|l: ToolCallLifecycle| l@) == lifecycles_of(events@),
        ids_unique(lifecycles_of(events@)),
{
    let mut ls: Vec<ToolCallLifecycle> = Vec::new();
    let mut i: usize = 0;
    while i < events.len()
        invariant
            0 <= i <= events@.len(),
            ls@.map_values(|l: ToolCallLifecycle| l@) == lifecycles_of(events@.take(i as int)),
        decreases events@.len() - i,
    {
        let ghost prior = events@.take(i as int);
        let ghost before = ls@.map_values(|l: ToolCallLifecycle| l@);
        proof {
            assert(events@.take(i + 1).drop_last() =~= prior);
            assert(events@.take(i + 1).last() == events@[i as int]);
        }
        let e = &events[i];
        match &e.tool_use_id {
            Some(id) => {
                match lifecycle_index(&ls, id.as_str()) {
                    Some(k) => {
                        record(&mut ls[k], e.event, e.timestamp);
                        proof {
                            assert(ls@.map_values(|l: ToolCallLifecycle| l@) =~= before.update(
                                k as int,
                                record_event(before[k as int], e.event, e.timestamp),
                            ));
                        }
                    },
                    None => {
                        let mut l = ToolCallLifecycle {
                            tool_use_id: copy_str(id.as_str()),
                            tool_name: copy_str(e.tool_name.as_str()),
                            tool_input: copy_str(e.tool_input.as_str()),
                            pre_tool_use: None,
                            permission_request: None,
                            completion: None,
                            succeeded: false,
                        };
                        record(&mut l, e.event, e.timestamp);
                        ls.push(l);
                        proof {
                            assert(ls@.map_values(|l: ToolCallLifecycle| l@) =~= before.push(
                                record_event(fresh_lifecycle(*e, id@), e.event, e.timestamp),
                            ));
                        }
                    },
                }
            },
            None => {
                if e.event == ToolEventKind::PermissionRequest {
                    match find_matching_pre(events, i, e.tool_name.as_str(), e.tool_input.as_str()) {
                        Some(id) => {
                            match lifecycle_index(&ls, id) {
                                Some(k) => {
                                    record(&mut ls[k], e.event, e.timestamp);
                                    proof {
                                        assert(ls@.map_values(|l: ToolCallLifecycle| l@)
                                            =~= before.update(
                                            k as int,
                                            record_event(before[k as int], e.event, e.timestamp),
                                        ));
                                    }
                                },
                                None => {},
                            }
                        },
                        None => {},
                    }
                }
            },
        }
        i = i + 1;
    }
    proof {
        assert(events@.take(i as int) =~= events@);
        lemma_lifecycles_ids_unique(events@);
    }
    ls
}

/// Every event that carries a tool use id has a lifecycle under that id.
pub proof fn lemma_every_id_has_lifecycle(events: Seq<ToolEvent>, k: int)
    requires
        0 <= k < events.len(),
        events[k].tool_use_id is Some,
    ensures
        find_lifecycle(lifecycles_of(events), events[k].tool_use_id.unwrap()@) is Some,
    decreases events.len(),
{
    let prior = events.drop_last();
    let e = events.last();
    let ls = lifecycles_of(prior);
    let next = lifecycles_of(events);
    let id = events[k].tool_use_id.unwrap()@;
    if k < events.len() - 1 {
        assert(prior[k] == events[k]);
        lemma_every_id_has_lifecycle(prior, k);
        lemma_find_lifecycle(ls, id);
        let j = find_lifecycle(ls, id).unwrap();
        lemma_lifecycle_step_keeps(ls, prior, e, j);
        lemma_find_lifecycle(next, id);
        assert(next[j].tool_use_id == id);
    } else {
        let eid = e.tool_use_id.unwrap()@;
        lemma_find_lifecycle(ls, eid);
        lemma_find_lifecycle(next, eid);
        match find_lifecycle(ls, eid) {
            Some(j) => {
                assert(next[j].tool_use_id == eid);
            },
            None => {
                assert(next[ls.len() as int].tool_use_id == eid);
            },
        }
    }
}

/// A step keeps every lifecycle's id in place.
proof fn lemma_lifecycle_step_keeps(ls: Seq<LifecycleView>, prior: Seq<ToolEvent>, e: ToolEvent, j: int)
    requires
        0 <= j < ls.len(),
    ensures
        j < lifecycle_step(ls, prior, e).len(),
        lifecycle_step(ls, prior, e)[j].tool_use_id == ls[j].tool_use_id,
{
    match e.tool_use_id {
        Some(id) => {
            lemma_find_lifecycle(ls, id@);
        },
        None => {
            if e.event == ToolEventKind::PermissionRequest {
                match matching_pre(prior, e.tool_name@, e.tool_input@) {
                    Some(id) => {
                        lemma_find_lifecycle(ls, id);
                    },
                    None => {},
                }
            }
        },
    }
}

} // verus!
