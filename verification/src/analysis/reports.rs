use vstd::prelude::*;

use crate::text::{copy_str, str_eq, string_views};

verus! {

/// The summary reports, by what they aggregate.
#[derive(Debug, Clone, Copy, PartialEq, Eq, Structural)]
pub enum SummaryKind {
    /// One aggregate of all tokens (`--group-by none`).
    Aggregate,
    /// One tool's calls, by detail (`--tool`).
    ToolDetail,
    TokensByTool,
    TokensByType,
    TokensByTurn,
    TimeByTool,
    TimeByType,
    TimeByTurn,
    ToolCallsByTool,
    ToolCallsByTurn,
}

/// The summary report for a metric and grouping: `none` grouping gives the aggregate,
/// a tool filter the drill-down, otherwise tokens, time and tool calls by tool, type
/// or turn (tool calls have no grouping by type). Other combinations have none.
pub open spec fn summary_kind_of(metric: Seq<char>, group_by: Seq<char>, has_tool: bool) -> Option<
    SummaryKind,
> {
    if group_by == "none"@ {
        Some(SummaryKind::Aggregate)
    } else if has_tool {
        Some(SummaryKind::ToolDetail)
    } else if metric == "tokens"@ {
        if group_by == "tool"@ {
            Some(SummaryKind::TokensByTool)
        } else if group_by == "type"@ {
            Some(SummaryKind::TokensByType)
        } else if group_by == "turn"@ {
            Some(SummaryKind::TokensByTurn)
        } else {
            None
        }
    } else if metric == "time"@ {
        if group_by == "tool"@ {
            Some(SummaryKind::TimeByTool)
        } else if group_by == "type"@ {
            Some(SummaryKind::TimeByType)
        } else if group_by == "turn"@ {
            Some(SummaryKind::TimeByTurn)
        } else {
            None
        }
    } else if metric == "tool-calls"@ {
        if group_by == "tool"@ {
            Some(SummaryKind::ToolCallsByTool)
        } else if group_by == "turn"@ {
            Some(SummaryKind::ToolCallsByTurn)
        } else {
            None
        }
    } else {
        None
    }
}

/// The summary report for a metric and grouping (see `summary_kind_of`).
pub fn summary_kind(metric: &str, group_by: &str, has_tool: bool) -> (r: Option<SummaryKind>)
    ensures
        r == summary_kind_of(metric@, group_by@, has_tool),
{
    if str_eq(group_by, "none") {
        Some(SummaryKind::Aggregate)
    } else if has_tool {
        Some(SummaryKind::ToolDetail)
    } else if str_eq(metric, "tokens") {
        if str_eq(group_by, "tool") {
            Some(SummaryKind::TokensByTool)
        } else if str_eq(group_by, "type") {
            Some(SummaryKind::TokensByType)
        } else if str_eq(group_by, "turn") {
            Some(SummaryKind::TokensByTurn)
        } else {
            None
        }
    } else if str_eq(metric, "time") {
        if str_eq(group_by, "tool") {
            Some(SummaryKind::TimeByTool)
        } else if str_eq(group_by, "type") {
            Some(SummaryKind::TimeByType)
        } else if str_eq(group_by, "turn") {
            Some(SummaryKind::TimeByTurn)
        } else {
            None
        }
    } else if str_eq(metric, "tool-calls") {
        if str_eq(group_by, "tool") {
            Some(SummaryKind::ToolCallsByTool)
        } else if str_eq(group_by, "turn") {
            Some(SummaryKind::ToolCallsByTurn)
        } else {
            None
        }
    } else {
        None
    }
}

/// The distribution reports.
#[derive(Debug, Clone, Copy, PartialEq, Eq, Structural)]
pub enum DistributionKind {
    /// One tool's calls by detail, for time or call counts.
    DetailByMetric,
    /// One tool's calls by detail, for tokens.
    DetailTokens,
    TokensByTool,
    TokensByTurn,
    TimeByTool,
    TimeByTurn,
    ToolCallsByTurn,
}

/// Why a distribution cannot be shown.
#[derive(Debug, Clone, Copy, PartialEq, Eq, Structural)]
pub enum DistributionError {
    /// The metric and grouping do not go together.
    UnsupportedCombination,
    /// Tokens cannot be grouped that way.
    UnsupportedGroupBy,
}

/// The distribution report for a metric and grouping. For tokens: the drill-down with a
/// tool filter, else by tool or turn. For other metrics: the drill-down with a tool
/// filter, else time by tool or turn and tool calls by turn.
pub open spec fn distribution_kind_of(metric: Seq<char>, group_by: Seq<char>, has_tool: bool) -> Result<
    DistributionKind,
    DistributionError,
> {
    if metric != "tokens"@ {
        if has_tool {
            Ok(DistributionKind::DetailByMetric)
        } else if metric == "time"@ && group_by == "tool"@ {
            Ok(DistributionKind::TimeByTool)
        } else if metric == "time"@ && group_by == "turn"@ {
            Ok(DistributionKind::TimeByTurn)
        } else if metric == "tool-calls"@ && group_by == "turn"@ {
            Ok(DistributionKind::ToolCallsByTurn)
        } else {
            Err(DistributionError::UnsupportedCombination)
        }
    } else if has_tool {
        Ok(DistributionKind::DetailTokens)
    } else if group_by == "tool"@ {
        Ok(DistributionKind::TokensByTool)
    } else if group_by == "turn"@ {
        Ok(DistributionKind::TokensByTurn)
    } else {
        Err(DistributionError::UnsupportedGroupBy)
    }
}

/// The distribution report for a metric and grouping (see `distribution_kind_of`).
pub fn distribution_kind(metric: &str, group_by: &str, has_tool: bool) -> (r: Result<
    DistributionKind,
    DistributionError,
>)
    ensures
        r == distribution_kind_of(metric@, group_by@, has_tool),
{
    if !str_eq(metric, "tokens") {
        if has_tool {
            Ok(DistributionKind::DetailByMetric)
        } else if str_eq(metric, "time") && str_eq(group_by, "tool") {
            Ok(DistributionKind::TimeByTool)
        } else if str_eq(metric, "time") && str_eq(group_by, "turn") {
            Ok(DistributionKind::TimeByTurn)
        } else if str_eq(metric, "tool-calls") && str_eq(group_by, "turn") {
            Ok(DistributionKind::ToolCallsByTurn)
        } else {
            Err(DistributionError::UnsupportedCombination)
        }
    } else if has_tool {
        Ok(DistributionKind::DetailTokens)
    } else if str_eq(group_by, "tool") {
        Ok(DistributionKind::TokensByTool)
    } else if str_eq(group_by, "turn") {
        Ok(DistributionKind::TokensByTurn)
    } else {
        Err(DistributionError::UnsupportedGroupBy)
    }
}

/// The token types a sample shows: only the total for metrics other than tokens (their
/// value does not depend on the type), else the requested ones.
pub open spec fn sample_types_of(metric: Seq<char>, types: Seq<Seq<char>>) -> Seq<Seq<char>> {
    if metric != "tokens"@ {
        seq!["total"@]
    } else {
        types
    }
}

/// The token types a sample shows (see `sample_types_of`).
pub fn sample_token_types(metric: &str, types: &Vec<String>) -> (r: Vec<String>)
    ensures
        string_views(r@) == sample_types_of(metric@, string_views(types@)),
{
    let mut r: Vec<String> = Vec::new();
    if !str_eq(metric, "tokens") {
        r.push("total".to_string());
        proof {
            assert(string_views(r@) =~= seq!["total"@]);
        }
        return r;
    }
    let mut i: usize = 0;
    while i < types.len()
        invariant
            0 <= i <= types@.len(),
            string_views(r@) == string_views(types@).take(i as int),
            r@.len() == i,
        decreases types@.len() - i,
    {
        let ghost before = r@;
        r.push(copy_str(types[i].as_str()));
        proof {
            assert forall|k: int| 0 <= k < i + 1 implies #[trigger] string_views(r@)[k] == string_views(
                types@,
            ).take(i + 1)[k] by {
                if k < i {
                    assert(r@[k] == before[k]);
                    assert(string_views(before)[k] == string_views(types@).take(i as int)[k]);
                }
            }
            assert(string_views(r@) =~= string_views(types@).take(i + 1));
        }
        i = i + 1;
    }
    proof {
        assert(string_views(types@).take(i as int) =~= string_views(types@));
    }
    r
}


/// What a summary report measures, when it is tied to one metric.
pub open spec fn summary_metric(k: SummaryKind) -> Option<Seq<char>> {
    match k {
        SummaryKind::TokensByTool | SummaryKind::TokensByType | SummaryKind::TokensByTurn => Some(
            "tokens"@,
        ),
        SummaryKind::TimeByTool | SummaryKind::TimeByType | SummaryKind::TimeByTurn => Some(
            "time"@,
        ),
        SummaryKind::ToolCallsByTool | SummaryKind::ToolCallsByTurn => Some("tool-calls"@),
        _ => None,
    }
}

/// How a summary report groups, when it groups by tool, type or turn.
pub open spec fn summary_group(k: SummaryKind) -> Option<Seq<char>> {
    match k {
        SummaryKind::TokensByTool | SummaryKind::TimeByTool | SummaryKind::ToolCallsByTool => Some(
            "tool"@,
        ),
        SummaryKind::TokensByType | SummaryKind::TimeByType => Some("type"@),
        SummaryKind::TokensByTurn | SummaryKind::TimeByTurn | SummaryKind::ToolCallsByTurn => Some(
            "turn"@,
        ),
        _ => None,
    }
}

/// The summary chosen answers the question asked: grouping by `none` gives the aggregate;
/// otherwise a tool filter gives the drill-down; otherwise the report measures the
/// requested metric and groups by the requested grouping. Every metric (tokens, time,
/// tool calls) can be grouped by tool or turn, tokens and time also by type.
pub proof fn lemma_summary_kind_answers(metric: Seq<char>, group_by: Seq<char>, has_tool: bool)
    ensures
        (summary_kind_of(metric, group_by, has_tool) == Some(SummaryKind::Aggregate)) <==> group_by
            == "none"@,
        (summary_kind_of(metric, group_by, has_tool) == Some(SummaryKind::ToolDetail)) <==> (
        group_by != "none"@ && has_tool),
        group_by != "none"@ && !has_tool ==> match summary_kind_of(metric, group_by, has_tool) {
            Some(k) => summary_metric(k) == Some(metric) && summary_group(k) == Some(group_by),
            None => true,
        },
        group_by != "none"@ && !has_tool && (metric == "tokens"@ || metric == "time"@
            || metric == "tool-calls"@) && (group_by == "tool"@ || group_by == "turn"@)
            ==> summary_kind_of(metric, group_by, has_tool) is Some,
        group_by != "none"@ && !has_tool && (metric == "tokens"@ || metric == "time"@)
            && group_by == "type"@ ==> summary_kind_of(metric, group_by, has_tool) is Some,
{
    lemma_word_facts();
}

/// What a distribution report measures: tokens, time or tool calls; the drill-down that
/// is not about tokens measures time or tool calls, whichever was asked.
pub open spec fn distribution_metric(k: DistributionKind) -> Option<Seq<char>> {
    match k {
        DistributionKind::DetailTokens | DistributionKind::TokensByTool
        | DistributionKind::TokensByTurn => Some("tokens"@),
        DistributionKind::TimeByTool | DistributionKind::TimeByTurn => Some("time"@),
        DistributionKind::ToolCallsByTurn => Some("tool-calls"@),
        DistributionKind::DetailByMetric => None,
    }
}

/// How a distribution report groups: by tool, by turn, or (the drill-down) by detail.
pub open spec fn distribution_group(k: DistributionKind) -> Option<Seq<char>> {
    match k {
        DistributionKind::TokensByTool | DistributionKind::TimeByTool => Some("tool"@),
        DistributionKind::TokensByTurn | DistributionKind::TimeByTurn
        | DistributionKind::ToolCallsByTurn => Some("turn"@),
        _ => None,
    }
}

/// The distribution chosen answers the question asked: a tool filter gives the
/// drill-down (the token one exactly for tokens); otherwise the report measures the
/// requested metric and groups by the requested grouping. Tokens and time can be grouped
/// by tool or turn, tool calls by turn; other groupings are refused.
pub proof fn lemma_distribution_kind_answers(
    metric: Seq<char>,
    group_by: Seq<char>,
    has_tool: bool,
)
    ensures
        has_tool ==> distribution_kind_of(metric, group_by, has_tool) == Ok::<
            DistributionKind,
            DistributionError,
        >(if metric == "tokens"@ {
            DistributionKind::DetailTokens
        } else {
            DistributionKind::DetailByMetric
        }),
        !has_tool ==> match distribution_kind_of(metric, group_by, has_tool) {
            Ok(k) => distribution_metric(k) == Some(metric) && distribution_group(k) == Some(
                group_by,
            ),
            Err(_) => true,
        },
        !has_tool && (metric == "tokens"@ || metric == "time"@) && (group_by == "tool"@
            || group_by == "turn"@) ==> distribution_kind_of(metric, group_by, has_tool) is Ok,
        !has_tool && metric == "tool-calls"@ && group_by == "turn"@ ==> distribution_kind_of(
            metric,
            group_by,
            has_tool,
        ) is Ok,
{
    lemma_word_facts();
}

/// The words of the options are different words.
proof fn lemma_word_facts()
    ensures
        "tokens"@ != "time"@,
        "tokens"@ != "tool-calls"@,
        "time"@ != "tool-calls"@,
        "none"@ != "tool"@,
        "none"@ != "type"@,
        "none"@ != "turn"@,
        "tool"@ != "type"@,
        "tool"@ != "turn"@,
        "type"@ != "turn"@,
{
    reveal_strlit("tokens");
    reveal_strlit("time");
    reveal_strlit("tool-calls");
    reveal_strlit("none");
    reveal_strlit("tool");
    reveal_strlit("type");
    reveal_strlit("turn");
    assert("tokens"@[1] != "time"@[1]);
    assert("tokens"@[2] != "tool-calls"@[2]);
    assert("time"@[1] != "tool-calls"@[1]);
    assert("none"@[0] != "tool"@[0]);
    assert("none"@[0] != "type"@[0]);
    assert("none"@[0] != "turn"@[0]);
    assert("tool"@[1] != "type"@[1]);
    assert("tool"@[1] != "turn"@[1]);
    assert("type"@[1] != "turn"@[1]);
}

} // verus!
