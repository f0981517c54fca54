use vstd::prelude::*;

use crate::model::types::TokenUsage;
use crate::text::{chars_of, copy_str, join_parts, str_eq, string_views, trim_chars, trimmed};

verus! {

// ─── Token types ────────────────────────────────────────────────────────────

/// The pieces of `s` between commas, as `str::split(',')` yields them (one empty piece
/// for the empty string).
pub open spec fn split_commas(s: Seq<char>) -> Seq<Seq<char>>
    decreases s.len(),
{
    if s.len() == 0 {
        seq![Seq::<char>::empty()]
    } else {
        let r = split_commas(s.drop_last());
        if s.last() == ',' {
            r.push(Seq::<char>::empty())
        } else {
            r.update(r.len() - 1, r.last().push(s.last()))
        }
    }
}

pub proof fn lemma_split_commas_nonempty(s: Seq<char>)
    ensures
        split_commas(s).len() >= 1,
    decreases s.len(),
{
    if s.len() > 0 {
        lemma_split_commas_nonempty(s.drop_last());
    }
}

/// Splitting at commas loses nothing and keeps no comma: the pieces joined with `,` give
/// back `s`, and no piece holds a comma.
pub proof fn lemma_split_commas_round_trip(s: Seq<char>)
    ensures
        join_parts(split_commas(s), ","@) == s,
        forall|i: int, j: int|
            0 <= i < split_commas(s).len() && 0 <= j < split_commas(s)[i].len() ==> #[trigger] split_commas(
                s,
            )[i][j] != ',',
    decreases s.len(),
{
    reveal_strlit(",");
    lemma_split_commas_nonempty(s);
    if s.len() > 0 {
        let s0 = s.drop_last();
        let c = s.last();
        lemma_split_commas_round_trip(s0);
        lemma_split_commas_nonempty(s0);
        let r = split_commas(s0);
        let q = split_commas(s);
        assert(s =~= s0.push(c));
        if c == ',' {
            assert(q == r.push(Seq::<char>::empty()));
            assert(q.drop_last() =~= r);
            assert(join_parts(q, ","@) =~= s);
            assert forall|i: int, j: int| 0 <= i < q.len() && 0 <= j < q[i].len() implies #[trigger] q[i][j]
                != ',' by {
                assert(q[i] == r[i]);
            }
        } else {
            let last = r.last().push(c);
            assert(q == r.update(r.len() - 1, last));
            if r.len() == 1 {
                assert(join_parts(q, ","@) =~= s);
            } else {
                assert(q.drop_last() =~= r.drop_last());
                assert(join_parts(q, ","@) =~= join_parts(r.drop_last(), ","@) + ","@ + r.last().push(c));
                assert(join_parts(q, ","@) =~= s);
            }
            assert forall|i: int, j: int| 0 <= i < q.len() && 0 <= j < q[i].len() implies #[trigger] q[i][j]
                != ',' by {
                if i < r.len() - 1 {
                    assert(q[i] == r[i]);
                } else if j < r.last().len() {
                    assert(q[i][j] == r[r.len() - 1][j]);
                }
            }
        }
    }
}

/// The five token components, in display order.
pub open spec fn all_token_types() -> Seq<Seq<char>> {
    seq!["input"@, "output"@, "cache-create"@, "cache-read"@, "total"@]
}

/// The token types a comma-separated list names: `all` for the five components,
/// otherwise each piece with white space trimmed.
pub open spec fn token_types_of(s: Seq<char>) -> Seq<Seq<char>> {
    if s == "all"@ {
        all_token_types()
    } else {
        split_commas(s).map_values(|p: Seq<char>| trimmed(p))
    }
}

/// Parses a comma-separated list of token types; `all` expands to all five components.
pub fn parse_token_types(s: &str) -> (r: Vec<String>)
    ensures
        string_views(r@) == token_types_of(s@),
{
    if str_eq(s, "all") {
        let mut r: Vec<String> = Vec::new();
        r.push("input".to_string());
        r.push("output".to_string());
        r.push("cache-create".to_string());
        r.push("cache-read".to_string());
        r.push("total".to_string());
        assert(string_views(r@) =~= all_token_types());
        return r;
    }
    let v = chars_of(s);
    let mut r: Vec<String> = Vec::new();
    let mut start: usize = 0;
    let mut i: usize = 0;
    proof {
        assert(v@.take(0) =~= Seq::<char>::empty());
        assert(v@.subrange(0, 0) =~= Seq::<char>::empty());
    }
    while i < v.len()
        invariant
            v@ == s@,
            0 <= start <= i <= v@.len(),
            split_commas(v@.take(i as int)).len() == r@.len() + 1,
            string_views(r@) == split_commas(v@.take(i as int)).drop_last().map_values(
                |p: Seq<char>| trimmed(p),
            ),
            split_commas(v@.take(i as int)).last() == v@.subrange(start as int, i as int),
        decreases v@.len() - i,
    {
        let ghost prev = split_commas(v@.take(i as int));
        proof {
            assert(v@.take(i + 1).drop_last() =~= v@.take(i as int));
            assert(v@.take(i + 1).last() == v@[i as int]);
            lemma_split_commas_nonempty(v@.take(i as int));
        }
        if v[i] == ',' {
            let piece = trim_chars(&v, start, i);
            let ghost before = r@;
            r.push(piece);
            start = i + 1;
            proof {
                let next = split_commas(v@.take(i + 1));
                assert(next == prev.push(Seq::<char>::empty()));
                assert(next.drop_last() =~= prev);
                assert forall|k: int| 0 <= k < prev.len() implies string_views(r@)[k] == trimmed(
                    prev[k],
                ) by {
                    if k < prev.len() - 1 {
                        assert(r@[k] == before[k]);
                        assert(string_views(before)[k] == prev.drop_last().map_values(
                            |p: Seq<char>| trimmed(p),
                        )[k]);
                    }
                }
                assert(string_views(r@) =~= prev.map_values(|p: Seq<char>| trimmed(p)));
                assert(v@.subrange(start as int, i + 1) =~= Seq::<char>::empty());
            }
        } else {
            proof {
                let next = split_commas(v@.take(i + 1));
                assert(next == prev.update(prev.len() - 1, prev.last().push(v@[i as int])));
                assert(next.drop_last() =~= prev.drop_last());
                assert(v@.subrange(start as int, i + 1) =~= v@.subrange(start as int, i as int).push(
                    v@[i as int],
                ));
            }
        }
        i = i + 1;
    }
    let last = trim_chars(&v, start, i);
    let ghost before = r@;
    r.push(last);
    proof {
        let pieces = split_commas(v@.take(i as int));
        assert(v@.take(i as int) =~= s@);
        assert(pieces.drop_last().push(pieces.last()) =~= pieces);
        assert forall|k: int| 0 <= k < pieces.len() implies string_views(r@)[k] == trimmed(
            pieces[k],
        ) by {
            if k < pieces.len() - 1 {
                assert(r@[k] == before[k]);
                assert(string_views(before)[k] == pieces.drop_last().map_values(
                    |p: Seq<char>| trimmed(p),
                )[k]);
            }
        }
        assert(string_views(r@) =~= pieces.map_values(|p: Seq<char>| trimmed(p)));
        assert(s@ != "all"@);
    }
    r
}

/// The selected component of a usage: `input`, `output`, `cache-read`, `cache-create`,
/// and the total for anything else.
pub open spec fn token_value_of(u: TokenUsage, tt: Seq<char>) -> int {
    if tt == "input"@ {
        u.input_tokens as int
    } else if tt == "output"@ {
        u.output_tokens as int
    } else if tt == "cache-read"@ {
        u.cache_read_input_tokens as int
    } else if tt == "cache-create"@ {
        u.cache_creation_input_tokens as int
    } else {
        u.spec_total()
    }
}

/// The selected token component of a usage (see `token_value_of`).
pub fn token_value(usage: &TokenUsage, token_type: &str) -> (v: u64)
    requires
        token_value_of(*usage, token_type@) <= u64::MAX,
    ensures
        v == token_value_of(*usage, token_type@),
{
    if str_eq(token_type, "input") {
        usage.input_tokens
    } else if str_eq(token_type, "output") {
        usage.output_tokens
    } else if str_eq(token_type, "cache-read") {
        usage.cache_read_input_tokens
    } else if str_eq(token_type, "cache-create") {
        usage.cache_creation_input_tokens
    } else {
        usage.total()
    }
}

/// The display label of a token type.
pub open spec fn token_label(tt: Seq<char>) -> Seq<char> {
    if tt == "input"@ {
        "Input"@
    } else if tt == "output"@ {
        "Output"@
    } else if tt == "cache-read"@ {
        "Cache Read"@
    } else if tt == "cache-create"@ {
        "Cache Create"@
    } else {
        "Total"@
    }
}

/// The display label of a token type (see `token_label`).
pub fn token_type_label(token_type: &str) -> (s: &'static str)
    ensures
        s@ == token_label(token_type@),
{
    if str_eq(token_type, "input") {
        "Input"
    } else if str_eq(token_type, "output") {
        "Output"
    } else if str_eq(token_type, "cache-read") {
        "Cache Read"
    } else if str_eq(token_type, "cache-create") {
        "Cache Create"
    } else {
        "Total"
    }
}

/// The header of the percentage column: `% of Total` when the only type is the total,
/// otherwise `% of` and the label of the first type.
pub open spec fn pct_label(primary: Seq<char>, num_types: nat) -> Seq<char> {
    if num_types == 1 && primary == "total"@ {
        "% of Total"@
    } else {
        "% of "@ + token_label(primary)
    }
}

/// The header of the percentage column (see `pct_label`).
pub fn pct_column_label(primary: &str, num_types: usize) -> (s: String)
    ensures
        s@ == pct_label(primary@, num_types as nat),
{
    if num_types == 1 && str_eq(primary, "total") {
        "% of Total".to_string()
    } else {
        let mut s = "% of ".to_string();
        s.append(token_type_label(primary));
        s
    }
}

/// The JSON key of a token type.
pub open spec fn json_key(tt: Seq<char>) -> Seq<char> {
    if tt == "input"@ {
        "input_tokens"@
    } else if tt == "output"@ {
        "output_tokens"@
    } else if tt == "cache-read"@ {
        "cache_read_input_tokens"@
    } else if tt == "cache-create"@ {
        "cache_creation_input_tokens"@
    } else {
        "total"@
    }
}

/// The JSON key of a token type (see `json_key`).
pub fn token_type_json_key(token_type: &str) -> (s: &'static str)
    ensures
        s@ == json_key(token_type@),
{
    if str_eq(token_type, "input") {
        "input_tokens"
    } else if str_eq(token_type, "output") {
        "output_tokens"
    } else if str_eq(token_type, "cache-read") {
        "cache_read_input_tokens"
    } else if str_eq(token_type, "cache-create") {
        "cache_creation_input_tokens"
    } else {
        "total"
    }
}


/// What each token type selects, shows and is keyed by: `input`, `output`, `cache-read`
/// and `cache-create` pick their own component, and `total` (like any other name) the
/// total, which is the sum of the four components.
pub proof fn lemma_token_types(u: TokenUsage)
    ensures
        token_value_of(u, "input"@) == u.input_tokens,
        token_value_of(u, "output"@) == u.output_tokens,
        token_value_of(u, "cache-read"@) == u.cache_read_input_tokens,
        token_value_of(u, "cache-create"@) == u.cache_creation_input_tokens,
        token_value_of(u, "total"@) == token_value_of(u, "input"@) + token_value_of(u, "output"@)
            + token_value_of(u, "cache-read"@) + token_value_of(u, "cache-create"@),
        token_label("input"@) == "Input"@ && json_key("input"@) == "input_tokens"@,
        token_label("output"@) == "Output"@ && json_key("output"@) == "output_tokens"@,
        token_label("cache-read"@) == "Cache Read"@ && json_key("cache-read"@)
            == "cache_read_input_tokens"@,
        token_label("cache-create"@) == "Cache Create"@ && json_key("cache-create"@)
            == "cache_creation_input_tokens"@,
        token_label("total"@) == "Total"@ && json_key("total"@) == "total"@,
{
    reveal_strlit("input");
    reveal_strlit("output");
    reveal_strlit("cache-read");
    reveal_strlit("cache-create");
    reveal_strlit("total");
    assert("output"@[0] != "input"@[0]);
    assert("cache-read"@[0] != "input"@[0] && "cache-read"@[0] != "output"@[0]);
    assert("cache-create"@[0] != "input"@[0] && "cache-create"@[0] != "output"@[0]);
    assert("cache-create"@[6] != "cache-read"@[6]);
    assert("total"@[0] != "input"@[0] && "total"@[0] != "output"@[0] && "total"@[0]
        != "cache-read"@[0] && "total"@[0] != "cache-create"@[0]);
}

} // verus!
