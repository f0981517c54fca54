pub mod raw;
pub mod tool_events;
pub mod transform;

use vstd::prelude::*;

use crate::model::block::{opt_view, tokens_total};
use crate::model::session::Session;
use crate::model::types::RawLineRef;
use raw::RawEntry;
use raw::UserContent;
use transform::{
    entry_tokens, find_pending, lemma_find_pending, next_session_id, pair_results, pending_insert,
    register_calls, PendingView, Transformer,
};

verus! {

/// The byte offset of line `i` (0-based): every earlier line and its newline.
pub open spec fn offset_before(lens: Seq<usize>, i: int) -> int
    decreases i,
{
    if i <= 0 {
        0
    } else {
        offset_before(lens, i - 1) + lens[i - 1] + 1
    }
}

/// The reference to line `i` (0-based) of a file whose lines have the given byte lengths.
pub open spec fn line_ref_at(lens: Seq<usize>, i: int) -> RawLineRef {
    RawLineRef {
        line_number: (i + 1) as usize,
        byte_offset: offset_before(lens, i) as usize,
        byte_length: lens[i],
    }
}

/// The byte lengths of the lines.
pub open spec fn line_lengths(lines: Seq<(Option<RawEntry>, usize)>) -> Seq<usize> {
    lines.map_values(|l: (Option<RawEntry>, usize)| l.1)
}

/// The tokens that the parsed entries among the lines bring, in total.
pub open spec fn lines_tokens(lines: Seq<(Option<RawEntry>, usize)>) -> int
    decreases lines.len(),
{
    if lines.len() == 0 {
        0
    } else {
        lines_tokens(lines.drop_last()) + match lines.last().0 {
            Some(e) => entry_tokens(e),
            None => 0,
        }
    }
}

/// The session id of an entry's common fields, as the transformer keeps it.
pub open spec fn session_id_after_entry(old: Option<Seq<char>>, e: RawEntry) -> Option<Seq<char>> {
    match e {
        RawEntry::User(u) => next_session_id(old, u.common),
        RawEntry::Assistant(a) => next_session_id(old, a.common),
        RawEntry::System(s) => next_session_id(old, s.common),
        _ => old,
    }
}

/// The session id after the lines: the first one that an entry carries.
pub open spec fn lines_session_id(lines: Seq<(Option<RawEntry>, usize)>) -> Option<Seq<char>>
    decreases lines.len(),
{
    if lines.len() == 0 {
        None
    } else {
        let old = lines_session_id(lines.drop_last());
        match lines.last().0 {
            Some(e) => session_id_after_entry(old, e),
            None => old,
        }
    }
}

/// A line's provenance names one of the lines that held a parsed entry.
pub open spec fn is_entry_line(lines: Seq<(Option<RawEntry>, usize)>, r: RawLineRef) -> bool {
    exists|k: int|
        0 <= k < lines.len() && lines[k].0 is Some && r == #[trigger] line_ref_at(
            line_lengths(lines),
            k,
        )
}

pub proof fn lemma_lines_tokens_nonneg(lines: Seq<(Option<RawEntry>, usize)>)
    ensures
        lines_tokens(lines) >= 0,
    decreases lines.len(),
{
    if lines.len() > 0 {
        lemma_lines_tokens_nonneg(lines.drop_last());
        match lines.last().0 {
            Some(e) => {
                match e {
                    RawEntry::Assistant(a) => {},
                    _ => {},
                }
            },
            None => {},
        }
    }
}

pub proof fn lemma_lines_tokens_prefix(lines: Seq<(Option<RawEntry>, usize)>, k: int)
    requires
        0 <= k <= lines.len(),
    ensures
        lines_tokens(lines.take(k)) <= lines_tokens(lines),
    decreases lines.len() - k,
{
    if k < lines.len() {
        assert(lines.take(k + 1).drop_last() =~= lines.take(k));
        lemma_lines_tokens_prefix(lines, k + 1);
        lemma_lines_tokens_nonneg(lines.take(k + 1));
        assert(lines_tokens(lines.take(k + 1)) >= lines_tokens(lines.take(k))) by {
            assert(lines.take(k + 1).last() == lines[k]);
            match lines[k].0 {
                Some(e) => match e {
                    RawEntry::Assistant(a) => {},
                    _ => {},
                },
                None => {},
            }
        }
    } else {
        assert(lines.take(k) =~= lines);
    }
}

pub proof fn lemma_offset_before_mono(lens: Seq<usize>, i: int, j: int)
    requires
        0 <= i <= j,
    ensures
        offset_before(lens, i) <= offset_before(lens, j),
    decreases j - i,
{
    if i < j {
        lemma_offset_before_mono(lens, i, j - 1);
    }
}

/// One line's effect on the transformer: the step of the entry it holds, or nothing for
/// a line without a user, assistant or system entry.
pub open spec fn line_step(
    before: Transformer,
    after: Transformer,
    entry: Option<RawEntry>,
    l: RawLineRef,
) -> bool {
    match entry {
        Some(RawEntry::User(u)) => before.user_step(&after, u, l),
        Some(RawEntry::Assistant(a)) => before.assistant_step(&after, a, l),
        Some(RawEntry::System(s)) => before.system_step(&after, s, l),
        _ => after == before,
    }
}

/// `trace` is a run of the transformer over the first `trace.len() - 1` lines: it starts
/// fresh, and each state follows from the one before by the next line.
pub open spec fn is_run(ls: Seq<(Option<RawEntry>, usize)>, trace: Seq<Transformer>) -> bool {
    &&& 1 <= trace.len() <= ls.len() + 1
    &&& trace[0].is_fresh()
    &&& forall|i: int|
        0 <= i < trace.len() - 1 ==> line_step(
            #[trigger] trace[i],
            trace[i + 1],
            ls[i].0,
            line_ref_at(line_lengths(ls), i),
        )
}

/// Every pending call was made on a line that held an entry.
#[verifier::opaque]
spec fn pending_lines_in(p: Seq<PendingView>, ls: Seq<(Option<RawEntry>, usize)>) -> bool {
    forall|j: int| 0 <= j < p.len() ==> is_entry_line(ls, (#[trigger] p[j]).line)
}

/// Pairing results only takes calls out of the pending ones.
proof fn lemma_pair_results_lines(
    p: Seq<PendingView>,
    bs: Seq<raw::UserContentBlock>,
    ls: Seq<(Option<RawEntry>, usize)>,
)
    requires
        pending_lines_in(p, ls),
    ensures
        pending_lines_in(pair_results(p, bs).1, ls),
    decreases bs.len(),
{
    reveal(pending_lines_in);
    if bs.len() > 0 {
        match bs[0] {
            raw::UserContentBlock::ToolResult(tr) => {
                lemma_find_pending(p, tr.tool_use_id@);
                match find_pending(p, tr.tool_use_id@) {
                    Some(i) => {
                        let q = p.remove(i);
                        assert forall|j: int| 0 <= j < q.len() implies is_entry_line(
                            ls,
                            (#[trigger] q[j]).line,
                        ) by {
                            if j < i {
                                assert(q[j] == p[j]);
                            } else {
                                assert(q[j] == p[j + 1]);
                            }
                        }
                        lemma_pair_results_lines(q, bs.drop_first(), ls);
                    },
                    None => {
                        lemma_pair_results_lines(p, bs.drop_first(), ls);
                    },
                }
            },
            raw::UserContentBlock::Text { .. } => {
                lemma_pair_results_lines(p, bs.drop_first(), ls);
            },
        }
    }
}

/// Registering the calls of an entry on line `l` adds only calls made on `l`.
proof fn lemma_register_lines(
    p: Seq<PendingView>,
    uses: Seq<raw::RawToolUse>,
    a: raw::CommonFields,
    caller: Seq<char>,
    l: RawLineRef,
    ls: Seq<(Option<RawEntry>, usize)>,
)
    requires
        pending_lines_in(p, ls),
        is_entry_line(ls, l),
    ensures
        pending_lines_in(register_calls(p, uses, a, caller, l), ls),
    decreases uses.len(),
{
    reveal(pending_lines_in);
    if uses.len() > 0 {
        lemma_register_lines(p, uses.drop_last(), a, caller, l, ls);
        let q = register_calls(p, uses.drop_last(), a, caller, l);
        let c = transform::pending_for(uses.last(), a, caller, l);
        lemma_find_pending(q, c.tool_use_id);
        let r = pending_insert(q, c);
        assert forall|j: int| 0 <= j < r.len() implies is_entry_line(ls, (#[trigger] r[j]).line) by {
            match find_pending(q, c.tool_use_id) {
                Some(i) => {
                    if j != i {
                        assert(r[j] == q[j]);
                    }
                },
                None => {
                    if j < q.len() {
                        assert(r[j] == q[j]);
                    }
                },
            }
        }
    }
}

/// After one entry, every pending call was still made on a line that held an entry.
proof fn pending_step(
    before: Transformer,
    after: Transformer,
    e: RawEntry,
    l: RawLineRef,
    ls: Seq<(Option<RawEntry>, usize)>,
)
    requires
        is_entry_line(ls, l),
        pending_lines_in(before.pending(), ls),
        match e {
            RawEntry::User(u) => before.user_step(&after, u, l),
            RawEntry::Assistant(a) => before.assistant_step(&after, a, l),
            RawEntry::System(s) => before.system_step(&after, s, l),
            _ => after == before,
        },
    ensures
        pending_lines_in(after.pending(), ls),
{
    match e {
        RawEntry::User(u) => {
            match u.message.content {
                UserContent::Text(t) => {},
                UserContent::Blocks(bs) => {
                    lemma_pair_results_lines(before.pending(), bs@, ls);
                },
            }
        },
        RawEntry::Assistant(a) => {
            lemma_register_lines(
                before.pending(),
                transform::tool_uses(a.message.content@),
                a.common,
                before.caller_uuid(a),
                l,
                ls,
            );
        },
        _ => {},
    }
}

/// After one entry, every line that a block records is still a line that held an entry.
proof fn provenance_step(
    before: Transformer,
    after: Transformer,
    e: RawEntry,
    l: RawLineRef,
    ls: Seq<(Option<RawEntry>, usize)>,
)
    requires
        before.wf(),
        is_entry_line(ls, l),
        forall|i: int, j: int|
            0 <= i < before.provenance().len() && 0 <= j < before.provenance()[i].len()
                ==> is_entry_line(ls, #[trigger] before.provenance()[i][j]),
        match e {
            RawEntry::User(u) => before.user_step(&after, u, l),
            RawEntry::Assistant(a) => before.assistant_step(&after, a, l),
            RawEntry::System(s) => before.system_step(&after, s, l),
            _ => after == before,
        },
    ensures
        forall|i: int, j: int|
            0 <= i < after.provenance().len() && 0 <= j < after.provenance()[i].len()
                ==> is_entry_line(ls, #[trigger] after.provenance()[i][j]),
{
    let p0 = before.provenance();
    let p1 = after.provenance();
    before.lemma_wf_provenance_len();
    match e {
        RawEntry::User(u) => {
            after.lemma_wf_provenance_len();
            match u.message.content {
                raw::UserContent::Text(t) => {},
                raw::UserContent::Blocks(bs) => {},
            }
            assert(p1.len() >= p0.len());
            assert forall|i: int, j: int|
                0 <= i < p1.len() && 0 <= j < p1[i].len() implies is_entry_line(
                ls,
                #[trigger] p1[i][j],
            ) by {
                if i < p0.len() {
                    assert(p1.take(p0.len() as int)[i] == p1[i]);
                } else {
                    assert(p1[i] == seq![l]);
                }
            }
        },
        RawEntry::Assistant(a) => {
            let rid = transform::or_empty(a.request_id);
            if rid.len() > 0 && before.request_block(rid) is Some {
                let i0 = before.request_block(rid).unwrap();
                assert forall|i: int, j: int|
                    0 <= i < p1.len() && 0 <= j < p1[i].len() implies is_entry_line(
                    ls,
                    #[trigger] p1[i][j],
                ) by {
                    if i != i0 {
                        assert(p1[i] == p0[i]);
                    } else if j < p0[i].len() {
                        assert(p1[i] == p0[i].push(l));
                        assert(p1[i][j] == p0[i][j]);
                    } else {
                        assert(p1[i] == p0[i].push(l));
                    }
                }
            } else {
                assert forall|i: int, j: int|
                    0 <= i < p1.len() && 0 <= j < p1[i].len() implies is_entry_line(
                    ls,
                    #[trigger] p1[i][j],
                ) by {
                    if i < p0.len() {
                        assert(p1[i] == p0[i]);
                    }
                }
            }
        },
        RawEntry::System(s) => {
            assert forall|i: int, j: int|
                0 <= i < p1.len() && 0 <= j < p1[i].len() implies is_entry_line(
                ls,
                #[trigger] p1[i][j],
            ) by {
                if i < p0.len() {
                    assert(p1[i] == p0[i]);
                }
            }
        },
        _ => {},
    }
}

/// Whether the lines can be parsed without overflow: the tokens of all entries fit in a
/// `u64` and the byte offsets fit in a `usize`.
pub fn lines_fit(lines: &Vec<(Option<RawEntry>, usize)>) -> (r: bool)
    ensures
        r == (lines_tokens(lines@) <= u64::MAX && offset_before(
            line_lengths(lines@),
            lines@.len() as int,
        ) <= usize::MAX),
{
    let ghost lens = line_lengths(lines@);
    let mut tokens: u64 = 0;
    let mut offset: usize = 0;
    let mut tokens_ok = true;
    let mut offset_ok = true;
    let mut i: usize = 0;
    while i < lines.len()
        invariant
            0 <= i <= lines@.len(),
            lens == line_lengths(lines@),
            tokens_ok ==> tokens == lines_tokens(lines@.take(i as int)),
            !tokens_ok ==> lines_tokens(lines@.take(i as int)) > u64::MAX,
            offset_ok ==> offset == offset_before(lens, i as int),
            !offset_ok ==> offset_before(lens, i as int) > usize::MAX,
        decreases lines@.len() - i,
    {
        proof {
            assert(lines@.take(i + 1).drop_last() =~= lines@.take(i as int));
            assert(lines@.take(i + 1).last() == lines@[i as int]);
            lemma_lines_tokens_nonneg(lines@.take(i as int));
        }
        let t: u64 = match &lines[i].0 {
            Some(RawEntry::Assistant(a)) => match &a.message.usage {
                Some(u) => {
                    let s1 = u.input_tokens.checked_add(u.cache_creation_input_tokens);
                    let s2 = match s1 {
                        Some(x) => x.checked_add(u.cache_read_input_tokens),
                        None => None,
                    };
                    let s3 = match s2 {
                        Some(x) => x.checked_add(u.output_tokens),
                        None => None,
                    };
                    match s3 {
                        Some(x) => x,
                        None => {
                            tokens_ok = false;
                            0
                        },
                    }
                },
                None => 0,
            },
            _ => 0,
        };
        if tokens_ok {
            match tokens.checked_add(t) {
                Some(x) => {
                    tokens = x;
                },
                None => {
                    tokens_ok = false;
                },
            }
        }
        if offset_ok {
            let len = lines[i].1;
            match offset.checked_add(len) {
                Some(x) => match x.checked_add(1) {
                    Some(y) => {
                        offset = y;
                    },
                    None => {
                        offset_ok = false;
                    },
                },
                None => {
                    offset_ok = false;
                },
            }
        }
        i = i + 1;
    }
    proof {
        assert(lines@.take(i as int) =~= lines@);
    }
    tokens_ok && offset_ok
}

/// Parses the lines of a session file into a session. Each line comes as its parsed
/// entry (none for a line that is not a known entry) and its length in bytes. Line `i`
/// (0-based) is referenced as line `i + 1`, at the sum of the earlier lines' lengths plus
/// one newline byte each.
pub fn parse_session_lines(lines: Vec<(Option<RawEntry>, usize)>, file_path: String) -> (s:
    Session)
    requires
        lines_tokens(lines@) <= u64::MAX,
        offset_before(line_lengths(lines@), lines@.len() as int) <= usize::MAX,
    ensures
        s.wf(),
        tokens_total(s.blocks@) == lines_tokens(lines@),
        opt_view(s.session_id) == lines_session_id(lines@),
        s.file_path == file_path,
        exists|trace: Seq<Transformer>|
            #[trigger] is_run(lines@, trace) && trace.len() == lines@.len() + 1
                && trace.last().finishes_as(s.blocks@, s.provenance@, opt_view(s.session_id)),
        forall|i: usize| #[trigger] s.provenance@.contains_key(i) <==> (i as int) < s.blocks@.len(),
        forall|i: usize| (i as int) < s.blocks@.len() ==> (#[trigger] s.provenance@[i])@.len() > 0,
        forall|i: usize|
            #[trigger] s.provenance@.contains_key(i) ==> forall|j: int|
                0 <= j < s.provenance@[i]@.len() ==> is_entry_line(
                    lines@,
                    #[trigger] s.provenance@[i]@[j],
                ),
{
    let ghost ls = lines@;
    let ghost lens = line_lengths(ls);
    let mut transformer = Transformer::new();
    let ghost mut trace: Seq<Transformer> = seq![transformer];
    proof {
        reveal(pending_lines_in);
    }
    let mut byte_offset: usize = 0;
    let mut line_number: usize = 0;
    let count = lines.len();
    for item in it: lines.into_iter()
        invariant
            ls.len() == count,
            it.seq() == ls,
            lens == line_lengths(ls),
            line_number == it.index(),
            lines_tokens(ls) <= u64::MAX,
            offset_before(lens, ls.len() as int) <= usize::MAX,
            byte_offset == offset_before(lens, line_number as int),
            transformer.wf(),
            pending_lines_in(transformer.pending(), ls),
            is_run(ls, trace),
            trace.len() == line_number + 1,
            trace.last() == transformer,
            tokens_total(transformer.blocks()) == lines_tokens(ls.take(line_number as int)),
            transformer.session_id() == lines_session_id(ls.take(line_number as int)),
            forall|i: int, j: int|
                0 <= i < transformer.provenance().len() && 0 <= j
                    < transformer.provenance()[i].len() ==> is_entry_line(
                    ls,
                    #[trigger] transformer.provenance()[i][j],
                ),
    {
        let (entry, byte_length) = item;
        let ghost k = line_number as int;
        proof {
            assert(ls[k] == item);
            assert(ls.take(k + 1).drop_last() =~= ls.take(k));
            assert(ls.take(k + 1).last() == ls[k]);
            lemma_offset_before_mono(lens, k + 1, ls.len() as int);
            lemma_lines_tokens_prefix(ls, k + 1);
        }
        let line_ref = RawLineRef {
            line_number: line_number + 1,
            byte_offset,
            byte_length,
        };
        proof {
            assert(line_ref == line_ref_at(lens, k));
        }
        byte_offset = byte_offset + byte_length + 1;
        line_number = line_number + 1;
        let ghost before = transformer;
        match entry {
            Some(e) => {
                proof {
                    assert(is_entry_line(ls, line_ref));
                    if e is Assistant {
                        transformer.lemma_merge_fits(e->Assistant_0);
                    }
                }
                transformer.process_entry(e, line_ref);
                proof {
                    provenance_step(before, transformer, e, line_ref, ls);
                    pending_step(before, transformer, e, line_ref, ls);
                }
            },
            None => {},
        }
        proof {
            assert(line_step(before, transformer, ls[k].0, line_ref_at(lens, k)));
            let t0 = trace;
            trace = t0.push(transformer);
            assert forall|i: int| 0 <= i < trace.len() - 1 implies line_step(
                #[trigger] trace[i],
                trace[i + 1],
                ls[i].0,
                line_ref_at(line_lengths(ls), i),
            ) by {
                if i < k {
                    assert(trace[i] == t0[i] && trace[i + 1] == t0[i + 1]);
                }
            }
        }
    }
    proof {
        transformer.lemma_wf_provenance_len();
    }
    let ghost last = transformer;
    let (blocks, provenance, session_id) = transformer.finish();
    proof {
        assert(ls.take(ls.len() as int) =~= ls);
        assert(last.finishes_as(blocks@, provenance@, opt_view(session_id)));
        last.lemma_wf_provenance_len();
        reveal(pending_lines_in);
        let nb = last.blocks().len();
        assert forall|i: usize| #[trigger] provenance@.contains_key(i) implies forall|j: int|
            0 <= j < provenance@[i]@.len() ==> is_entry_line(
                ls,
                #[trigger] provenance@[i]@[j],
            ) by {
            if (i as int) < nb {
                assert(provenance@[i]@ == last.provenance()[i as int]);
            } else {
                let k = i - nb;
                assert(provenance@[(nb + k) as usize]@ == seq![last.pending()[k].line]);
            }
        }
        assert forall|i: usize| (i as int) < blocks@.len() implies (#[trigger] provenance@[i])@.len() > 0 by {
            if (i as int) < nb {
                assert(provenance@[i]@ == last.provenance()[i as int]);
            } else {
                let k = i - nb;
                assert(provenance@[(nb + k) as usize]@ == seq![last.pending()[k].line]);
            }
        }
    }
    let s = Session::build(blocks, provenance, session_id, file_path);
    proof {
        assert(is_run(ls, trace));
    }
    s
}

} // verus!
