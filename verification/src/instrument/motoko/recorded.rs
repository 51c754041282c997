//! What the text that is put into a Motoko actor records.

use vstd::prelude::*;
use vstd::string::*;

use crate::instrument::gather::listed;
use crate::instrument::motoko::actor::{actor_of, ActorView};
use crate::instrument::motoko::body::{entry_place, traps, throws, writes};
use crate::instrument::motoko::funcs::{func_view, modified_by, shape_at, FuncView, Names};
use crate::instrument::motoko::imports::{blank_end, indent_at};
use crate::instrument::motoko::rules::{
    body_of, entry_note, exit_place, lead_of, mutation_snapshot, rollback_note, trap_note,
    wrap_edits, wrap_method, wrap_method_insert_header,
};
use crate::instrument::motoko::scan::{last_semi, mask, word_at};
use crate::instrument::motoko::second_pass::{lemma_in_parts, lemma_is_found};
use crate::instrument::motoko::{
    detected, func_edits, rollback_notes, snapshots, trap_notes,
};
use crate::instrument::{CandidateView, EditView, ReplacementView};
use crate::text::{
    byte_at, contains, lemma_line_start, is_ascii_space, is_ident_char, line_before, line_start,
};

verus! {

// ---------- Wrapping ----------

/// The function is one that is wrapped: the actor has its tracer, no trace begins in the body yet,
/// and the function takes the header or may be given it.
pub open spec fn is_wrapped(f: FuncView, a: ActorView) -> bool {
    a.has_tracer && !f.has_begin_trace && (f.header_first || !(f.is_query || f.name
        == "__debug_drain"@))
}

proof fn lemma_wrap_in_parts(f: FuncView, a: ActorView, src: Seq<char>, c: CandidateView)
    requires
        wrap_method(f, a, src) == Some(c) || wrap_method_insert_header(f, a, src) == Some(c),
    ensures
        func_edits(f, a, src).contains(c),
{
    let w = listed(wrap_method(f, a, src));
    let h = listed(wrap_method_insert_header(f, a, src));
    let all = func_edits(f, a, src);
    if wrap_method(f, a, src) == Some(c) {
        assert(w[0] == c);
        assert(all[0] == c);
    } else {
        assert(h[0] == c);
        assert(all[w.len() as int] == c);
    }
}

/// The text that wraps a public function begins the trace from the header, and then records who
/// called: for a function declared `shared` the caller that its message names, and for one that is
/// not the actor itself. The name of the function comes first.
pub proof fn law_wrap_records_the_caller(
    src: Seq<char>,
    path: Seq<char>,
    a: ActorView,
    f: FuncView,
) -> (r: (CandidateView, Seq<EditView>, Seq<char>))
    requires
        actor_of(src) == Some(a),
        a.funcs.contains(f),
        is_wrapped(f, a),
    ensures
        detected(src, path).contains(r.0),
        r.0.replacement == ReplacementView::Multi(r.1),
        r.0.fn_name == f.name,
        r.1.len() >= 2,
        ({
            let lead = "\n"@ + r.2 + "ignore "@ + a.tracer + ".beginTrace(header);\n"@ + r.2;
            &&& f.is_shared ==> r.1[0].text == lead + a.tracer + ".methodEntered(\""@ + f.name
                + "\", msg.caller, []);"@
            &&& !f.is_shared ==> r.1[0].text == lead + a.tracer + ".methodEntered(\""@ + f.name
                + "\", Principal.fromActor(self), []);"@
        }),
        r.1[1].text == "\n"@ + r.2 + a.tracer + ".methodExited(null);"@,
        0 <= f.body_open <= src.len() ==> blank(r.2),
        r.1[0].start == byte_at(src, f.body_open + 1),
        r.1[0].end == byte_at(src, f.body_open + 1),
{
    let inner = indent_at(src, f.body_open) + "  "@;
    if 0 <= f.body_open <= src.len() {
        lemma_indent_blank(src, f.body_open);
    }
    let c = if f.header_first {
        wrap_method(f, a, src)->0
    } else {
        wrap_method_insert_header(f, a, src)->0
    };
    lemma_wrap_in_parts(f, a, src, c);
    lemma_is_found(src, path, a, f, c);
    let es = c.replacement->Multi_0;
    assert(es[0] == wrap_edits(f, a.tracer, src)[0]);
    assert(es[1] == wrap_edits(f, a.tracer, src)[1]);
    lemma_wrap_text(f, a.tracer, src);
    (c, es, inner)
}

proof fn lemma_caller_texts()
    ensures
        "\", msg.caller, []);"@ == "\", "@ + "msg.caller"@ + ", []);"@,
        "\", Principal.fromActor(self), []);"@ == "\", "@ + "Principal.fromActor(self)"@
            + ", []);"@,
{
    reveal_strlit("msg.caller");
    reveal_strlit("Principal.fromActor(self)");
    reveal_strlit("\", ");
    reveal_strlit(", []);");
    reveal_strlit("\", msg.caller, []);");
    reveal_strlit("\", Principal.fromActor(self), []);");
    assert("\", msg.caller, []);"@ =~= "\", "@ + "msg.caller"@ + ", []);"@);
    assert("\", Principal.fromActor(self), []);"@ =~= "\", "@ + "Principal.fromActor(self)"@
        + ", []);"@);
}

proof fn lemma_grouped(h: Seq<char>, x: Seq<char>, y: Seq<char>, z: Seq<char>)
    ensures
        h + x + y + z == h + (x + y + z),
{
    assert(h + x + y + z =~= h + (x + y + z));
}

proof fn lemma_wrap_text(f: FuncView, tracer: Seq<char>, src: Seq<char>) -> (lead: Seq<char>)
    ensures
        wrap_edits(f, tracer, src).len() == 2,
        f.is_shared ==> wrap_edits(f, tracer, src)[0].text == lead + tracer + ".methodEntered(\""@
            + f.name + "\", msg.caller, []);"@,
        !f.is_shared ==> wrap_edits(f, tracer, src)[0].text == lead + tracer + ".methodEntered(\""@
            + f.name + "\", Principal.fromActor(self), []);"@,
        ({
            let gap = indent_at(src, f.body_open) + "  "@;
            &&& lead == "\n"@ + gap + "ignore "@ + tracer + ".beginTrace(header);\n"@ + gap
            &&& wrap_edits(f, tracer, src)[1].text == "\n"@ + gap + tracer
                + ".methodExited(null);"@
        }),
        wrap_edits(f, tracer, src)[0].start == byte_at(src, f.body_open + 1),
        wrap_edits(f, tracer, src)[0].end == byte_at(src, f.body_open + 1),
{
    let inner = indent_at(src, f.body_open) + "  "@;
    let lead = "\n"@ + inner + "ignore "@ + tracer + ".beginTrace(header);\n"@ + inner;
    lemma_caller_texts();
    let head = lead + tracer + ".methodEntered(\""@ + f.name;
    lemma_grouped(head, "\", "@, "msg.caller"@, ", []);"@);
    lemma_grouped(head, "\", "@, "Principal.fromActor(self)"@, ", []);"@);
    lead
}

/// A text of white space alone.
pub open spec fn blank(s: Seq<char>) -> bool {
    forall|i: int| 0 <= i < s.len() ==> #[trigger] s[i] == ' ' || s[i] == '\t'
}

proof fn lemma_blank_end(s: Seq<char>, i: int)
    requires
        0 <= i <= s.len(),
    ensures
        i <= blank_end(s, i) <= s.len(),
        forall|k: int| i <= k < blank_end(s, i) ==> #[trigger] s[k] == ' ' || s[k] == '\t',
    decreases s.len() - i,
{
    if i < s.len() && (s[i] == ' ' || s[i] == '\t') {
        lemma_blank_end(s, i + 1);
    }
}

proof fn lemma_indent_blank(src: Seq<char>, at: int)
    requires
        0 <= at <= src.len(),
    ensures
        blank(indent_at(src, at) + "  "@),
{
    reveal_strlit("  ");
    lemma_line_start(src, at);
    lemma_blank_end(src, line_start(src, at));
    let x = indent_at(src, at);
    assert forall|i: int| 0 <= i < (x + "  "@).len() implies (#[trigger] (x + "  "@)[i]) == ' ' || (
    x + "  "@)[i] == '\t' by {
        if i < x.len() {
            assert((x + "  "@)[i] == x[i]);
        }
    }
}

/// A function that takes no header yet is given it as its first parameter, with a comma where other
/// parameters follow.
pub proof fn law_header_comes_first(
    src: Seq<char>,
    path: Seq<char>,
    a: ActorView,
    f: FuncView,
) -> (r: (CandidateView, Seq<EditView>))
    requires
        actor_of(src) == Some(a),
        a.funcs.contains(f),
        is_wrapped(f, a),
        !f.header_first,
    ensures
        detected(src, path).contains(r.0),
        r.0.replacement == ReplacementView::Multi(r.1),
        r.0.warning is Some,
        r.1.len() == 3,
        r.1[2] == (EditView {
            start: byte_at(src, f.params_open) as int,
            end: byte_at(src, f.params_open) as int,
            text: "header : ?"@ + a.alias + (if f.params_empty {
                ".TraceHeader"@
            } else {
                ".TraceHeader, "@
            }),
        }),
{
    let c = wrap_method_insert_header(f, a, src)->0;
    lemma_wrap_in_parts(f, a, src, c);
    lemma_is_found(src, path, a, f, c);
    reveal_strlit("header : ?");
    reveal_strlit("header : ");
    reveal_strlit("?");
    reveal_strlit(".TraceHeader, ");
    reveal_strlit(".TraceHeader");
    reveal_strlit(", ");
    assert(".TraceHeader, "@ =~= ".TraceHeader"@ + ", "@);
    assert("header : ?"@ =~= "header : "@ + "?"@);
    let es = c.replacement->Multi_0;
    let param = "header : "@ + ("?"@ + a.alias + ".TraceHeader"@);
    assert(param =~= "header : ?"@ + a.alias + ".TraceHeader"@);
    assert(param + ", "@ =~= "header : ?"@ + a.alias + ".TraceHeader, "@);
    (c, es)
}

/// Where no bracket stands behind the last `;` of a body, the call that ends the trace goes directly
/// behind that `;`, so that the value of the body stays its last expression.
pub proof fn law_trace_ends_before_the_value(f: FuncView, src: Seq<char>, k: int)
    requires
        0 <= f.body_open < f.body_close <= src.len(),
        0 <= k < body_of(f, src).len(),
        body_of(f, src)[k] == ';',
        mask(body_of(f, src))[k],
        forall|j: int|
            k < j < body_of(f, src).len() && mask(body_of(f, src))[j] ==> {
                let c = #[trigger] body_of(f, src)[j];
                c != ';' && c != '(' && c != ')' && c != '{' && c != '}' && c != '[' && c != ']'
            },
    ensures
        exit_place(f, src) == f.body_open + 1 + k + 1,
{
    let s = body_of(f, src);
    lemma_last_semi_at(s, mask(s), s.len() as int, k);
}

proof fn lemma_last_semi_at(s: Seq<char>, m: Seq<bool>, i: int, k: int)
    requires
        0 <= k < i <= s.len(),
        s[k] == ';',
        m[k],
        forall|j: int|
            k < j < s.len() && m[j] ==> {
                let c = #[trigger] s[j];
                c != ';' && c != '(' && c != ')' && c != '{' && c != '}' && c != '[' && c != ']'
            },
    ensures
        last_semi(s, m, i, 0) == Some(k),
    decreases i,
{
    if i - 1 > k {
        assert(s[i - 1] == s[i - 1]);
        lemma_last_semi_at(s, m, i - 1, k);
    }
}

proof fn lemma_no_semi(s: Seq<char>, m: Seq<bool>, i: int, depth: int)
    requires
        0 <= i <= s.len(),
        forall|j: int| 0 <= j < s.len() && m[j] ==> #[trigger] s[j] != ';',
    ensures
        last_semi(s, m, i, depth) is None,
    decreases i,
{
    if i > 0 {
        assert(m[i - 1] ==> s[i - 1] != ';');
        lemma_no_semi(s, m, i - 1, depth);
        lemma_no_semi(s, m, i - 1, depth + 1);
        lemma_no_semi(s, m, i - 1, depth - 1);
    }
}

/// Where a body holds no `;`, the call that ends the trace goes first in it.
pub proof fn law_trace_of_a_bare_value_ends_first(f: FuncView, src: Seq<char>)
    requires
        0 <= f.body_open < f.body_close <= src.len(),
        forall|j: int|
            0 <= j < body_of(f, src).len() && mask(body_of(f, src))[j] ==> #[trigger] body_of(
                f,
                src,
            )[j] != ';',
    ensures
        exit_place(f, src) == f.body_open + 1,
{
    let s = body_of(f, src);
    lemma_no_semi(s, mask(s), s.len() as int, 0);
}

/// The call that ends the trace stands behind what begins it.
pub proof fn law_wrap_places(f: FuncView, a: ActorView, src: Seq<char>)
    requires
        is_wrapped(f, a),
    ensures
        f.header_first ==> (wrap_method(f, a, src) matches Some(c) && c.rule is MoWrapMethod
            && c.replacement is Multi && c.replacement->Multi_0.len() == 2
            && c.replacement->Multi_0[1].start == byte_at(src, exit_place(f, src))),
        !f.header_first ==> (wrap_method_insert_header(f, a, src) matches Some(c) && c.rule
            is MoWrapMethodInsertHeader && c.replacement is Multi && c.replacement->Multi_0.len()
            == 3 && c.replacement->Multi_0[1].start == byte_at(src, exit_place(f, src))),
{
}

// ---------- Notes and snapshots ----------

proof fn lemma_in_traps(f: FuncView, tracer: Seq<char>, src: Seq<char>, n: nat, k: int)
    requires
        0 <= k < n <= f.traps.len(),
        trap_note(f, tracer, f.traps[k], src) is Some,
    ensures
        trap_notes(f, tracer, src, n).contains(trap_note(f, tracer, f.traps[k], src)->0),
    decreases n,
{
    let c = trap_note(f, tracer, f.traps[k], src)->0;
    let before = trap_notes(f, tracer, src, (n - 1) as nat);
    let own = listed(trap_note(f, tracer, f.traps[n - 1], src));
    if k < n - 1 {
        lemma_in_traps(f, tracer, src, (n - 1) as nat, k);
        let i = choose|i: int| 0 <= i < before.len() && before[i] == c;
        assert((before + own)[i] == c);
    } else {
        assert((before + own)[before.len() as int] == c);
    }
}

proof fn lemma_in_rollbacks(f: FuncView, tracer: Seq<char>, src: Seq<char>, n: nat, k: int)
    requires
        0 <= k < n <= f.throws.len(),
        rollback_note(f, tracer, f.throws[k], src) is Some,
    ensures
        rollback_notes(f, tracer, src, n).contains(rollback_note(f, tracer, f.throws[k], src)->0),
    decreases n,
{
    let c = rollback_note(f, tracer, f.throws[k], src)->0;
    let before = rollback_notes(f, tracer, src, (n - 1) as nat);
    let own = listed(rollback_note(f, tracer, f.throws[n - 1], src));
    if k < n - 1 {
        lemma_in_rollbacks(f, tracer, src, (n - 1) as nat, k);
        let i = choose|i: int| 0 <= i < before.len() && before[i] == c;
        assert((before + own)[i] == c);
    } else {
        assert((before + own)[before.len() as int] == c);
    }
}

proof fn lemma_in_snapshots(f: FuncView, tracer: Seq<char>, src: Seq<char>, n: nat, k: int)
    requires
        0 <= k < n <= f.writes.len(),
        mutation_snapshot(f, tracer, f.writes[k], src) is Some,
    ensures
        snapshots(f, tracer, src, n).contains(mutation_snapshot(f, tracer, f.writes[k], src)->0),
    decreases n,
{
    let c = mutation_snapshot(f, tracer, f.writes[k], src)->0;
    let before = snapshots(f, tracer, src, (n - 1) as nat);
    let own = listed(mutation_snapshot(f, tracer, f.writes[n - 1], src));
    if k < n - 1 {
        lemma_in_snapshots(f, tracer, src, (n - 1) as nat, k);
        let i = choose|i: int| 0 <= i < before.len() && before[i] == c;
        assert((before + own)[i] == c);
    } else {
        assert((before + own)[before.len() as int] == c);
    }
}

/// Each trap of a traced function is noted on the line above it, unless it is noted there.
pub proof fn law_each_trap_is_noted(
    src: Seq<char>,
    path: Seq<char>,
    a: ActorView,
    f: FuncView,
    k: int,
) -> (c: CandidateView)
    requires
        actor_of(src) == Some(a),
        a.funcs.contains(f),
        f.has_begin_trace,
        0 <= k < f.traps.len(),
        !contains(line_before(src, f.body_open + 1 + f.traps[k]), ":trapped\""@),
    ensures
        detected(src, path).contains(c),
        c.rule is MoTrapNote,
        c.fn_name == f.name,
        c.start == byte_at(src, line_start(src, f.body_open + 1 + f.traps[k])),
        c.end == c.start,
        exists|gap: Seq<char>|
            c.replacement == ReplacementView::InsertRaw(
                #[trigger] (gap + a.tracer + ".note(\""@ + f.name + ":trapped\");\n"@),
            ),
{
    let c = trap_note(f, a.tracer, f.traps[k], src)->0;
    lemma_in_traps(f, a.tracer, src, f.traps.len(), k);
    lemma_in_parts(f, a, src, c);
    lemma_is_found(src, path, a, f, c);
    c
}

/// Each throw of a traced function is noted on the line above it, unless it is noted there.
pub proof fn law_each_throw_is_noted(
    src: Seq<char>,
    path: Seq<char>,
    a: ActorView,
    f: FuncView,
    k: int,
) -> (c: CandidateView)
    requires
        actor_of(src) == Some(a),
        a.funcs.contains(f),
        f.has_begin_trace,
        0 <= k < f.throws.len(),
        !contains(line_before(src, f.body_open + 1 + f.throws[k]), ":rollback\""@),
    ensures
        detected(src, path).contains(c),
        c.rule is MoRollbackNote,
        c.fn_name == f.name,
        c.start == byte_at(src, line_start(src, f.body_open + 1 + f.throws[k])),
        c.end == c.start,
        exists|gap: Seq<char>|
            c.replacement == ReplacementView::InsertRaw(
                #[trigger] (gap + a.tracer + ".note(\""@ + f.name + ":rollback\");\n"@),
            ),
{
    let c = rollback_note(f, a.tracer, f.throws[k], src)->0;
    lemma_in_rollbacks(f, a.tracer, src, f.throws.len(), k);
    lemma_in_parts(f, a, src, c);
    lemma_is_found(src, path, a, f, c);
    c
}

/// Each assignment that is read of a traced function is followed by a snapshot of what it assigns,
/// which goes behind the end of the statement.
pub proof fn law_each_assignment_is_snapshotted(
    src: Seq<char>,
    path: Seq<char>,
    a: ActorView,
    f: FuncView,
    k: int,
) -> (r: (CandidateView, Seq<char>))
    requires
        actor_of(src) == Some(a),
        a.funcs.contains(f),
        f.has_begin_trace,
        0 <= k < f.writes.len(),
    ensures
        detected(src, path).contains(r.0),
        r.0.rule is MoMutationSnapshot,
        r.0.fn_name == f.name,
        r.0.start == byte_at(src, f.body_open + 1 + f.writes[k].end),
        r.0.end == r.0.start,
        r.0.replacement == (ReplacementView::InsertAfterWithKey {
            template: (if f.writes[k].closed {
                "\n"@
            } else {
                ";\n"@
            }) + r.1 + a.tracer + ".snapshotText(\"{KEY}\", debug_show "@ + f.writes[k].name
                + ");"@,
            default_key: f.writes[k].name,
        }),
{
    let c = mutation_snapshot(f, a.tracer, f.writes[k], src)->0;
    lemma_in_snapshots(f, a.tracer, src, f.writes.len(), k);
    let m = snapshots(f, a.tracer, src, f.writes.len());
    let all = func_edits(f, a, src);
    let i = choose|i: int| 0 <= i < m.len() && m[i] == c;
    assert(all[all.len() - m.len() + i] == c);
    lemma_is_found(src, path, a, f, c);
    (c, lead_of(src, f.body_open + 1 + f.writes[k].start))
}

/// The entry of a traced function is noted behind the call of `methodEntered`.
pub proof fn law_entry_is_noted(
    src: Seq<char>,
    path: Seq<char>,
    a: ActorView,
    f: FuncView,
    k: int,
) -> (c: CandidateView)
    requires
        actor_of(src) == Some(a),
        a.funcs.contains(f),
        f.has_method_entered,
        !f.has_entry_note,
        entry_place(body_of(f, src), a.tracer) == Some(k),
    ensures
        detected(src, path).contains(c),
        c.rule is MoEntryNote,
        c.fn_name == f.name,
        c.start == byte_at(src, f.body_open + 1 + k),
        c.end == c.start,
        exists|gap: Seq<char>|
            c.replacement == ReplacementView::InsertRaw(
                #[trigger] (gap + a.tracer + ".note(\""@ + f.name + ":enter\");\n"@),
            ),
{
    let c = entry_note(f, a, src)->0;
    assert(listed(entry_note(f, a, src))[0] == c);
    lemma_in_parts(f, a, src, c);
    lemma_is_found(src, path, a, f, c);
    let gap = indent_at(src, f.body_open) + "  "@;
    assert(c.replacement == ReplacementView::InsertRaw(
        gap + a.tracer + ".note(\""@ + f.name + ":enter\");\n"@,
    ));
    c
}

// ---------- What is read of a function ----------

/// The brackets that close less those that open in code from `i` up to `j`.
pub open spec fn closing(s: Seq<char>, m: Seq<bool>, i: int, j: int) -> int
    decreases j - i,
{
    if i >= j {
        0
    } else {
        closing(s, m, i, j - 1) + (if m[j - 1] && s[j - 1] == ')' {
            1int
        } else if m[j - 1] && s[j - 1] == '(' {
            -1
        } else {
            0
        })
    }
}

proof fn lemma_modified(s: Seq<char>, m: Seq<bool>, w: Seq<char>, p: int, i: int, depth: int)
    requires
        0 <= p < i <= s.len(),
        word_at(s, m, p, w),
        w.len() > 0,
        is_ident_char(w[0]),
        forall|k: int|
            p <= k < i && m[k] ==> is_ascii_space(#[trigger] s[k]) || is_ident_char(s[k]) || s[k]
                == '(' || s[k] == ')' || s[k] == ',',
        depth + closing(s, m, p + 1, i) == 0,
    ensures
        modified_by(s, m, w, i, depth),
    decreases i,
{
    if i - 1 == p {
        assert(s.subrange(p, p + w.len())[0] == s[p]);
        assert(m[p]);
    } else {
        assert(s[i - 1] == s[i - 1]);
        if m[i - 1] && s[i - 1] == ')' {
            lemma_modified(s, m, w, p, i - 1, depth + 1);
        } else if m[i - 1] && s[i - 1] == '(' {
            lemma_modified(s, m, w, p, i - 1, depth - 1);
        } else {
            lemma_modified(s, m, w, p, i - 1, depth);
        }
    }
}

proof fn lemma_not_modified(s: Seq<char>, m: Seq<bool>, w: Seq<char>, i: int, depth: int)
    requires
        forall|p: int| 0 <= p < i ==> !#[trigger] word_at(s, m, p, w),
    ensures
        !modified_by(s, m, w, i, depth),
    decreases i,
{
    if 0 < i <= s.len() {
        lemma_not_modified(s, m, w, i - 1, depth);
        lemma_not_modified(s, m, w, i - 1, depth + 1);
        lemma_not_modified(s, m, w, i - 1, depth - 1);
        assert(!word_at(s, m, i - 1, w));
    }
}

/// The word `w` is one of those that lead to the `func` at `i`: it stands in code at `p`, outside
/// brackets, and between the two there are only words and brackets.
pub open spec fn leads(s: Seq<char>, w: Seq<char>, p: int, i: int) -> bool {
    let m = mask(s);
    &&& 0 <= p < i <= s.len()
    &&& p + w.len() <= s.len()
    &&& s.subrange(p, p + w.len()) == w
    &&& forall|k: int| p <= k < p + w.len() ==> #[trigger] m[k]
    &&& p > 0 ==> !is_ident_char(s[p - 1])
    &&& p + w.len() < s.len() ==> !is_ident_char(s[p + w.len()])
    &&& forall|k: int|
        p <= k < i && m[k] ==> is_ascii_space(#[trigger] s[k]) || is_ident_char(s[k]) || s[k] == '('
            || s[k] == ')' || s[k] == ','
    &&& closing(s, m, p + 1, i) == 0
}

/// A function is shared, and is a query, where the word leads to its `func`, and only where that
/// word stands somewhere before it. Its name is the word behind `func`, and what is read of its
/// body is what stands there.
pub proof fn law_function_is_read(
    s: Seq<char>,
    i: int,
    h: crate::instrument::motoko::funcs::Shape,
    offset: int,
    names: Names,
    p: int,
)
    requires
        shape_at(s, mask(s), i) == Some(h),
    ensures
        ({
            let f = func_view(s, i, h, offset, names);
            &&& leads(s, "shared"@, p, i) ==> f.is_shared
            &&& leads(s, "query"@, p, i) ==> f.is_query
            &&& f.is_shared ==> exists|q: int|
                0 <= q < i && #[trigger] word_at(s, mask(s), q, "shared"@)
            &&& f.is_query ==> exists|q: int|
                0 <= q < i && #[trigger] word_at(s, mask(s), q, "query"@)
            &&& f.name == s.subrange(h.name_start, h.name_end)
            &&& f.body_open == offset + h.body_open
            &&& f.body_close == offset + h.body_close
            &&& f.params_open == offset + h.params_open
            &&& s[h.params_open - 1] == '('
            &&& f.throws == throws(s.subrange(h.body_open + 1, h.body_close))
            &&& f.traps == traps(s.subrange(h.body_open + 1, h.body_close))
            &&& f.writes == writes(s.subrange(h.body_open + 1, h.body_close), names.vars)
        }),
{
    let m = mask(s);
    reveal_strlit("shared");
    reveal_strlit("query");
    if leads(s, "shared"@, p, i) {
        lemma_modified(s, m, "shared"@, p, i, 0);
    }
    if leads(s, "query"@, p, i) {
        lemma_modified(s, m, "query"@, p, i, 0);
    }
    if modified_by(s, m, "shared"@, i, 0) && !(exists|q: int|
        0 <= q < i && #[trigger] word_at(s, m, q, "shared"@)) {
        lemma_not_modified(s, m, "shared"@, i, 0);
    }
    if modified_by(s, m, "query"@, i, 0) && !(exists|q: int|
        0 <= q < i && #[trigger] word_at(s, m, q, "query"@)) {
        lemma_not_modified(s, m, "query"@, i, 0);
    }
}

proof fn lemma_led_by(s: Seq<char>, m: Seq<bool>, w: Seq<char>, i: int, depth: int) -> (q: int)
    requires
        modified_by(s, m, w, i, depth),
    ensures
        0 <= q < i,
        word_at(s, m, q, w),
        depth + closing(s, m, q + 1, i) == 0,
        forall|k: int|
            q <= k < i && m[k] ==> is_ascii_space(#[trigger] s[k]) || is_ident_char(s[k]) || s[k]
                == '(' || s[k] == ')' || s[k] == ',',
    decreases i,
{
    if !m[i - 1] {
        lemma_led_by(s, m, w, i - 1, depth)
    } else if s[i - 1] == ')' {
        lemma_led_by(s, m, w, i - 1, depth + 1)
    } else if s[i - 1] == '(' {
        lemma_led_by(s, m, w, i - 1, depth - 1)
    } else if depth == 0 && word_at(s, m, i - 1, w) {
        i - 1
    } else {
        lemma_led_by(s, m, w, i - 1, depth)
    }
}

/// A word counts as one of those before a `func` only where nothing but words, brackets and white
/// space stands in code between: what ends another function keeps the words before it to that one.
pub proof fn law_words_do_not_carry_over(s: Seq<char>, w: Seq<char>, x: int, i: int)
    requires
        0 <= x < i <= s.len(),
        mask(s)[x],
        s[x] == ';' || s[x] == '}' || s[x] == '{' || s[x] == '=',
        forall|q: int| x < q < i ==> !#[trigger] word_at(s, mask(s), q, w),
    ensures
        !modified_by(s, mask(s), w, i, 0),
{
    if modified_by(s, mask(s), w, i, 0) {
        let q = lemma_led_by(s, mask(s), w, i, 0);
        assert(q <= x);
        assert(s[x] == s[x]);
        assert(!is_ascii_space(s[x]) && !is_ident_char(s[x]));
    }
}

/// A word in brackets does not count as one of those before a `func`.
pub proof fn law_words_in_brackets_do_not_count(s: Seq<char>, w: Seq<char>, i: int)
    requires
        0 <= i <= s.len(),
        forall|q: int|
            0 <= q < i && #[trigger] word_at(s, mask(s), q, w) ==> closing(s, mask(s), q + 1, i)
                != 0,
    ensures
        !modified_by(s, mask(s), w, i, 0),
{
    if modified_by(s, mask(s), w, i, 0) {
        let q = lemma_led_by(s, mask(s), w, i, 0);
        assert(word_at(s, mask(s), q, w));
    }
}

} // verus!
