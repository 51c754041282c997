//! What the rules for Motoko leave alone: functions that are not traced, and
//! what a rule itself put there.

use vstd::prelude::*;
use vstd::string::*;

use crate::instrument::insertion::inserted;
use crate::instrument::motoko::actor::{
    bound_name, let_before, tracer_field, tracer_from, ActorView,
};
use crate::instrument::motoko::body::{
    entry_place, has_entry_note, lines_below, note_behind_entry, snapshot_near, statement_end,
    write_at, StatementEnd,
};
use crate::instrument::motoko::funcs::{after_semis, first_comma, header_first, FuncView};
use crate::instrument::motoko::imports::{blank_end, indent_at};
use crate::instrument::motoko::rules::{
    body_of, bootstrap, entry_note, lead_of, mutation_snapshot, rollback_note,
    statement_close, trap_note, wrap_edits, wrap_method, wrap_method_insert_header,
};
use crate::instrument::motoko::scan::{
    block_end, closes_from, code_end, code_match, find_name, lemma_code_end, lemma_find_name,
    lemma_mask_len, lemma_skip_end, mask, mask_from, matching, name_match, skip_end, skip_gap,
    string_end, word_at,
};
use crate::instrument::motoko::{rollback_notes, snapshots, trap_notes};
use crate::instrument::once::lemma_line_put_above;
use crate::instrument::{CandidateView, EditView, ReplacementView};
use crate::text::{
    back_space, byte_at, contains, find_char, ident_end, is_ident_char, is_space, lemma_find,
    lemma_line_end, lemma_line_start, line_before, line_end, line_start, match_at, replace_from,
    replaced, skip_space, trim, trim_start,
};

verus! {

// ---------- Which rules go before which ----------

/// An actor that has a tracer is not given another; one that has none is only given that, and no
/// function of it is wrapped before.
pub proof fn law_tracer_comes_first(a: ActorView, f: FuncView, src: Seq<char>, path: Seq<char>)
    ensures
        a.has_tracer ==> bootstrap(a, src, path) is None,
        !a.has_tracer ==> wrap_method(f, a, src) is None && wrap_method_insert_header(
            f,
            a,
            src,
        ) is None,
{
}

/// Queries and the drain never gain a parameter.
pub proof fn law_query_and_drain_gain_no_header(f: FuncView, a: ActorView, src: Seq<char>)
    requires
        f.is_query || f.name == "__debug_drain"@,
    ensures
        wrap_method_insert_header(f, a, src) is None,
{
}

/// A function whose body begins a trace is not wrapped again.
pub proof fn law_traced_is_not_wrapped(f: FuncView, a: ActorView, src: Seq<char>)
    requires
        f.has_begin_trace,
    ensures
        wrap_method(f, a, src) is None,
        wrap_method_insert_header(f, a, src) is None,
{
}

/// A function whose body begins no trace gets no note of a trap or a throw, and no snapshot.
pub proof fn law_untraced_body_is_left_alone(f: FuncView, tracer: Seq<char>, src: Seq<char>, n: nat)
    requires
        !f.has_begin_trace,
    ensures
        trap_notes(f, tracer, src, n) == Seq::<CandidateView>::empty(),
        rollback_notes(f, tracer, src, n) == Seq::<CandidateView>::empty(),
        snapshots(f, tracer, src, n) == Seq::<CandidateView>::empty(),
    decreases n,
{
    if n > 0 {
        law_untraced_body_is_left_alone(f, tracer, src, (n - 1) as nat);
        let none = Seq::<CandidateView>::empty();
        assert(none + none =~= none);
    }
}

// ---------- Notes on the line above ----------

/// A text that is found in a part is found in the whole.
proof fn lemma_contains_in(a: Seq<char>, p: Seq<char>, b: Seq<char>)
    ensures
        contains(a + p + b, p),
{
    let s = a + p + b;
    lemma_find(s, p, 0);
    assert(s.subrange(a.len() as int, (a.len() + p.len()) as int) =~= p);
    assert(match_at(s, a.len() as int, p));
}

/// The line that a rule puts above a position.
pub proof fn lemma_above(
    src: Seq<char>,
    place: int,
    tracer: Seq<char>,
    name: Seq<char>,
    label: Seq<char>,
    closing: Seq<char>,
)
    requires
        0 <= place <= src.len(),
        forall|i: int| 0 <= i < tracer.len() ==> #[trigger] tracer[i] != '\n',
        forall|i: int| 0 <= i < name.len() ==> #[trigger] name[i] != '\n',
        forall|i: int| 0 <= i < label.len() ==> #[trigger] label[i] != '\n',
        closing == label + ");\n"@,
    ensures
        ({
            let text = lead_of(src, place) + tracer + ".note(\""@ + name + closing;
            contains(
                line_before(inserted(src, line_start(src, place), text), place + text.len()),
                label,
            )
        }),
{
    reveal_strlit(".note(\"");
    reveal_strlit(");\n");
    reveal_strlit(");");
    let first = lead_of(src, place);
    let front = first + tracer + ".note(\""@ + name;
    let line = front + label + ");"@;
    let text = first + tracer + ".note(\""@ + name + closing;
    lemma_line_start(src, place);
    assert(text =~= line + seq!['\n']);
    let own = src.subrange(line_start(src, place), place);
    assert forall|i: int| 0 <= i < line.len() implies #[trigger] line[i] != '\n' by {
        let a = first.len();
        let b = a + tracer.len();
        let c = b + 7;
        let d = c + name.len();
        let e = d + label.len();
        if i < a {
            crate::instrument::insertion::lemma_skip_grows(own, 0);
            assert(line[i] == own[i]);
            assert(own[i] == src[line_start(src, place) + i]);
        } else if i < b {
            assert(line[i] == tracer[i - a]);
        } else if i < c {
            assert(line[i] == ".note(\""@[i - b]);
        } else if i < d {
            assert(line[i] == name[i - c]);
        } else if i < e {
            assert(line[i] == label[i - d]);
        } else {
            assert(line[i] == ");"@[i - e]);
        }
    }
    lemma_line_put_above(src, place, line);
    lemma_contains_in(front, label, ");"@);
}

/// The name holds no line feed.
pub open spec fn one_line(s: Seq<char>) -> bool {
    forall|i: int| 0 <= i < s.len() ==> #[trigger] s[i] != '\n'
}

/// Once the note of a trap stands on the line above it, as the rule puts it there, no second one
/// is asked for, wherever the function and the trap come to lie.
pub proof fn law_trap_is_noted_once(
    f: FuncView,
    tracer: Seq<char>,
    at: int,
    src: Seq<char>,
    text: Seq<char>,
    g: FuncView,
    to: int,
)
    requires
        0 <= f.body_open + 1 + at <= src.len(),
        one_line(f.name),
        one_line(tracer),
        trap_note(f, tracer, at, src) matches Some(c) && c.replacement
            == ReplacementView::InsertRaw(text),
        g.body_open + to == f.body_open + at + text.len(),
    ensures
        trap_note(
            g,
            tracer,
            to,
            inserted(src, line_start(src, f.body_open + 1 + at), text),
        ) is None,
{
    reveal_strlit(":trapped\"");
    reveal_strlit(":trapped\");\n");
    reveal_strlit(");\n");
    assert(":trapped\");\n"@ =~= ":trapped\""@ + ");\n"@);
    lemma_above(
        src,
        f.body_open + 1 + at,
        tracer,
        f.name,
        ":trapped\""@,
        ":trapped\");\n"@,
    );
}

/// Once the note of a throw stands on the line above it, as the rule puts it there, no second one
/// is asked for, wherever the function and the throw come to lie.
pub proof fn law_throw_is_noted_once(
    f: FuncView,
    tracer: Seq<char>,
    at: int,
    src: Seq<char>,
    text: Seq<char>,
    g: FuncView,
    to: int,
)
    requires
        0 <= f.body_open + 1 + at <= src.len(),
        one_line(f.name),
        one_line(tracer),
        rollback_note(f, tracer, at, src) matches Some(c) && c.replacement
            == ReplacementView::InsertRaw(text),
        g.body_open + to == f.body_open + at + text.len(),
    ensures
        rollback_note(
            g,
            tracer,
            to,
            inserted(src, line_start(src, f.body_open + 1 + at), text),
        ) is None,
{
    reveal_strlit(":rollback\"");
    reveal_strlit(":rollback\");\n");
    reveal_strlit(");\n");
    assert(":rollback\");\n"@ =~= ":rollback\""@ + ");\n"@);
    lemma_above(
        src,
        f.body_open + 1 + at,
        tracer,
        f.name,
        ":rollback\""@,
        ":rollback\");\n"@,
    );
}

// ---------- Code before an insertion stays code ----------

/// The texts agree up to `n`.
pub open spec fn agree(s: Seq<char>, t: Seq<char>, n: int) -> bool {
    &&& n <= s.len()
    &&& n <= t.len()
    &&& forall|x: int| 0 <= x < n ==> s[x] == #[trigger] t[x]
}

proof fn lemma_block_same(s: Seq<char>, t: Seq<char>, i: int, depth: nat, n: int)
    requires
        0 <= i,
        agree(s, t, n),
        block_end(s, i, depth) < n,
    ensures
        block_end(t, i, depth) == block_end(s, i, depth),
        i <= block_end(s, i, depth),
    decreases s.len() - i,
{
    if i < s.len() && depth > 0 {
        lemma_block_grows(s, i, depth);
        assert(i < n);
        assert(s[i] == t[i]);
        if i + 1 < s.len() && s[i] == '/' && s[i + 1] == '*' {
            lemma_block_grows(s, i + 2, depth + 1);
            assert(s[i + 1] == t[i + 1]);
            lemma_block_same(s, t, i + 2, depth + 1, n);
        } else if i + 1 < s.len() && s[i] == '*' && s[i + 1] == '/' {
            lemma_block_grows(s, i + 2, (depth - 1) as nat);
            assert(s[i + 1] == t[i + 1]);
            lemma_block_same(s, t, i + 2, (depth - 1) as nat, n);
        } else {
            lemma_block_grows(s, i + 1, depth);
            assert(i + 1 < n);
            assert(s[i + 1] == t[i + 1]);
            lemma_block_same(s, t, i + 1, depth, n);
        }
    }
}

proof fn lemma_block_grows(s: Seq<char>, i: int, depth: nat)
    requires
        0 <= i,
    ensures
        i <= block_end(s, i, depth),
        i < s.len() && depth > 0 ==> i < block_end(s, i, depth),
    decreases s.len() - i,
{
    if i < s.len() && depth > 0 {
        if i + 1 < s.len() && s[i] == '/' && s[i + 1] == '*' {
            lemma_block_grows(s, i + 2, depth + 1);
        } else if i + 1 < s.len() && s[i] == '*' && s[i + 1] == '/' {
            lemma_block_grows(s, i + 2, (depth - 1) as nat);
        } else {
            lemma_block_grows(s, i + 1, depth);
        }
    }
}

proof fn lemma_string_same(s: Seq<char>, t: Seq<char>, i: int, n: int)
    requires
        0 <= i,
        agree(s, t, n),
        string_end(s, i) < n,
    ensures
        string_end(t, i) == string_end(s, i),
        i <= string_end(s, i),
    decreases s.len() - i,
{
    lemma_string_grows(s, i);
    if i < s.len() {
        assert(s[i] == t[i]);
        if s[i] == '"' {
        } else if s[i] == '\\' && i + 1 < s.len() {
            lemma_string_grows(s, i + 2);
            lemma_string_same(s, t, i + 2, n);
        } else {
            lemma_string_grows(s, i + 1);
            lemma_string_same(s, t, i + 1, n);
        }
    }
}

proof fn lemma_string_grows(s: Seq<char>, i: int)
    requires
        0 <= i,
    ensures
        i <= string_end(s, i),
    decreases s.len() - i,
{
    if i < s.len() {
        if s[i] == '"' {
        } else if s[i] == '\\' && i + 1 < s.len() {
            lemma_string_grows(s, i + 2);
        } else {
            lemma_string_grows(s, i + 1);
        }
    }
}

proof fn lemma_line_end_same(s: Seq<char>, t: Seq<char>, i: int, n: int)
    requires
        0 <= i,
        agree(s, t, n),
        line_end(s, i) < n,
    ensures
        line_end(t, i) == line_end(s, i),
    decreases s.len() - i,
{
    if i < s.len() && s[i] != '\n' {
        lemma_line_end(s, i + 1);
        assert(s[i] == t[i]);
        lemma_line_end_same(s, t, i + 1, n);
    } else {
        assert(s[i] == t[i]);
    }
}

/// What follows `n` makes no comment of a `/` before it.
pub open spec fn starts_plain(t: Seq<char>, n: int) -> bool {
    n < t.len() ==> t[n] != '/' && t[n] != '*'
}

/// A comment or a string literal that ends before `n` is one in every text that agrees up to `n`;
/// so is a character that is none, where it is no `/` that becomes one.
proof fn lemma_skip_end_same(s: Seq<char>, t: Seq<char>, i: int, n: int)
    requires
        0 <= i < n,
        agree(s, t, n),
        skip_end(s, i) matches Some(e) ==> e < n,
        skip_end(s, i) is None && i == n - 1 ==> s[i] != '/' || starts_plain(t, n),
    ensures
        skip_end(t, i) == skip_end(s, i),
{
    assert(s[i] == t[i]);
    if i + 1 < n {
        assert(s[i + 1] == t[i + 1]);
    }
    lemma_skip_end(s, i);
    if i + 1 < s.len() && s[i] == '/' && s[i + 1] == '/' {
        lemma_line_end_same(s, t, i, n);
    } else if i + 1 < s.len() && s[i] == '/' && s[i + 1] == '*' {
        lemma_block_grows(s, i + 2, 1);
        lemma_block_same(s, t, i + 2, 1, n);
    } else if s[i] == '"' {
        lemma_string_same(s, t, i + 1, n);
    }
}

/// What is code before `n`, where code ends at `n` that makes no comment with what follows, is code
/// in every text that agrees up to `n`; and what follows is read as if it stood alone.
pub proof fn lemma_mask_same(s: Seq<char>, t: Seq<char>, i: int, n: int)
    requires
        0 <= i < n,
        agree(s, t, n),
        mask_from(s, i).len() == s.len() - i,
        mask_from(s, i)[n - 1 - i],
        s[n - 1] != '/' || starts_plain(t, n),
    ensures
        mask_from(t, i) == mask_from(s, i).subrange(0, n - i) + mask_from(t, n),
    decreases n - i,
{
    lemma_skip_end(s, i);
    match skip_end(s, i) {
        Some(e) => {
            let front = Seq::new((e - i) as nat, |k: int| false);
            assert(mask_from(s, i) == front + mask_from(s, e));
            assert(e <= n - 1) by {
                if e > n - 1 {
                    assert(front[n - 1 - i] == false);
                    assert(mask_from(s, i)[n - 1 - i] == front[n - 1 - i]);
                }
            }
            lemma_skip_end_same(s, t, i, n);
            assert(mask_from(s, e)[n - 1 - e] == mask_from(s, i)[n - 1 - i]);
            lemma_mask_same(s, t, e, n);
            assert(mask_from(t, i) =~= mask_from(s, i).subrange(0, n - i) + mask_from(t, n));
        },
        None => {
            lemma_skip_end_same(s, t, i, n);
            assert(mask_from(s, i) == seq![true] + mask_from(s, i + 1));
            if i + 1 < n {
                assert(mask_from(s, i + 1)[n - 1 - (i + 1)] == mask_from(s, i)[n - 1 - i]);
                lemma_mask_same(s, t, i + 1, n);
            }
            assert(mask_from(t, i) =~= mask_from(s, i).subrange(0, n - i) + mask_from(t, n));
        },
    }
}

/// Text without `/` and `"` is code, up to its last character.
pub proof fn lemma_plain_is_code(s: Seq<char>, i: int, n: int)
    requires
        0 <= i <= n <= s.len(),
        forall|x: int| i <= x < n ==> #[trigger] s[x] != '/' && s[x] != '"',
    ensures
        mask_from(s, i).len() == s.len() - i,
        forall|k: int| 0 <= k < n - i ==> #[trigger] mask_from(s, i)[k],
    decreases n - i,
{
    if i < n {
        lemma_plain_is_code(s, i + 1, n);
        assert(skip_end(s, i) is None);
        assert(mask_from(s, i) == seq![true] + mask_from(s, i + 1));
        assert forall|k: int| 0 <= k < n - i implies #[trigger] mask_from(s, i)[k] by {
            if k > 0 {
                assert(mask_from(s, i)[k] == mask_from(s, i + 1)[k - 1]);
            }
        }
    } else {
        lemma_mask_rest(s, i);
    }
}

proof fn lemma_mask_rest(s: Seq<char>, i: int)
    requires
        0 <= i <= s.len(),
    ensures
        mask_from(s, i).len() == s.len() - i,
    decreases s.len() - i,
{
    if i < s.len() {
        lemma_skip_end(s, i);
        match skip_end(s, i) {
            Some(e) => lemma_mask_rest(s, e),
            None => lemma_mask_rest(s, i + 1),
        }
    }
}

/// Where `p` stands in code at `k`, it is found from every position at or before `k`.
proof fn lemma_code_is_found(s: Seq<char>, m: Seq<bool>, p: Seq<char>, i: int, k: int)
    requires
        0 <= i <= k,
        p.len() > 0,
        name_match(s, m, k, p),
    ensures
        find_name(s, m, p, i) matches Some(j) && i <= j <= k,
    decreases k - i,
{
    if i < k && !name_match(s, m, i, p) {
        lemma_code_is_found(s, m, p, i + 1, k);
    }
}

/// The characters of a name.
pub open spec fn is_name(s: Seq<char>) -> bool {
    forall|i: int| 0 <= i < s.len() ==> is_ident_char(#[trigger] s[i])
}

pub proof fn lemma_indent(s: Seq<char>, at: int)
    requires
        0 <= at <= s.len(),
    ensures
        forall|i: int|
            0 <= i < indent_at(s, at).len() ==> #[trigger] indent_at(s, at)[i] == ' ' || indent_at(
                s,
                at,
            )[i] == '\t',
{
    lemma_line_start(s, at);
    let ls = line_start(s, at);
    lemma_blank(s, ls);
    assert forall|i: int| 0 <= i < indent_at(s, at).len() implies #[trigger] indent_at(s, at)[i]
        == ' ' || indent_at(s, at)[i] == '\t' by {
        assert(indent_at(s, at)[i] == s[ls + i]);
    }
}

proof fn lemma_blank(s: Seq<char>, i: int)
    requires
        0 <= i <= s.len(),
    ensures
        i <= blank_end(s, i) <= s.len(),
        forall|k: int| i <= k < blank_end(s, i) ==> #[trigger] s[k] == ' ' || s[k] == '\t',
    decreases s.len() - i,
{
    if i < s.len() && (s[i] == ' ' || s[i] == '\t') {
        lemma_blank(s, i + 1);
    }
}

/// A body that begins with what wraps it begins a trace.
pub proof fn law_wrapped_body_is_traced(
    f: FuncView,
    tracer: Seq<char>,
    src: Seq<char>,
    rest: Seq<char>,
)
    requires
        is_name(tracer),
        0 <= f.body_open <= src.len(),
    ensures
        ({
            let body = wrap_edits(f, tracer, src)[0].text + rest;
            find_name(body, mask(body), tracer + ".beginTrace("@, 0) is Some
        }),
{
    reveal_strlit("\n");
    reveal_strlit("  ");
    reveal_strlit("ignore ");
    reveal_strlit(".beginTrace(");
    reveal_strlit(".beginTrace(header);\n");
    let text = wrap_edits(f, tracer, src)[0].text;
    let body = text + rest;
    let indent = indent_at(src, f.body_open);
    lemma_indent(src, f.body_open);
    let inner = indent + "  "@;
    let front = "\n"@ + inner + "ignore "@;
    let p = tracer + ".beginTrace("@;
    let k = front.len() as int;
    let n = (k + p.len()) as int;
    assert forall|x: int| 0 <= x < n implies #[trigger] body[x] != '/' && body[x] != '"' by {
        let a = 1 + indent.len();
        if x < 1 {
            assert(body[x] == "\n"@[x]);
        } else if x < a {
            assert(body[x] == indent[x - 1]);
        } else if x < a + 2 {
            assert(body[x] == "  "@[x - a]);
        } else if x < k {
            assert(body[x] == "ignore "@[x - a - 2]);
        } else if x < k + tracer.len() {
            assert(body[x] == tracer[x - k]);
        } else {
            assert(body[x] == ".beginTrace("@[x - k - tracer.len()]);
        }
    }
    lemma_plain_is_code(body, 0, n);
    assert(body.subrange(k, n) =~= p);
    assert(name_match(body, mask(body), k, p));
    lemma_code_is_found(body, mask(body), p, 0, k);
}

/// A body that begins with the tracer field which the rule puts there has it, under the name
/// `tracer`.
pub proof fn law_bootstrapped_body_has_tracer(
    a: ActorView,
    src: Seq<char>,
    path: Seq<char>,
    edits: Seq<EditView>,
    rest: Seq<char>,
)
    requires
        is_name(a.alias),
        0 <= a.open <= src.len(),
        bootstrap(a, src, path) matches Some(c) && c.replacement == ReplacementView::Multi(edits),
    ensures
        ({
            let edit = if a.has_import {
                edits[0]
            } else {
                edits[1]
            };
            &&& edit.start == byte_at(src, a.open)
            &&& tracer_field(edit.text + rest, a.alias) == Some("tracer"@)
        }),
{
    reveal_strlit("\n");
    reveal_strlit("  ");
    reveal_strlit("transient let tracer = ");
    reveal_strlit(".Tracer(");
    reveal_strlit(".Tracer(Principal.fromActor(self));");
    let edit = if a.has_import {
        edits[0]
    } else {
        edits[1]
    };
    let body = edit.text + rest;
    let indent = indent_at(src, a.open);
    lemma_indent(src, a.open);
    let front = "\n"@ + (indent + "  "@) + "transient let tracer = "@;
    let p = a.alias + ".Tracer("@;
    let k = front.len() as int;
    let n = (k + p.len()) as int;
    assert(edit.text =~= front + a.alias + ".Tracer(Principal.fromActor(self));"@);
    assert forall|x: int| 0 <= x < n implies #[trigger] body[x] != '/' && body[x] != '"' && (x < k
        + a.alias.len() ==> body[x] != '.') by {
        let b = 1 + indent.len();
        if x < 1 {
            assert(body[x] == "\n"@[x]);
        } else if x < b {
            assert(body[x] == indent[x - 1]);
        } else if x < b + 2 {
            assert(body[x] == "  "@[x - b]);
        } else if x < k {
            assert(body[x] == "transient let tracer = "@[x - b - 2]);
        } else if x < k + a.alias.len() {
            assert(body[x] == a.alias[x - k]);
        } else {
            assert(body[x] == ".Tracer("@[x - k - a.alias.len()]);
        }
    }
    lemma_plain_is_code(body, 0, n);
    assert(body.subrange(k, n) =~= p);
    assert(name_match(body, mask(body), k, p));
    lemma_code_is_found(body, mask(body), p, 0, k);
    lemma_find_name(body, mask(body), p, 0);
    let j = find_name(body, mask(body), p, 0)->0;
    if j < k {
        assert(body.subrange(j, j + p.len())[a.alias.len() as int] == body[j + a.alias.len()]);
    }
    lemma_mask_len(body);
    assert(body.subrange(0, k) =~= "\n"@ + (indent + "  "@) + "transient let tracer = "@);
    lemma_front_names_tracer(body, mask(body), "\n"@ + (indent + "  "@), k);
    assert(tracer_from(body, mask(body), p, 0) == Some("tracer"@));
}

proof fn lemma_front_names_tracer(s: Seq<char>, m: Seq<bool>, lead: Seq<char>, k: int)
    requires
        m.len() == s.len(),
        lead.len() > 0,
        is_space(lead[lead.len() - 1]),
        0 < k < s.len(),
        s.subrange(0, k) == lead + "transient let tracer = "@,
        forall|x: int| 0 <= x < k ==> #[trigger] m[x],
    ensures
        bound_name(s, m, k) == Some("tracer"@),
{
    reveal_strlit("transient let tracer = ");
    reveal_strlit("let");
    reveal_strlit("tracer");
    let word = "transient let tracer = "@;
    let n = k - 23;
    assert(s.subrange(0, k).len() == lead.len() + 23);
    assert forall|x: int| 0 <= x < 23 implies #[trigger] s[n + x] == word[x] by {
        assert(s.subrange(0, k)[n + x] == word[x]);
    }
    assert(s[n + 22] == ' ' && s[n + 21] == '=' && s[n + 20] == ' ' && s[n + 19] == 'r');
    assert(s[n + 9] == ' ' && s[n + 10] == 'l' && s[n + 11] == 'e' && s[n + 12] == 't' && s[n + 13]
        == ' ');
    assert(s[n + 14] == 't' && s[n + 15] == 'r' && s[n + 16] == 'a' && s[n + 17] == 'c' && s[n + 18]
        == 'e');
    reveal_with_fuel(code_end, 3);
    let eq = n + 21;
    assert(code_end(s, m, k) == eq + 1);
    assert(s.subrange(n + 10, n + 13) =~= "let"@);
    assert(word_at(s, m, n + 10, "let"@));
    lemma_let_back(s, m, eq, n + 10);
    reveal_with_fuel(skip_gap, 3);
    reveal_with_fuel(ident_end, 8);
    assert(skip_gap(s, m, n + 13) == n + 14);
    assert(ident_end(s, n + 14) == n + 20);
    assert(skip_gap(s, m, n + 20) == eq);
    assert(s.subrange(n + 14, n + 20) =~= "tracer"@);
}

/// Where nothing between ends a statement or begins with `l`, the `let` is found.
proof fn lemma_let_back(s: Seq<char>, m: Seq<bool>, i: int, k: int)
    requires
        0 <= k < i <= s.len(),
        word_at(s, m, k, "let"@),
        forall|x: int|
            k <= x < i ==> #[trigger] s[x] != ';' && s[x] != '{' && s[x] != '}' && s[x] != '=' && (x
                > k ==> s[x] != 'l'),
    ensures
        let_before(s, m, i) == Some(k),
    decreases i - k,
{
    reveal_strlit("let");
    if k < i - 1 {
        if word_at(s, m, i - 1, "let"@) {
            assert(s.subrange(i - 1, i + 2)[0] == s[i - 1]);
        }
        lemma_let_back(s, m, i - 1, k);
    }
}

// ---------- The header parameter ----------

/// Plain text holds neither brackets nor commas.
spec fn is_plain(c: char) -> bool {
    c != '(' && c != ')' && c != '{' && c != '}' && c != '[' && c != ']' && c != ','
}

proof fn lemma_comma_past(s: Seq<char>, m: Seq<bool>, i: int, n: int)
    requires
        0 <= i <= n <= s.len(),
        m.len() == s.len(),
        forall|x: int| i <= x < n ==> is_plain(#[trigger] s[x]),
    ensures
        first_comma(s, m, i, 0, 0, 0) == first_comma(s, m, n, 0, 0, 0),
    decreases n - i,
{
    if i < n {
        lemma_comma_past(s, m, i + 1, n);
    }
}

/// Trimming keeps what begins and ends without white space.
proof fn lemma_trim_keeps(front: Seq<char>, p: Seq<char>, w: Seq<char>)
    requires
        front.len() > 0,
        !is_space(front[0]),
        p.len() > 0,
        !is_space(p[p.len() - 1]),
    ensures
        contains(trim(front + p + w), p),
        trim_start(front + p + w).len() > 0,
{
    let s = front + p + w;
    assert(s[0] == front[0]);
    assert(skip_space(s, 0) == 0);
    assert(trim_start(s) =~= s);
    let n = (front.len() + p.len()) as int;
    assert(s[n - 1] == p[p.len() - 1]);
    lemma_back(s, n, s.len() as int);
    let b = back_space(s, s.len() as int);
    assert(s.subrange(0, b) =~= front + p + s.subrange(n, b));
    lemma_contains_in(front, p, s.subrange(n, b));
}

proof fn lemma_back(s: Seq<char>, n: int, i: int)
    requires
        0 < n <= i <= s.len(),
        !is_space(s[n - 1]),
    ensures
        n <= back_space(s, i) <= i,
    decreases i,
{
    if n < i && is_space(s[i - 1]) {
        lemma_back(s, n, i - 1);
    }
}

/// Parameters that begin with the header parameter which the rule puts there take the header
/// first, so that the function gains no second one.
pub proof fn law_inserted_header_is_seen(
    f: FuncView,
    a: ActorView,
    src: Seq<char>,
    edits: Seq<EditView>,
    params: Seq<char>,
)
    requires
        is_name(a.alias),
        wrap_method_insert_header(f, a, src) matches Some(c) && c.replacement
            == ReplacementView::Multi(edits),
        f.params_empty ==> forall|i: int| 0 <= i < params.len() ==> is_space(#[trigger] params[i]),
    ensures
        edits[2].start == byte_at(src, f.params_open),
        header_first(edits[2].text + params, a.alias),
{
    reveal_strlit("?");
    reveal_strlit(".TraceHeader");
    reveal_strlit("header : ");
    reveal_strlit(", ");
    let form = "?"@ + a.alias + ".TraceHeader"@;
    let front = "header : "@;
    let param = front + form;
    let text = edits[2].text;
    let all = text + params;
    let n = param.len() as int;
    assert forall|x: int| 0 <= x < n implies is_plain(#[trigger] all[x]) && all[x] != '/' && all[x]
        != '"' by {
        if x < 9 {
            assert(all[x] == "header : "@[x]);
        } else if x < 10 {
            assert(all[x] == "?"@[x - 9]);
        } else if x < 10 + a.alias.len() {
            assert(all[x] == a.alias[x - 10]);
        } else {
            assert(all[x] == ".TraceHeader"@[x - 10 - a.alias.len()]);
        }
    }
    lemma_mask_len(all);
    assert(form[form.len() - 1] == 'r');
    if f.params_empty {
        assert(all =~= front + form + params);
        assert forall|x: int| 0 <= x < all.len() implies is_plain(#[trigger] all[x]) by {
            if x >= n {
                assert(all[x] == params[x - n]);
            }
        }
        lemma_comma_past(all, mask(all), 0, all.len() as int);
        assert(all.subrange(0, all.len() as int) =~= all);
        lemma_trim_keeps(front, form, params);
    } else {
        lemma_comma_past(all, mask(all), 0, n);
        assert forall|x: int| 0 <= x <= n implies #[trigger] all[x] != '/' && all[x] != '"' by {
            if x == n {
                assert(all[x] == ", "@[0]);
            }
        }
        lemma_plain_is_code(all, 0, n + 1);
        assert(mask(all)[n]);
        assert(all[n] == ',');
        assert(first_comma(all, mask(all), 0, 0, 0, 0) == n);
        let none = Seq::<char>::empty();
        assert(all.subrange(0, n) =~= front + form + none);
        lemma_trim_keeps(front, form, none);
        lemma_trim_keeps(front, form, ", "@ + params);
        assert(all =~= front + form + (", "@ + params));
    }
}

// ---------- Snapshots ----------

/// A statement that a `;` ends before `n` is one in every text that agrees up to `n`.
proof fn lemma_statement_same(
    s: Seq<char>,
    m: Seq<bool>,
    t: Seq<char>,
    u: Seq<bool>,
    i: int,
    depth: int,
    n: int,
)
    requires
        0 <= i,
        agree(s, t, n),
        m.len() == s.len(),
        u.len() == t.len(),
        forall|x: int| 0 <= x < n ==> m[x] == #[trigger] u[x],
        statement_end(s, m, i, depth) matches Some(e) && e.closed && e.at <= n,
    ensures
        statement_end(t, u, i, depth) == statement_end(s, m, i, depth),
        ({
            let e = statement_end(s, m, i, depth)->0.at;
            i < e && m[e - 1] && s[e - 1] == ';'
        }),
    decreases s.len() - i,
{
    lemma_statement_grows(s, m, i, depth);
    assert(s[i] == t[i]);
    assert(m[i] == u[i]);
    if !m[i] {
        lemma_statement_same(s, m, t, u, i + 1, depth, n);
    } else if s[i] == '(' || s[i] == '{' || s[i] == '[' {
        lemma_statement_same(s, m, t, u, i + 1, depth + 1, n);
    } else if s[i] == ')' || s[i] == '}' || s[i] == ']' {
        lemma_statement_same(s, m, t, u, i + 1, depth - 1, n);
    } else if s[i] == ';' && depth == 0 {
    } else {
        lemma_statement_same(s, m, t, u, i + 1, depth, n);
    }
}

proof fn lemma_statement_grows(s: Seq<char>, m: Seq<bool>, i: int, depth: int)
    ensures
        statement_end(s, m, i, depth) matches Some(e) ==> e.closed ==> 0 <= i < e.at <= s.len()
            && m[e.at - 1] && s[e.at - 1] == ';',
    decreases s.len() - i,
{
    if 0 <= i < s.len() {
        if !m[i] {
            lemma_statement_grows(s, m, i + 1, depth);
        } else if s[i] == '(' || s[i] == '{' || s[i] == '[' {
            lemma_statement_grows(s, m, i + 1, depth + 1);
        } else if s[i] == ')' || s[i] == '}' || s[i] == ']' {
            lemma_statement_grows(s, m, i + 1, depth - 1);
        } else if s[i] == ';' && depth == 0 {
        } else {
            lemma_statement_grows(s, m, i + 1, depth);
        }
    }
}

/// A statement that no `;` ends is ended by one that is put behind it.
proof fn lemma_statement_closed(
    s: Seq<char>,
    m: Seq<bool>,
    t: Seq<char>,
    u: Seq<bool>,
    i: int,
    depth: int,
    n: int,
)
    requires
        0 <= depth,
        0 <= i <= n < t.len(),
        agree(s, t, n),
        m.len() == s.len(),
        u.len() == t.len(),
        forall|x: int| 0 <= x < n ==> m[x] == #[trigger] u[x],
        t[n] == ';',
        u[n],
        statement_end(s, m, i, depth) == Some(StatementEnd { at: n, closed: false }),
    ensures
        statement_end(t, u, i, depth) == Some(StatementEnd { at: n + 1, closed: true }),
    decreases n - i,
{
    if i == n {
        lemma_gap_depth(s, m, n, depth, n);
    } else {
        assert(s[i] == t[i]);
        assert(m[i] == u[i]);
        if !m[i] {
            lemma_statement_closed(s, m, t, u, i + 1, depth, n);
        } else if s[i] == '(' || s[i] == '{' || s[i] == '[' {
            lemma_statement_closed(s, m, t, u, i + 1, depth + 1, n);
        } else if s[i] == ')' || s[i] == '}' || s[i] == ']' {
            if depth > 0 {
                lemma_statement_closed(s, m, t, u, i + 1, depth - 1, n);
            } else {
                lemma_code_end_low(s, m, i);
            }
        } else if s[i] == ';' && depth == 0 {
        } else {
            lemma_statement_closed(s, m, t, u, i + 1, depth, n);
        }
    }
}

proof fn lemma_code_end_low(s: Seq<char>, m: Seq<bool>, n: int)
    requires
        0 <= n <= s.len(),
    ensures
        0 <= code_end(s, m, n) <= n,
        forall|x: int| code_end(s, m, n) <= x < n ==> !m[x] || is_space(#[trigger] s[x]),
    decreases n,
{
    if n > 0 && (!m[n - 1] || is_space(s[n - 1])) {
        lemma_code_end_low(s, m, n - 1);
    }
}

/// Behind the last code of a statement no bracket is open.
proof fn lemma_gap_depth(s: Seq<char>, m: Seq<bool>, i: int, depth: int, n: int)
    requires
        0 <= depth,
        0 <= n <= i <= s.len(),
        m.len() == s.len(),
        statement_end(s, m, i, depth) == Some(StatementEnd { at: n, closed: false }),
    ensures
        depth == 0,
    decreases s.len() - i,
{
    if i < s.len() {
        if !m[i] {
            lemma_gap_depth(s, m, i + 1, depth, n);
        } else if s[i] == '(' || s[i] == '{' || s[i] == '[' {
            lemma_late_end(s, m, i + 1, depth + 1, i + 1);
        } else if s[i] == ')' || s[i] == '}' || s[i] == ']' {
            if depth > 0 {
                lemma_late_end(s, m, i + 1, depth - 1, i + 1);
            }
        } else if s[i] == ';' && depth == 0 {
        } else if is_space(s[i]) {
            lemma_gap_depth(s, m, i + 1, depth, n);
        } else {
            lemma_late_end(s, m, i + 1, depth, i + 1);
        }
    }
}

/// A statement ends in the text, behind code that is no white space.
proof fn lemma_statement_in(s: Seq<char>, m: Seq<bool>, i: int, depth: int)
    requires
        0 < i <= s.len(),
        m.len() == s.len(),
    ensures
        statement_end(s, m, i, depth) matches Some(e) ==> e.at <= s.len() && (e.at > 0 ==> m[e.at
            - 1]),
    decreases s.len() - i,
{
    lemma_code_end_high(s, m, i);
    if i < s.len() {
        if !m[i] {
            lemma_statement_in(s, m, i + 1, depth);
        } else if s[i] == '(' || s[i] == '{' || s[i] == '[' {
            lemma_statement_in(s, m, i + 1, depth + 1);
        } else if s[i] == ')' || s[i] == '}' || s[i] == ']' {
            lemma_statement_in(s, m, i + 1, depth - 1);
        } else if s[i] == ';' && depth == 0 {
        } else {
            lemma_statement_in(s, m, i + 1, depth);
        }
    }
}

proof fn lemma_code_end_high(s: Seq<char>, m: Seq<bool>, n: int)
    requires
        0 <= n <= s.len(),
        m.len() == s.len(),
    ensures
        0 <= code_end(s, m, n) <= n,
        code_end(s, m, n) > 0 ==> m[code_end(s, m, n) - 1],
    decreases n,
{
    if n > 0 && (!m[n - 1] || is_space(s[n - 1])) {
        lemma_code_end_high(s, m, n - 1);
    }
}

/// A statement that has code before `k` ends at or behind `k`.
proof fn lemma_late_end(s: Seq<char>, m: Seq<bool>, i: int, depth: int, k: int)
    requires
        0 < k <= i <= s.len(),
        m.len() == s.len(),
        m[k - 1],
        !is_space(s[k - 1]),
    ensures
        statement_end(s, m, i, depth) matches Some(e) ==> k <= e.at,
    decreases s.len() - i,
{
    lemma_code_end(s, m, i, k);
    if i < s.len() {
        if !m[i] {
            lemma_late_end(s, m, i + 1, depth, k);
        } else if s[i] == '(' || s[i] == '{' || s[i] == '[' {
            lemma_late_end(s, m, i + 1, depth + 1, k);
        } else if s[i] == ')' || s[i] == '}' || s[i] == ']' {
            lemma_late_end(s, m, i + 1, depth - 1, k);
        } else if s[i] == ';' && depth == 0 {
        } else {
            lemma_late_end(s, m, i + 1, depth, k);
        }
    }
}

proof fn lemma_lines_below(s: Seq<char>, i: int, n: nat)
    requires
        0 <= i <= s.len(),
    ensures
        line_end(s, i) <= lines_below(s, i, n) <= s.len(),
    decreases n,
{
    lemma_line_end(s, i);
    if n > 0 && line_end(s, i) < s.len() {
        lemma_lines_below(s, line_end(s, i) + 1, (n - 1) as nat);
        lemma_line_end(s, line_end(s, i) + 1);
    }
}

proof fn lemma_end_past(s: Seq<char>, i: int, n: int)
    requires
        0 <= i <= n <= s.len(),
        forall|x: int| i <= x < n ==> #[trigger] s[x] != '\n',
    ensures
        n <= line_end(s, i),
    decreases n - i,
{
    if i < n {
        lemma_end_past(s, i + 1, n);
    } else {
        lemma_line_end(s, i);
    }
}

proof fn lemma_spaces_only(s: Seq<char>, i: int)
    requires
        0 <= i <= s.len(),
    ensures
        i <= skip_space(s, i) <= s.len(),
        forall|x: int| i <= x < skip_space(s, i) ==> is_space(#[trigger] s[x]),
    decreases s.len() - i,
{
    if i < s.len() && is_space(s[i]) {
        lemma_spaces_only(s, i + 1);
    }
}

pub proof fn lemma_lead(src: Seq<char>, at: int)
    requires
        0 <= at <= src.len(),
    ensures
        forall|i: int|
            0 <= i < lead_of(src, at).len() ==> is_space(#[trigger] lead_of(src, at)[i])
                && lead_of(src, at)[i] != '\n',
{
    lemma_line_start(src, at);
    let own = src.subrange(line_start(src, at), at);
    lemma_spaces_only(own, 0);
    let lead = lead_of(src, at);
    assert forall|i: int| 0 <= i < lead.len() implies is_space(#[trigger] lead[i]) && lead[i]
        != '\n' by {
        assert(lead[i] == own[i]);
        assert(own[i] == src[line_start(src, at) + i]);
    }
}

/// Text without `{` before a part stays as it is when `{KEY}` is filled in.
proof fn lemma_key_behind(front: Seq<char>, rest: Seq<char>, key: Seq<char>, i: int)
    requires
        0 <= i <= front.len(),
        forall|x: int| 0 <= x < front.len() ==> #[trigger] front[x] != '{',
    ensures
        replace_from(front + rest, "{KEY}"@, key, i) == front.subrange(i, front.len() as int)
            + replace_from(front + rest, "{KEY}"@, key, front.len() as int),
    decreases front.len() - i,
{
    reveal_strlit("{KEY}");
    let s = front + rest;
    if i < front.len() {
        lemma_key_behind(front, rest, key, i + 1);
        if match_at(s, i, "{KEY}"@) {
            assert(s.subrange(i, i + 5)[0] == s[i]);
        }
        assert(front.subrange(i, front.len() as int) =~= seq![front[i]] + front.subrange(
            i + 1,
            front.len() as int,
        ));
    } else {
        assert(front.subrange(i, i) =~= Seq::<char>::empty());
    }
}

/// A snapshot that stands behind a statement, on the next line, is seen from there.
proof fn lemma_seen_below(t: Seq<char>, n: int, front: Seq<char>, z: int, at: int)
    requires
        0 <= n,
        n + front.len() <= t.len(),
        forall|x: int| 0 <= x < front.len() ==> t[n + x] == #[trigger] front[x],
        1 <= z <= at,
        front[z - 1] == '\n',
        forall|x: int| z <= x < front.len() ==> #[trigger] front[x] != '\n',
        at + 12 <= front.len(),
        front.subrange(at, at + 12) == "snapshotText"@,
    ensures
        snapshot_near(t, n + z - 1),
{
    reveal_strlit("snapshotText");
    let e = n + z - 1;
    let stop = n + front.len();
    assert(t[n + (z - 1)] == front[z - 1]);
    assert(line_end(t, e) == e);
    assert forall|x: int| e + 1 <= x < stop implies #[trigger] t[x] != '\n' by {
        assert(t[n + (x - n)] == front[x - n]);
    }
    lemma_end_past(t, e + 1, stop);
    lemma_lines_below(t, e + 1, 4);
    let near = t.subrange(e, lines_below(t, e, 5));
    let word = "snapshotText"@;
    let p = at - (z - 1);
    assert forall|x: int| 0 <= x < 12 implies near.subrange(p, p + 12)[x] == word[x] by {
        assert(front.subrange(at, at + 12)[x] == front[at + x]);
        assert(t[n + (at + x)] == front[at + x]);
        assert(near[p + x] == t[e + p + x]);
    }
    assert(near.subrange(p, p + 12) =~= word);
    lemma_find(near, word, 0);
    assert(match_at(near, p, word));
}

/// Once a snapshot stands behind an assignment, as the rule puts it there under any key, no second
/// one is asked for.
pub proof fn law_assignment_is_snapshotted_once(
    f: FuncView,
    tracer: Seq<char>,
    src: Seq<char>,
    body: Seq<char>,
    vars: Seq<Seq<char>>,
    at: int,
    key: Seq<char>,
)
    requires
        is_name(tracer),
        code_match(body, mask(body), at, ":="@),
        write_at(body, mask(body), vars, at) matches Some(w) && 0 <= f.body_open + 1 + w.start
            <= src.len(),
    ensures
        ({
            let w = write_at(body, mask(body), vars, at)->0;
            mutation_snapshot(f, tracer, w, src) matches Some(c) ==> {
                &&& c.replacement matches ReplacementView::InsertAfterWithKey { template, .. }
                &&& write_at(
                    inserted(body, w.end, replaced(template, "{KEY}"@, key)),
                    mask(inserted(body, w.end, replaced(template, "{KEY}"@, key))),
                    vars,
                    at,
                ) is None
            }
        }),
{
    reveal_strlit("\n");
    reveal_strlit(";\n");
    reveal_strlit(":=");
    assert(body.subrange(at, at + 2)[1] == body[at + 1]);
    reveal_strlit("snapshotText");
    reveal_strlit(".snapshotText(\"{KEY}\", debug_show ");
    reveal_strlit("{KEY}");
    let w = write_at(body, mask(body), vars, at)->0;
    if f.has_begin_trace {
        let lead = lead_of(src, f.body_open + 1 + w.start);
        lemma_lead(src, f.body_open + 1 + w.start);
        let close = statement_close(w.closed);
        let z = close.len() as int;
        let template = close + lead + tracer + ".snapshotText(\"{KEY}\", debug_show "@ + w.name
            + ");"@;
        let first = close + lead + tracer;
        let shown = ".snapshotText(\"{KEY}\", debug_show "@;
        let front = first + shown.subrange(0, 15);
        let rest = shown.subrange(15, shown.len() as int) + w.name + ");"@;
        assert(template =~= front + rest);
        assert forall|x: int| 0 <= x < front.len() implies #[trigger] front[x] != '{' && (x >= z
            ==> front[x] != '\n') by {
            let a = z + lead.len();
            if x < z {
                assert(front[x] == close[x]);
            } else if x < a {
                assert(front[x] == lead[x - z]);
            } else if x < first.len() {
                assert(front[x] == tracer[x - a]);
            } else {
                assert(front[x] == shown[x - first.len()]);
            }
        }
        lemma_key_behind(front, rest, key, 0);
        let text = replaced(template, "{KEY}"@, key);
        assert(front.subrange(0, front.len() as int) =~= front);
        let tail = replace_from(template, "{KEY}"@, key, front.len() as int);
        assert(text == front + tail);
        let t = inserted(body, w.end, text);
        let n = w.end;
        lemma_mask_len(body);
        lemma_mask_len(t);
        lemma_statement_grows(body, mask(body), at + 2, 0);
        lemma_late_end(body, mask(body), at + 2, 0, at + 2);
        lemma_statement_in(body, mask(body), at + 2, 0);
        assert(agree(body, t, n));
        assert(t[n] == close[0]);
        lemma_mask_same(body, t, 0, n);
        assert forall|x: int| 0 <= x < n implies mask(body)[x] == #[trigger] mask(t)[x] by {
            assert(mask(body).subrange(0, n)[x] == mask(body)[x]);
        }
        if w.closed {
            lemma_statement_same(body, mask(body), t, mask(t), at + 2, 0, n);
        } else {
            assert(mask_from(t, n)[0]);
            assert(mask(t)[n] == mask_from(t, n)[0]);
            lemma_statement_closed(body, mask(body), t, mask(t), at + 2, 0, n);
        }
        let place = first.len() as int + 1;
        let word = "snapshotText"@;
        assert(shown.subrange(1, 13) =~= word);
        assert(front.subrange(place, place + 12) =~= shown.subrange(1, 13));
        assert(front[z - 1] == close[z - 1]);
        assert forall|x: int| 0 <= x < front.len() implies t[n + x] == #[trigger] front[x] by {
            assert(text[x] == front[x]);
        }
        lemma_seen_below(t, n, front, z, place);
        let e = n + z - 1;
        assert(snapshot_near(t, e));
    }
}

// ---------- The note of the entry ----------

proof fn lemma_quote_found(s: Seq<char>, i: int, k: int)
    requires
        0 <= i <= k < s.len(),
        s[k] == '"',
    ensures
        find_char(s, '"', i) matches Some(j) && i <= j <= k,
    decreases k - i,
{
    if i < k && s[i] != '"' {
        lemma_quote_found(s, i + 1, k);
    }
}

proof fn lemma_no_quote(s: Seq<char>, i: int, k: int)
    requires
        0 <= i <= k < s.len(),
        s[k] == '"',
        forall|x: int| i <= x < k ==> #[trigger] s[x] != '"',
    ensures
        find_char(s, '"', i) == Some(k),
    decreases k - i,
{
    if i < k {
        lemma_no_quote(s, i + 1, k);
    }
}

/// A name that is found before `n` is found in every other text that agrees up to `n`.
proof fn lemma_name_same(
    s: Seq<char>,
    m: Seq<bool>,
    t: Seq<char>,
    l: Seq<bool>,
    p: Seq<char>,
    i: int,
    n: int,
)
    requires
        agree(s, t, n),
        forall|x: int| 0 <= x < n ==> #[trigger] m[x] == l[x],
        find_name(s, m, p, i) matches Some(k) && k + p.len() <= n,
    ensures
        find_name(t, l, p, i) == find_name(s, m, p, i),
    decreases s.len() - i,
{
    lemma_find_name(s, m, p, i);
    let k = find_name(s, m, p, i)->0;
    assert(s.subrange(i, i + p.len()) =~= t.subrange(i, i + p.len()));
    if i > 0 {
        assert(s[i - 1] == t[i - 1]);
    }
    if name_match(s, m, i, p) {
        assert forall|x: int| i <= x < i + p.len() implies #[trigger] l[x] by {
            assert(m[x] == l[x]);
        }
    } else {
        assert(!name_match(t, l, i, p)) by {
            if name_match(t, l, i, p) {
                assert forall|x: int| i <= x < i + p.len() implies #[trigger] m[x] by {
                    assert(m[x] == l[x]);
                }
            }
        }
        lemma_name_same(s, m, t, l, p, i + 1, n);
    }
}

/// A bracket that closes before `n` closes in every other text that agrees up to `n`.
proof fn lemma_closes_same(
    s: Seq<char>,
    m: Seq<bool>,
    t: Seq<char>,
    l: Seq<bool>,
    open: char,
    close: char,
    i: int,
    depth: int,
    n: int,
)
    requires
        0 <= i,
        agree(s, t, n),
        forall|x: int| 0 <= x < n ==> #[trigger] m[x] == l[x],
        closes_from(s, m, open, close, i, depth) matches Some(k) && k < n,
    ensures
        closes_from(t, l, open, close, i, depth) == closes_from(s, m, open, close, i, depth),
    decreases s.len() - i,
{
    lemma_closes(s, m, open, close, i, depth);
    assert(s[i] == t[i] && m[i] == l[i]);
    if m[i] && s[i] == open {
        lemma_closes_same(s, m, t, l, open, close, i + 1, depth + 1, n);
    } else if m[i] && s[i] == close {
        if depth != 1 {
            lemma_closes_same(s, m, t, l, open, close, i + 1, depth - 1, n);
        }
    } else {
        lemma_closes_same(s, m, t, l, open, close, i + 1, depth, n);
    }
}

/// Where blanks are put in at the place of the entry note, with no line feed behind them, that
/// place comes to lie in or behind these blanks.
proof fn lemma_place_in_blanks(body: Seq<char>, t: Seq<char>, tracer: Seq<char>, p: int)
    requires
        entry_place(body, tracer) matches Some(k) && k <= p < t.len() && agree(body, t, k),
        forall|x: int|
            0 <= x < entry_place(body, tracer)->0 ==> #[trigger] mask(body)[x] == mask(t)[x],
        forall|x: int|
            entry_place(body, tracer)->0 <= x < p ==> #[trigger] t[x] == ' ' || t[x] == '\t',
        is_ident_char(t[p]) || t[p] == '.',
    ensures
        entry_place(t, tracer) matches Some(k) && entry_place(body, tracer)->0 <= k <= p,
{
    let m = mask(body);
    let l = mask(t);
    let k = entry_place(body, tracer)->0;
    let pat = tracer + ".methodEntered("@;
    lemma_find_name(body, m, pat, 0);
    let at = find_name(body, m, pat, 0)->0;
    let open = at + pat.len() - 1;
    lemma_closes(body, m, '(', ')', open, 0);
    let close = matching(body, m, '(', ')', open)->0;
    lemma_semis(body, close + 1);
    lemma_name_same(body, m, t, l, pat, 0, k);
    assert(body[open] == t[open]);
    lemma_closes_same(body, m, t, l, '(', ')', open, 0, k);
    let after = after_semis(body, close + 1);
    lemma_semis_stop(body, t, close + 1, after, p);
}

/// Where the run of `;` and spaces ends in a text that agrees up to its old end and goes on with
/// blanks up to `p`.
proof fn lemma_semis_stop(s: Seq<char>, t: Seq<char>, i: int, k: int, p: int)
    requires
        0 <= i <= k,
        k == after_semis(s, i),
        k <= s.len(),
        p < t.len(),
        k < s.len() && s[k] == '\n' ==> k < p && agree(s, t, k + 1),
        k <= p && agree(s, t, k),
        !(k < s.len() && s[k] == '\n') ==> forall|x: int|
            k <= x < p ==> #[trigger] t[x] == ' ' || t[x] == '\t',
        is_ident_char(t[p]) || t[p] == '.',
    ensures
        k <= after_semis(t, i) <= p,
        k < s.len() && s[k] == '\n' ==> after_semis(t, i) == k,
        !(k < s.len() && s[k] == '\n') ==> t[after_semis(t, i)] != '\n',
    decreases p - i,
{
    lemma_semis(s, i);
    if i < k {
        assert(s[i] == t[i]);
        lemma_semis_stop(s, t, i + 1, k, p);
    } else if k < s.len() && s[k] == '\n' {
        assert(s[k] == t[k]);
    } else {
        lemma_blank_semis(t, k, p);
    }
}

proof fn lemma_blank_semis(t: Seq<char>, i: int, p: int)
    requires
        0 <= i <= p < t.len(),
        forall|x: int| i <= x < p ==> #[trigger] t[x] == ' ' || t[x] == '\t',
        is_ident_char(t[p]) || t[p] == '.',
    ensures
        i <= after_semis(t, i) <= p,
        t[after_semis(t, i)] != '\n',
    decreases p - i,
{
    if i < p && t[i] == ' ' {
        lemma_blank_semis(t, i + 1, p);
    }
}

/// Where the note of the entry goes, code ends that is no `/`.
pub proof fn lemma_entry_place(body: Seq<char>, tracer: Seq<char>)
    requires
        entry_place(body, tracer) is Some,
    ensures
        0 < entry_place(body, tracer)->0 <= body.len(),
        mask(body)[entry_place(body, tracer)->0 - 1],
        body[entry_place(body, tracer)->0 - 1] != '/',
{
    let m = mask(body);
    let p = tracer + ".methodEntered("@;
    lemma_mask_len(body);
    let at = find_name(body, m, p, 0)->0;
    lemma_find_name(body, m, p, 0);
    let open = at + p.len() - 1;
    lemma_closes(body, m, '(', ')', open, 0);
    let close = matching(body, m, '(', ')', open)->0;
    lemma_mask_same(body, body, 0, close + 1);
    lemma_semis(body, close + 1);
    let after = after_semis(body, close + 1);
    let k = entry_place(body, tracer)->0;
    assert forall|x: int| close + 1 <= x < k implies #[trigger] body[x] != '/' && body[x]
        != '"' by {
        if x < after {
            assert(body[x] == ';' || body[x] == ' ');
        }
    }
    lemma_plain_is_code(body, close + 1, k);
    if k > close + 1 {
        let head = m.subrange(0, close + 1);
        assert(m == head + mask_from(body, close + 1));
        assert(m[k - 1] == mask_from(body, close + 1)[k - 1 - (close + 1)]);
    }
}

proof fn lemma_closes(
    s: Seq<char>,
    m: Seq<bool>,
    open: char,
    close: char,
    i: int,
    depth: int,
)
    requires
        0 <= i,
    ensures
        closes_from(s, m, open, close, i, depth) matches Some(k) ==> i <= k < s.len() && m[k]
            && s[k] == close,
    decreases s.len() - i,
{
    if i < s.len() {
        if m[i] && s[i] == open {
            lemma_closes(s, m, open, close, i + 1, depth + 1);
        } else if m[i] && s[i] == close {
            if depth != 1 {
                lemma_closes(s, m, open, close, i + 1, depth - 1);
            }
        } else {
            lemma_closes(s, m, open, close, i + 1, depth);
        }
    }
}

proof fn lemma_semis(s: Seq<char>, i: int)
    requires
        0 <= i <= s.len(),
    ensures
        i <= after_semis(s, i) <= s.len(),
        forall|x: int| i <= x < after_semis(s, i) ==> #[trigger] s[x] == ';' || s[x] == ' ',
    decreases s.len() - i,
{
    if i < s.len() && (s[i] == ';' || s[i] == ' ') {
        lemma_semis(s, i + 1);
    }
}

/// Once the entry of a function is noted behind `methodEntered`, as the rule puts it there, no
/// second note is asked for.
pub proof fn law_entry_is_noted_once(
    f: FuncView,
    a: ActorView,
    src: Seq<char>,
    text: Seq<char>,
    body: Seq<char>,
)
    requires
        is_name(a.tracer),
        is_name(f.name),
        0 <= f.body_open <= src.len(),
        entry_note(f, a, src) matches Some(c) && c.replacement == ReplacementView::InsertRaw(text),
        body == inserted(body_of(f, src), entry_place(body_of(f, src), a.tracer)->0, text),
    ensures
        has_entry_note(body, a.tracer),
{
    reveal_strlit("  ");
    reveal_strlit(".note(");
    reveal_strlit(".note(\"");
    reveal_strlit(":enter");
    reveal_strlit(":enter\");\n");
    let old_body = body_of(f, src);
    let k = entry_place(old_body, a.tracer)->0;
    lemma_entry_place(old_body, a.tracer);
    lemma_mask_len(old_body);
    lemma_mask_len(body);
    assert(agree(old_body, body, k));
    lemma_mask_same(old_body, body, 0, k);
    let indent = indent_at(src, f.body_open);
    lemma_indent(src, f.body_open);
    let pat = a.tracer + ".note("@;
    let start = indent.len() as int + 2;
    let p = k + start;
    let n = p + pat.len();
    assert(text == indent + "  "@ + a.tracer + ".note(\""@ + f.name + ":enter\");\n"@);
    assert forall|x: int| k <= x < n implies #[trigger] body[x] != '/' && body[x] != '"' by {
        assert(body[x] == text[x - k]);
        let y = x - k;
        if y < indent.len() {
            assert(text[y] == indent[y]);
        } else if y < start {
            assert(text[y] == "  "@[y - indent.len()]);
        } else if y < start + a.tracer.len() {
            assert(text[y] == a.tracer[y - start]);
            assert(is_ident_char(a.tracer[y - start]));
        } else {
            assert(text[y] == ".note(\""@[y - start - a.tracer.len()]);
        }
    }
    lemma_plain_is_code(body, k, n);
    assert forall|x: int| p <= x < n implies #[trigger] mask(body)[x] by {
        assert(mask(body)[x] == mask_from(body, k)[x - k]);
    }
    assert forall|x: int| 0 <= x < pat.len() implies body.subrange(p, n)[x] == pat[x] by {
        assert(body[p + x] == text[start + x]);
        if x < a.tracer.len() {
            assert(text[start + x] == a.tracer[x]);
        } else {
            assert(text[start + x] == ".note(\""@[x - a.tracer.len()]);
        }
    }
    assert(body.subrange(p, n) =~= pat);
    assert(name_match(body, mask(body), p, pat));
    let e = start + a.tracer.len() + 7 + f.name.len() + 6;
    let end = k + e;
    assert(body[n] == text[start + a.tracer.len() + 6]);
    assert(text[start + a.tracer.len() + 6] == ".note(\""@[6]);
    assert(body[end] == text[e]);
    assert(text[e] == ":enter\");\n"@[6]);
    assert forall|x: int| n < x < end implies #[trigger] body[x] != '"' by {
        let y = x - k;
        assert(body[x] == text[y]);
        let z = start + a.tracer.len() + 7;
        if y < z + f.name.len() {
            assert(text[y] == f.name[y - z]);
            assert(is_ident_char(f.name[y - z]));
        } else {
            assert(text[y] == ":enter\");\n"@[y - z - f.name.len()]);
        }
    }
    let label = body.subrange(n + 1, end);
    let tail = label.subrange(label.len() - 6, label.len() as int);
    assert forall|x: int| 0 <= x < 6 implies tail[x] == ":enter"@[x] by {
        assert(tail[x] == body[end - 6 + x]);
        assert(body[end - 6 + x] == text[e - 6 + x]);
        assert(text[e - 6 + x] == ":enter\");\n"@[x]);
    }
    assert(tail =~= ":enter"@);
    assert(find_char(body, '"', n) == Some(n));
    lemma_no_quote(body, n + 1, end);
    assert forall|x: int| k <= x < p implies #[trigger] body[x] == ' ' || body[x] == '\t' by {
        assert(body[x] == text[x - k]);
        if x - k < indent.len() {
            assert(text[x - k] == indent[x - k]);
        } else {
            assert(text[x - k] == "  "@[x - k - indent.len()]);
        }
    }
    assert(body[p] == text[start]);
    if a.tracer.len() > 0 {
        assert(text[start] == a.tracer[0]);
    } else {
        assert(text[start] == ".note(\""@[0]);
    }
    assert forall|x: int| 0 <= x < k implies #[trigger] mask(old_body)[x] == mask(body)[x] by {
        assert(mask(old_body).subrange(0, k)[x] == mask(old_body)[x]);
        assert(mask(body).subrange(0, k)[x] == mask(body)[x]);
    }
    lemma_place_in_blanks(old_body, body, a.tracer, p);
    let place = entry_place(body, a.tracer)->0;
    lemma_blanks_end(body, place, p);
    assert(note_behind_entry(body, mask(body), a.tracer));
}

proof fn lemma_blanks_end(s: Seq<char>, i: int, p: int)
    requires
        0 <= i <= p < s.len(),
        forall|x: int| i <= x < p ==> #[trigger] s[x] == ' ' || s[x] == '\t',
        is_ident_char(s[p]) || s[p] == '.',
    ensures
        skip_space(s, i) == p,
    decreases p - i,
{
    if i < p {
        lemma_blanks_end(s, i + 1, p);
    }
}

} // verus!
