//! What a second pass over a Motoko file finds once an edit was made.

use vstd::prelude::*;
use vstd::utf8::*;

use crate::instrument::agent_js_rerun::lemma_splice_one;
use crate::instrument::edit::{edits_of, flat_all, flat_of, spliced, FlatView};
use crate::instrument::gather::listed;
use crate::instrument::insertion::inserted;
use crate::instrument::motoko::actor::{
    actor_body, actor_of, bound_name, let_before, tracer_from, ActorView,
};
use crate::instrument::motoko::body::{actor_vars, entry_place, has_entry_note, throws, traps};
use crate::instrument::motoko::funcs::{func_view, public_funcs, shape_at, FuncView, Names, Shape};
use crate::instrument::motoko::grown::{
    alike, complete, grown, lemma_closes_over, lemma_complete_start, lemma_funcs_grow,
    lemma_gap_before, lemma_grown, lemma_ident_before, lemma_shape_order, lemma_shape_over,
    lemma_word_before, moved_func, no_brackets, reads_to, shifted,
};
use crate::instrument::motoko::imports::{
    begins_in_code, import_of, indent_at, names_trace, trace_import,
};
use crate::instrument::motoko::once::{
    is_name, law_entry_is_noted_once, lemma_entry_place, lemma_indent, lemma_plain_is_code,
};
use crate::instrument::motoko::scan::{
    code_char, code_end, find_name, find_word, lemma_find_name, lemma_mask_len, mask, mask_from,
    matching, name_match, skip_end, skip_gap, string_end, word_at,
};
use crate::instrument::motoko::rules::{
    body_of, bootstrap, entry_note, wrap_method, wrap_method_insert_header,
};
use crate::instrument::motoko::{
    detected, found, func_edits, funcs_edits, rollback_notes, snapshots, trap_notes,
};
use crate::instrument::{candidate_key, CandidateView, ReplacementView, Rule};
use crate::order::{law_sorted, lemma_slot, slot, sorted};
use crate::text::{
    byte_at, ident_end, is_ident_char, is_space, lemma_line_end, lemma_line_start, line_before,
    line_end, line_start, line_text, next_line, skip_space,
};

verus! {

// ---------- The import ----------

/// The `Trace` module is imported in one of the lines from `i` on that end before `n`.
pub open spec fn import_before(s: Seq<char>, m: Seq<bool>, i: int, n: int) -> bool
    decreases s.len() - i,
{
    if i < 0 || i >= s.len() {
        false
    } else {
        proof {
            lemma_line_end(s, i);
        }
        line_end(s, i) < n && match import_of(line_text(s, i)) {
            Some(imp) if names_trace(imp.path) && begins_in_code(m, line_text(s, i), i) => true,
            _ => import_before(s, m, next_line(s, i), n),
        }
    }
}

pub proof fn lemma_line_before(s: Seq<char>, t: Seq<char>, q: int, i: int)
    requires
        0 <= i,
        q <= s.len(),
        q <= t.len(),
        forall|x: int| 0 <= x < q ==> #[trigger] t[x] == s[x],
        line_end(s, i) < q,
    ensures
        line_end(t, i) == line_end(s, i),
        i <= line_end(s, i),
    decreases q - i,
{
    if i < s.len() && s[i] != '\n' {
        lemma_line_end(s, i + 1);
        assert(t[i] == s[i]);
        lemma_line_before(s, t, q, i + 1);
    } else if i < q {
        assert(t[i] == s[i]);
    }
}

proof fn lemma_import_stays(
    s: Seq<char>,
    m: Seq<bool>,
    t: Seq<char>,
    l: Seq<bool>,
    q: int,
    n: int,
    i: int,
)
    requires
        grown(s, m, t, l, q, n),
        import_before(s, m, i, q),
    ensures
        trace_import(t, l, i) == trace_import(s, m, i),
    decreases s.len() - i,
{
    lemma_line_end(s, i);
    lemma_line_before(s, t, q, i);
    let e = line_end(s, i);
    let line = line_text(s, i);
    if i < e {
        assert(t[e - 1] == s[e - 1]);
    }
    assert(t.subrange(i, e) =~= s.subrange(i, e));
    if i < e {
        assert(t.subrange(i, e - 1) =~= s.subrange(i, e - 1));
    }
    assert(line_text(t, i) == line);
    let k = skip_space(line, 0);
    if import_of(line) is Some {
        lemma_import_place(line);
        assert(l[i + k] == m[i + k]);
    }
    match import_of(line) {
        Some(imp) if names_trace(imp.path) && begins_in_code(m, line, i) => {},
        _ => {
            lemma_import_stays(s, m, t, l, q, n, next_line(s, i));
        },
    }
}

pub proof fn lemma_import_place(line: Seq<char>)
    requires
        import_of(line) is Some,
    ensures
        0 <= skip_space(line, 0) < line.len(),
{
    reveal_strlit("import ");
    crate::instrument::insertion::lemma_skip_grows(line, 0);
}

// ---------- The tracer ----------

/// The tracer is bound by a call `p` from `i` on that ends before `n`.
pub open spec fn tracer_before(s: Seq<char>, m: Seq<bool>, p: Seq<char>, i: int, n: int) -> bool
    decreases s.len() - i,
{
    match find_name(s, m, p, i) {
        Some(at) => {
            proof {
                lemma_find_name(s, m, p, i);
            }
            at + p.len() <= n && (bound_name(s, m, at) is Some || tracer_before(
                s,
                m,
                p,
                at + 1,
                n,
            ))
        },
        None => false,
    }
}

pub proof fn lemma_name_before(
    s: Seq<char>,
    m: Seq<bool>,
    t: Seq<char>,
    l: Seq<bool>,
    q: int,
    n: int,
    p: Seq<char>,
    i: int,
)
    requires
        grown(s, m, t, l, q, n),
        find_name(s, m, p, i) matches Some(k) && k + p.len() <= q,
    ensures
        find_name(t, l, p, i) == find_name(s, m, p, i),
    decreases s.len() - i,
{
    lemma_find_name(s, m, p, i);
    assert(t.subrange(i, i + p.len()) =~= s.subrange(i, i + p.len()));
    if i > 0 {
        assert(t[i - 1] == s[i - 1]);
    }
    if name_match(s, m, i, p) {
        assert forall|x: int| i <= x < i + p.len() implies #[trigger] l[x] by {
            assert(l[x] == m[x]);
            assert(m[x]);
        }
    } else {
        assert(!name_match(t, l, i, p)) by {
            if name_match(t, l, i, p) {
                assert forall|x: int| i <= x < i + p.len() implies #[trigger] m[x] by {
                    assert(l[x] == m[x]);
                }
            }
        }
        lemma_name_before(s, m, t, l, q, n, p, i + 1);
    }
}

proof fn lemma_code_end_before(
    s: Seq<char>,
    m: Seq<bool>,
    t: Seq<char>,
    l: Seq<bool>,
    q: int,
    n: int,
    i: int,
)
    requires
        grown(s, m, t, l, q, n),
        0 <= i <= q,
    ensures
        code_end(t, l, i) == code_end(s, m, i),
        0 <= code_end(s, m, i) <= i,
        code_end(s, m, i) > 0 ==> m[code_end(s, m, i) - 1] && !is_space(
            s[code_end(s, m, i) - 1],
        ),
    decreases i,
{
    if i > 0 {
        assert(t[i - 1] == s[i - 1] && l[i - 1] == m[i - 1]);
        if !m[i - 1] || is_space(s[i - 1]) {
            lemma_code_end_before(s, m, t, l, q, n, i - 1);
        }
    }
}

proof fn lemma_let_before(
    s: Seq<char>,
    m: Seq<bool>,
    t: Seq<char>,
    l: Seq<bool>,
    q: int,
    n: int,
    i: int,
)
    requires
        grown(s, m, t, l, q, n),
        i + 3 <= q,
    ensures
        let_before(t, l, i) == let_before(s, m, i),
        let_before(s, m, i) matches Some(k) ==> 0 <= k < i && word_at(s, m, k, "let"@),
    decreases i,
{
    reveal_strlit("let");
    if i > 0 {
        assert(t[i - 1] == s[i - 1] && l[i - 1] == m[i - 1]);
        lemma_word_before(s, m, t, l, q, n, i - 1, "let"@);
        lemma_let_before(s, m, t, l, q, n, i - 1);
    }
}

proof fn lemma_gap_stops(s: Seq<char>, m: Seq<bool>, i: int, e: int)
    requires
        0 <= i <= e < s.len(),
        m[e],
        !crate::text::is_ascii_space(s[e]),
    ensures
        i <= skip_gap(s, m, i) <= e,
    decreases e - i,
{
    if i < e && (!m[i] || crate::text::is_ascii_space(s[i])) {
        lemma_gap_stops(s, m, i + 1, e);
    }
}

proof fn lemma_ident_stops(s: Seq<char>, i: int, e: int)
    requires
        0 <= i <= e < s.len(),
        !is_ident_char(s[e]),
    ensures
        i <= ident_end(s, i) <= e,
        forall|x: int| i <= x < ident_end(s, i) ==> is_ident_char(#[trigger] s[x]),
    decreases e - i,
{
    if i < e && is_ident_char(s[i]) {
        lemma_ident_stops(s, i + 1, e);
    }
}

pub proof fn lemma_bound_before(
    s: Seq<char>,
    m: Seq<bool>,
    t: Seq<char>,
    l: Seq<bool>,
    q: int,
    n: int,
    at: int,
)
    requires
        grown(s, m, t, l, q, n),
        0 <= at,
        at + 3 <= q,
    ensures
        bound_name(t, l, at) == bound_name(s, m, at),
        bound_name(s, m, at) matches Some(name) ==> name.len() > 0 && forall|x: int|
            0 <= x < name.len() ==> is_ident_char(#[trigger] name[x]),
{
    reveal_strlit("let");
    lemma_code_end_before(s, m, t, l, q, n, at);
    let eq = code_end(s, m, at) - 1;
    if eq >= 0 && s[eq] == '=' {
        assert(t[eq] == s[eq]);
        lemma_let_before(s, m, t, l, q, n, eq);
        if let Some(k) = let_before(s, m, eq) {
            let w = s.subrange(k, k + 3);
            assert(k + 3 <= eq) by {
                if eq < k + 3 {
                    assert(w[eq - k] == s[eq]);
                }
            }
            lemma_gap_stops(s, m, k + 3, eq);
            let a = skip_gap(s, m, k + 3);
            lemma_gap_before(s, m, t, l, q, n, k + 3);
            lemma_ident_stops(s, a, eq);
            lemma_ident_before(s, t, q, a);
            let b = ident_end(s, a);
            lemma_gap_stops(s, m, b, eq);
            lemma_gap_before(s, m, t, l, q, n, b);
            let p = skip_gap(s, m, b);
            assert(t[p] == s[p]);
            assert(t.subrange(a, b) =~= s.subrange(a, b));
            assert forall|x: int| 0 <= x < b - a implies is_ident_char(
                #[trigger] s.subrange(a, b)[x],
            ) by {
                assert(is_ident_char(s[a + x]));
            }
        }
    }
}

proof fn lemma_tracer_stays(
    s: Seq<char>,
    m: Seq<bool>,
    t: Seq<char>,
    l: Seq<bool>,
    q: int,
    n: int,
    p: Seq<char>,
    i: int,
)
    requires
        grown(s, m, t, l, q, n),
        p.len() >= 3,
        tracer_before(s, m, p, i, q),
    ensures
        tracer_from(t, l, p, i) == tracer_from(s, m, p, i),
        tracer_from(s, m, p, i) matches Some(name) && name.len() > 0 && forall|x: int|
            0 <= x < name.len() ==> is_ident_char(#[trigger] name[x]),
    decreases s.len() - i,
{
    lemma_find_name(s, m, p, i);
    lemma_name_before(s, m, t, l, q, n, p, i);
    let at = find_name(s, m, p, i)->0;
    lemma_bound_before(s, m, t, l, q, n, at);
    if bound_name(s, m, at) is None {
        lemma_tracer_stays(s, m, t, l, q, n, p, at + 1);
    }
}

// ---------- The actor ----------

proof fn lemma_find_word_before(
    s: Seq<char>,
    m: Seq<bool>,
    t: Seq<char>,
    l: Seq<bool>,
    q: int,
    n: int,
    w: Seq<char>,
    i: int,
)
    requires
        grown(s, m, t, l, q, n),
        find_word(s, m, w, i) matches Some(k) && k + w.len() < q,
    ensures
        find_word(t, l, w, i) == find_word(s, m, w, i),
        0 <= i <= find_word(s, m, w, i)->0,
    decreases s.len() - i,
{
    if !word_at(s, m, i, w) {
        lemma_find_word_before(s, m, t, l, q, n, w, i + 1);
        lemma_word_before(s, m, t, l, q, n, i, w);
    } else {
        lemma_word_before(s, m, t, l, q, n, i, w);
    }
}

proof fn lemma_code_char_before(
    s: Seq<char>,
    m: Seq<bool>,
    t: Seq<char>,
    l: Seq<bool>,
    q: int,
    n: int,
    c: char,
    i: int,
)
    requires
        grown(s, m, t, l, q, n),
        code_char(s, m, c, i) matches Some(k) && k < q,
    ensures
        code_char(t, l, c, i) == code_char(s, m, c, i),
        0 <= i <= code_char(s, m, c, i)->0,
        m[code_char(s, m, c, i)->0],
        s[code_char(s, m, c, i)->0] == c,
    decreases s.len() - i,
{
    if m[i] && s[i] == c {
        assert(t[i] == s[i] && l[i] == m[i]);
    } else {
        lemma_code_char_before(s, m, t, l, q, n, c, i + 1);
        assert(t[i] == s[i] && l[i] == m[i]);
    }
}

/// The inside of the actor.
pub open spec fn inside(src: Seq<char>, a: ActorView) -> Seq<char> {
    src.subrange(a.open, a.close)
}

/// The function whose keyword stands at `at` in the actor is read, and so are what it goes by: each
/// public function before it has a body, the module is imported before the actor, and the tracer
/// is bound before the function.
#[verifier::opaque]
pub open spec fn is_read(src: Seq<char>, a: ActorView, at: int) -> bool {
    let b = inside(src, a);
    &&& actor_of(src) == Some(a)
    &&& reads_to(b, mask(b), 0, at)
    &&& import_before(src, mask(src), 0, a.open)
    &&& shape_at(b, mask(b), at) is Some
    &&& tracer_before(b, mask(b), a.alias + ".Tracer("@, 0, at)
}

/// What the search for functions goes by.
pub open spec fn names_in(src: Seq<char>, a: ActorView) -> Names {
    Names { alias: a.alias, tracer: a.tracer, vars: actor_vars(inside(src, a)) }
}

/// The function whose keyword stands at `at` in the actor.
pub open spec fn function(src: Seq<char>, a: ActorView, at: int) -> FuncView {
    let b = inside(src, a);
    func_view(b, at, shape_at(b, mask(b), at)->0, a.open, names_in(src, a))
}

/// The text holds no brace in code.
pub open spec fn no_braces(x: Seq<char>) -> bool {
    forall|k: int| 0 <= k < x.len() && mask(x)[k] ==> #[trigger] x[k] != '{' && x[k] != '}'
}

/// Where the body of the function can take a text: behind code.
pub open spec fn takes_at(src: Seq<char>, a: ActorView, at: int, q: int) -> bool {
    let b = inside(src, a);
    let h = shape_at(b, mask(b), at)->0;
    &&& h.body_open < q <= h.body_close
    &&& mask(b)[q - 1]
    &&& b[q - 1] != '/'
}

/// Where the function, from its parameters on, can take a text: behind code.
pub open spec fn holds_at(src: Seq<char>, a: ActorView, at: int, q: int) -> bool {
    let b = inside(src, a);
    let h = shape_at(b, mask(b), at)->0;
    &&& h.params_open <= q <= h.body_close
    &&& mask(b)[q - 1]
    &&& b[q - 1] != '/'
}

pub proof fn lemma_holds_at(src: Seq<char>, a: ActorView, at: int, q: int)
    requires
        is_read(src, a, at),
        takes_at(src, a, at, q),
    ensures
        holds_at(src, a, at, q),
{
    lemma_read(src, a, at);
    let b = inside(src, a);
    lemma_mask_len(b);
    lemma_shape_order(b, mask(b), at);
}

/// The inside of an actor is read as if it stood alone, up to where code ends.
pub proof fn lemma_inside(src: Seq<char>, open: int, close: int, q: int)
    requires
        0 < open <= close <= src.len(),
        mask(src)[open - 1],
        src[open - 1] != '/',
        0 < q <= close - open,
        mask(src.subrange(open, close))[q - 1],
        src.subrange(open, close)[q - 1] != '/',
    ensures
        mask(src)[open + q - 1],
{
    let b = src.subrange(open, close);
    let rest = src.subrange(open, src.len() as int);
    lemma_complete_start(src, open);
    lemma_complete_start(b, q);
    let head = b.subrange(0, q);
    let tail = rest.subrange(q, rest.len() as int);
    assert(rest =~= head + tail);
    crate::instrument::motoko::grown::lemma_complete(head, tail);
    lemma_mask_len(head);
    lemma_mask_len(b);
    lemma_mask_len(src.subrange(0, open));
    assert(mask(head)[q - 1]);
    assert(mask(rest)[q - 1] == mask(head)[q - 1]);
    assert(mask(src)[open + q - 1] == mask(rest)[q - 1]);
}

pub proof fn lemma_actor_body(src: Seq<char>)
    ensures
        actor_body(src) matches Some((open, close)) ==> 5 < open <= close < src.len() && mask(
            src,
        )[open - 1] && src[open - 1] == '{',
{
    reveal_strlit("actor");
    let m = mask(src);
    lemma_mask_len(src);
    if actor_body(src) is Some {
        let w = find_word(src, m, "actor"@, 0)->0;
        lemma_find_word_in(src, m, "actor"@, 0);
        lemma_code_char_in(src, m, '{', w + 5);
        let open = code_char(src, m, '{', w + 5)->0;
        crate::instrument::motoko::grown::lemma_closes_in(src, m, '{', '}', open, 0);
        let close = matching(src, m, '{', '}', open)->0;
        assert(open != close);
    }
}

proof fn lemma_code_char_in(s: Seq<char>, m: Seq<bool>, c: char, i: int)
    ensures
        code_char(s, m, c, i) matches Some(k) ==> 0 <= i <= k < s.len() && m[k] && s[k] == c,
    decreases s.len() - i,
{
    if 0 <= i < s.len() && !(m[i] && s[i] == c) {
        lemma_code_char_in(s, m, c, i + 1);
    }
}

proof fn lemma_find_word_in(s: Seq<char>, m: Seq<bool>, w: Seq<char>, i: int)
    ensures
        find_word(s, m, w, i) matches Some(k) ==> 0 <= i <= k,
    decreases s.len() - i,
{
    if 0 <= i < s.len() && !word_at(s, m, i, w) {
        lemma_find_word_in(s, m, w, i + 1);
    }
}

/// Once a text is put into a function, the actor is read as before but for what the text adds.
pub proof fn lemma_actor_grows(src: Seq<char>, a: ActorView, at: int, q: int, x: Seq<char>)
    requires
        is_read(src, a, at),
        holds_at(src, a, at, q),
        complete(x),
        no_braces(x),
    ensures
        ({
            let t = inserted(src, a.open + q, x);
            let b = inserted(inside(src, a), q, x);
            &&& actor_of(t) matches Some(c) && c.open == a.open && c.close == a.close + x.len()
                && c.alias == a.alias && c.tracer == a.tracer && c.has_tracer && inside(t, c) == b
                && c.funcs == public_funcs(b, a.open, names_in(t, c))
            &&& a.has_tracer
            &&& a.tracer.len() > 0
            &&& forall|k: int| 0 <= k < a.tracer.len() ==> is_ident_char(#[trigger] a.tracer[k])
            &&& grown(inside(src, a), mask(inside(src, a)), b, mask(b), q, x.len() as int)
        }),
        actor_of(src) == Some(a),
        reads_to(inside(src, a), mask(inside(src, a)), 0, at),
        shape_at(inside(src, a), mask(inside(src, a)), at) is Some,
        a.funcs == public_funcs(inside(src, a), a.open, names_in(src, a)),
        0 < a.open <= a.close < src.len(),
{
    reveal(is_read);
    reveal_strlit("actor");
    reveal_strlit(".Tracer(");
    let m = mask(src);
    let b = inside(src, a);
    let h = shape_at(b, mask(b), at)->0;
    let n = x.len() as int;
    let t = inserted(src, a.open + q, x);
    let l = mask(t);
    lemma_mask_len(b);
    lemma_actor_body(src);
    lemma_shape_order(b, mask(b), at);
    lemma_inside(src, a.open, a.close, q);
    assert(src[a.open + q - 1] == b[q - 1]);
    lemma_grown(src, a.open + q, x);
    lemma_grown(b, q, x);
    let big = a.open + q;
    let w = find_word(src, m, "actor"@, 0)->0;
    lemma_find_word_in(src, m, "actor"@, 0);
    lemma_code_char_in(src, m, '{', w + 5);
    lemma_find_word_before(src, m, t, l, big, n, "actor"@, 0);
    lemma_code_char_before(src, m, t, l, big, n, '{', w + 5);
    assert(t[a.open - 1] == src[a.open - 1]);
    assert(no_brackets(t, l, big, n, '{', '}')) by {
        assert forall|k: int| big <= k < big + n && l[k] implies #[trigger] t[k] != '{' && t[k]
            != '}' by {
            assert(t[k] == x[k - big]);
            assert(l[k] == mask(x)[k - big]);
        }
    }
    lemma_closes_over(src, m, t, l, big, n, '{', '}', a.open - 1, 0);
    let grew = inserted(b, q, x);
    assert(t.subrange(a.open, a.close + n) =~= grew);
    lemma_import_later(src, m, 0, a.open, big);
    lemma_import_stays(src, m, t, l, big, n, 0);
    let p = a.alias + ".Tracer("@;
    lemma_tracer_later(b, mask(b), p, 0, at, q);
    lemma_tracer_stays(b, mask(b), grew, mask(grew), q, n, p, 0);
}

proof fn lemma_import_later(s: Seq<char>, m: Seq<bool>, i: int, n: int, k: int)
    requires
        import_before(s, m, i, n),
        n <= k,
    ensures
        import_before(s, m, i, k),
    decreases s.len() - i,
{
    lemma_line_end(s, i);
    match import_of(line_text(s, i)) {
        Some(imp) if names_trace(imp.path) && begins_in_code(m, line_text(s, i), i) => {},
        _ => {
            lemma_import_later(s, m, next_line(s, i), n, k);
        },
    }
}

proof fn lemma_tracer_later(s: Seq<char>, m: Seq<bool>, p: Seq<char>, i: int, n: int, k: int)
    requires
        tracer_before(s, m, p, i, n),
        n <= k,
    ensures
        tracer_before(s, m, p, i, k),
    decreases s.len() - i,
{
    lemma_find_name(s, m, p, i);
    let at = find_name(s, m, p, i)->0;
    if bound_name(s, m, at) is None {
        lemma_tracer_later(s, m, p, at + 1, n, k);
    }
}

// ---------- Counting ----------

/// How many items are such.
pub open spec fn tally<A>(xs: Seq<A>, p: spec_fn(A) -> bool) -> nat
    decreases xs.len(),
{
    if xs.len() == 0 {
        0
    } else {
        tally(xs.drop_last(), p) + if p(xs.last()) {
            1nat
        } else {
            0nat
        }
    }
}

pub proof fn lemma_tally_add<A>(x: Seq<A>, y: Seq<A>, p: spec_fn(A) -> bool)
    ensures
        tally(x + y, p) == tally(x, p) + tally(y, p),
    decreases y.len(),
{
    if y.len() == 0 {
        assert(x + y =~= x);
    } else {
        assert((x + y).drop_last() =~= x + y.drop_last());
        assert((x + y).last() == y.last());
        lemma_tally_add(x, y.drop_last(), p);
    }
}

pub proof fn lemma_tally_one<A>(e: A, p: spec_fn(A) -> bool)
    ensures
        tally(seq![e], p) == if p(e) {
            1nat
        } else {
            0nat
        },
{
    assert(seq![e].drop_last() =~= Seq::<A>::empty());
    assert(seq![e].last() == e);
    assert(tally(Seq::<A>::empty(), p) == 0);
}

proof fn lemma_tally_sorted<A>(es: Seq<A>, key: spec_fn(A) -> int, p: spec_fn(A) -> bool, n: nat)
    requires
        n <= es.len(),
    ensures
        tally(sorted(es, key, n), p) == tally(es.subrange(0, n as int), p),
    decreases n,
{
    if n > 0 {
        let m = (n - 1) as nat;
        let e = es[n - 1];
        let t = sorted(es, key, m);
        let at = slot(t, key, key(e), t.len() as int);
        lemma_slot(t, key, key(e), t.len() as int);
        lemma_tally_sorted(es, key, p, m);
        let x = t.subrange(0, at);
        let y = t.subrange(at, t.len() as int);
        assert(t.insert(at, e) =~= x + seq![e] + y);
        assert(t =~= x + y);
        lemma_tally_add(x + seq![e], y, p);
        lemma_tally_add(x, seq![e], p);
        lemma_tally_add(x, y, p);
        let before = es.subrange(0, m as int);
        assert(es.subrange(0, n as int) =~= before + seq![e]);
        lemma_tally_add(before, seq![e], p);
    } else {
        assert(es.subrange(0, 0) =~= Seq::<A>::empty());
    }
}

/// The candidate is of the rule and for the function.
pub open spec fn is_for(rule: Rule, name: Seq<char>) -> spec_fn(CandidateView) -> bool {
    |c: CandidateView| c.rule == rule && c.fn_name == name
}

/// How often a pass asks for an edit of the rule in the function.
#[verifier::opaque]
pub open spec fn asks(src: Seq<char>, path: Seq<char>, rule: Rule, name: Seq<char>) -> nat {
    tally(detected(src, path), is_for(rule, name))
}

/// All candidates are of the rule and for the function.
spec fn all_for(cs: Seq<CandidateView>, rule: Rule, name: Seq<char>) -> bool {
    forall|i: int| 0 <= i < cs.len() ==> (#[trigger] cs[i]).rule == rule && cs[i].fn_name == name
}

proof fn lemma_all_for(
    cs: Seq<CandidateView>,
    own: Rule,
    fn_name: Seq<char>,
    rule: Rule,
    name: Seq<char>,
)
    requires
        all_for(cs, own, fn_name),
    ensures
        tally(cs, is_for(rule, name)) == if own == rule && fn_name == name {
            cs.len()
        } else {
            0
        },
    decreases cs.len(),
{
    if cs.len() > 0 {
        assert(cs[cs.len() - 1].rule == own);
        lemma_all_for(cs.drop_last(), own, fn_name, rule, name);
    }
}

proof fn lemma_traps_for(f: FuncView, tracer: Seq<char>, src: Seq<char>, n: nat)
    ensures
        all_for(trap_notes(f, tracer, src, n), Rule::MoTrapNote, f.name),
    decreases n,
{
    if n > 0 {
        lemma_traps_for(f, tracer, src, (n - 1) as nat);
    }
}

proof fn lemma_throws_for(f: FuncView, tracer: Seq<char>, src: Seq<char>, n: nat)
    ensures
        all_for(rollback_notes(f, tracer, src, n), Rule::MoRollbackNote, f.name),
    decreases n,
{
    if n > 0 {
        lemma_throws_for(f, tracer, src, (n - 1) as nat);
    }
}

proof fn lemma_writes_for(f: FuncView, tracer: Seq<char>, src: Seq<char>, n: nat)
    ensures
        all_for(snapshots(f, tracer, src, n), Rule::MoMutationSnapshot, f.name),
    decreases n,
{
    if n > 0 {
        lemma_writes_for(f, tracer, src, (n - 1) as nat);
    }
}

/// What a function asks for, rule by rule.
pub proof fn lemma_func_asks(f: FuncView, a: ActorView, src: Seq<char>, rule: Rule, name: Seq<char>)
    ensures
        tally(func_edits(f, a, src), is_for(rule, name)) == if f.name != name {
            0
        } else {
            match rule {
                Rule::MoWrapMethod => listed(wrap_method(f, a, src)).len(),
                Rule::MoWrapMethodInsertHeader => listed(
                    wrap_method_insert_header(f, a, src),
                ).len(),
                Rule::MoEntryNote => listed(entry_note(f, a, src)).len(),
                Rule::MoTrapNote => trap_notes(f, a.tracer, src, f.traps.len()).len(),
                Rule::MoRollbackNote => rollback_notes(f, a.tracer, src, f.throws.len()).len(),
                Rule::MoMutationSnapshot => snapshots(f, a.tracer, src, f.writes.len()).len(),
                _ => 0,
            }
        },
{
    let p = is_for(rule, name);
    let w = listed(wrap_method(f, a, src));
    let v = listed(wrap_method_insert_header(f, a, src));
    let e = listed(entry_note(f, a, src));
    let t = trap_notes(f, a.tracer, src, f.traps.len());
    let r = rollback_notes(f, a.tracer, src, f.throws.len());
    let m = snapshots(f, a.tracer, src, f.writes.len());
    lemma_tally_add(w + v + e + t + r, m, p);
    lemma_tally_add(w + v + e + t, r, p);
    lemma_tally_add(w + v + e, t, p);
    lemma_tally_add(w + v, e, p);
    lemma_tally_add(w, v, p);
    lemma_all_for(w, Rule::MoWrapMethod, f.name, rule, name);
    lemma_all_for(v, Rule::MoWrapMethodInsertHeader, f.name, rule, name);
    lemma_all_for(e, Rule::MoEntryNote, f.name, rule, name);
    lemma_traps_for(f, a.tracer, src, f.traps.len());
    lemma_throws_for(f, a.tracer, src, f.throws.len());
    lemma_writes_for(f, a.tracer, src, f.writes.len());
    lemma_all_for(t, Rule::MoTrapNote, f.name, rule, name);
    lemma_all_for(r, Rule::MoRollbackNote, f.name, rule, name);
    lemma_all_for(m, Rule::MoMutationSnapshot, f.name, rule, name);
}

/// No two functions of the actor are named alike.
#[verifier::opaque]
pub open spec fn distinct(fs: Seq<FuncView>) -> bool {
    forall|i: int, j: int|
        0 <= i < j < fs.len() ==> (#[trigger] fs[i]).name != (#[trigger] fs[j]).name
}

proof fn lemma_funcs_ask(
    a: ActorView,
    src: Seq<char>,
    rule: Rule,
    name: Seq<char>,
    k: int,
    n: nat,
)
    requires
        n <= a.funcs.len(),
        0 <= k < a.funcs.len(),
        forall|j: int| 0 <= j < a.funcs.len() && j != k ==> (#[trigger] a.funcs[j]).name != name,
    ensures
        tally(funcs_edits(a, src, n), is_for(rule, name)) == if k < n {
            tally(func_edits(a.funcs[k], a, src), is_for(rule, name))
        } else {
            0
        },
    decreases n,
{
    if n > 0 {
        let m = (n - 1) as nat;
        lemma_funcs_ask(a, src, rule, name, k, m);
        lemma_tally_add(
            funcs_edits(a, src, m),
            func_edits(a.funcs[n - 1], a, src),
            is_for(rule, name),
        );
        lemma_func_asks(a.funcs[n - 1], a, src, rule, name);
    }
}

/// Where the actor has its tracer, a pass asks for what the one function of the name wants.
proof fn lemma_asks(
    src: Seq<char>,
    path: Seq<char>,
    a: ActorView,
    rule: Rule,
    name: Seq<char>,
    k: int,
)
    requires
        actor_of(src) == Some(a),
        a.has_tracer,
        0 <= k < a.funcs.len(),
        forall|j: int| 0 <= j < a.funcs.len() && j != k ==> (#[trigger] a.funcs[j]).name != name,
    ensures
        asks(src, path, rule, name) == tally(
            func_edits(a.funcs[k], a, src),
            is_for(rule, name),
        ),
{
    reveal(asks);
    let all = found(src, path);
    let p = is_for(rule, name);
    lemma_tally_sorted(all, candidate_key(), p, all.len());
    assert(all.subrange(0, all.len() as int) =~= all);
    assert(all =~= funcs_edits(a, src, a.funcs.len()));
    lemma_funcs_ask(a, src, rule, name, k, a.funcs.len());
}

proof fn lemma_sorted_holds<A>(es: Seq<A>, key: spec_fn(A) -> int, e: A)
    requires
        es.contains(e),
    ensures
        sorted(es, key, es.len()).contains(e),
{
    broadcast use vstd::seq_lib::group_to_multiset_ensures;

    law_sorted(es, key, es.len());
    assert(es.subrange(0, es.len() as int) =~= es);
    assert(es.to_multiset().count(e) > 0);
}

proof fn lemma_in_funcs(a: ActorView, src: Seq<char>, n: nat, k: int, c: CandidateView)
    requires
        0 <= k < n <= a.funcs.len(),
        func_edits(a.funcs[k], a, src).contains(c),
    ensures
        funcs_edits(a, src, n).contains(c),
    decreases n,
{
    let before = funcs_edits(a, src, (n - 1) as nat);
    let own = func_edits(a.funcs[n - 1], a, src);
    if k < n - 1 {
        lemma_in_funcs(a, src, (n - 1) as nat, k, c);
        let i = choose|i: int| 0 <= i < before.len() && before[i] == c;
        assert((before + own)[i] == c);
    } else {
        let i = choose|i: int| 0 <= i < own.len() && own[i] == c;
        assert((before + own)[before.len() + i] == c);
    }
}

/// What a function asks for is among what the pass finds.
pub proof fn lemma_is_found(
    src: Seq<char>,
    path: Seq<char>,
    a: ActorView,
    f: FuncView,
    c: CandidateView,
)
    requires
        actor_of(src) == Some(a),
        a.funcs.contains(f),
        func_edits(f, a, src).contains(c),
    ensures
        detected(src, path).contains(c),
{
    let k = choose|k: int| 0 <= k < a.funcs.len() && a.funcs[k] == f;
    lemma_in_funcs(a, src, a.funcs.len(), k, c);
    let boot = listed(bootstrap(a, src, path));
    let rest = funcs_edits(a, src, a.funcs.len());
    let i = choose|i: int| 0 <= i < rest.len() && rest[i] == c;
    assert((boot + rest)[boot.len() + i] == c);
    lemma_sorted_holds(found(src, path), candidate_key(), c);
}

/// What a rule asks for of a function is among what the function asks for.
pub proof fn lemma_in_parts(
    f: FuncView,
    a: ActorView,
    src: Seq<char>,
    c: CandidateView,
)
    requires
        listed(entry_note(f, a, src)).contains(c) || trap_notes(
            f,
            a.tracer,
            src,
            f.traps.len(),
        ).contains(c) || rollback_notes(f, a.tracer, src, f.throws.len()).contains(c),
    ensures
        func_edits(f, a, src).contains(c),
{
    let x = listed(wrap_method(f, a, src)) + listed(wrap_method_insert_header(f, a, src));
    let e = listed(entry_note(f, a, src));
    let t = trap_notes(f, a.tracer, src, f.traps.len());
    let r = rollback_notes(f, a.tracer, src, f.throws.len());
    let m = snapshots(f, a.tracer, src, f.writes.len());
    let all = func_edits(f, a, src);
    assert(all =~= x + e + t + r + m);
    if e.contains(c) {
        let i = choose|i: int| 0 <= i < e.len() && e[i] == c;
        assert(all[x.len() + i] == c);
    } else if t.contains(c) {
        let i = choose|i: int| 0 <= i < t.len() && t[i] == c;
        assert(all[x.len() + e.len() + i] == c);
    } else {
        let i = choose|i: int| 0 <= i < r.len() && r[i] == c;
        assert(all[x.len() + e.len() + t.len() + i] == c);
    }
}

// ---------- A pass after an edit ----------

/// `new` is `src` once the candidate is accepted alone.
pub open spec fn is_applied(src: Seq<char>, c: CandidateView, new: Seq<char>) -> bool {
    encode_utf8(new) == spliced(encode_utf8(src), edits_of(seq![c]), 0, 0)
}

pub proof fn lemma_applied(src: Seq<char>, c: CandidateView, new: Seq<char>, at: int, x: Seq<char>)
    requires
        is_applied(src, c, new),
        0 <= at <= src.len(),
        c.start == byte_at(src, at),
        c.end == c.start,
        c.replacement == ReplacementView::InsertRaw(x),
    ensures
        new == inserted(src, at, x),
{
    let e = FlatView { rule: c.rule, start: c.start, end: c.end, text: x };
    assert(flat_of(c) =~= seq![e]);
    reveal_with_fuel(flat_all, 2);
    assert(flat_all(seq![c], 1) =~= seq![e]);
    reveal_with_fuel(sorted, 2);
    reveal_with_fuel(slot, 2);
    assert(edits_of(seq![c]) =~= seq![e]);
    lemma_splice_one(src, e, at);
    encode_utf8_decode_utf8(new);
    encode_utf8_decode_utf8(inserted(src, at, x));
}

pub proof fn lemma_ident_chars(s: Seq<char>, i: int)
    requires
        0 <= i,
    ensures
        forall|x: int| i <= x < ident_end(s, i) ==> is_ident_char(#[trigger] s[x]),
        i <= s.len() ==> i <= ident_end(s, i) <= s.len(),
    decreases s.len() - i,
{
    if i < s.len() && is_ident_char(s[i]) {
        lemma_ident_chars(s, i + 1);
    }
}

/// What is known of the function once a text was put into its body.
#[verifier::opaque]
pub open spec fn has_grown(
    src: Seq<char>,
    a: ActorView,
    at: int,
    q: int,
    x: Seq<char>,
    c: ActorView,
    g: FuncView,
) -> bool {
    let f = function(src, a, at);
    let t = inserted(src, a.open + q, x);
    &&& actor_of(t) == Some(c)
    &&& c.alias == a.alias && c.tracer == a.tracer && c.has_tracer && a.has_tracer
    &&& g.name == f.name
    &&& g.body_open == f.body_open
    &&& g.body_close == f.body_close + x.len()
    &&& body_of(g, t) == inserted(body_of(f, src), q - (f.body_open - a.open) - 1, x)
    &&& is_of_body(g, body_of(g, t), c.tracer)
}

/// What is read of the function is what its body holds.
#[verifier::opaque]
pub open spec fn is_of_body(f: FuncView, body: Seq<char>, tracer: Seq<char>) -> bool {
    &&& f.has_entry_note == has_entry_note(body, tracer)
    &&& f.has_begin_trace == (find_name(body, mask(body), tracer + ".beginTrace("@, 0) is Some)
    &&& f.traps == traps(body)
    &&& f.throws == throws(body)
}

pub proof fn lemma_of_body(s: Seq<char>, i: int, h: Shape, offset: int, names: Names)
    ensures
        ({
            let f = func_view(s, i, h, offset, names);
            &&& is_of_body(f, s.subrange(h.body_open + 1, h.body_close), names.tracer)
            &&& f.name == s.subrange(h.name_start, h.name_end)
            &&& f.body_open == offset + h.body_open
            &&& f.body_close == offset + h.body_close
        }),
{
    reveal(is_of_body);
}

/// The functions of the actor once a text was put into one of them.
pub proof fn lemma_functions_grow(
    src: Seq<char>,
    a: ActorView,
    at: int,
    q: int,
    x: Seq<char>,
    h2: Shape,
) -> (k: int)
    requires
        is_read(src, a, at),
        holds_at(src, a, at, q),
        complete(x),
        no_braces(x),
        ({
            let b = inside(src, a);
            let h = shape_at(b, mask(b), at)->0;
            let grew = inserted(b, q, x);
            &&& shape_at(grew, mask(grew), at) == Some(h2)
            &&& h2.body_close == h.body_close + x.len()
            &&& h2.name_start == h.name_start
            &&& h2.name_end == h.name_end
        }),
    ensures
        ({
            let t = inserted(src, a.open + q, x);
            let grew = inserted(inside(src, a), q, x);
            &&& actor_of(t) matches Some(c) && ({
                &&& c.funcs.len() == a.funcs.len()
                &&& 0 <= k < c.funcs.len()
                &&& a.funcs[k] == function(src, a, at)
                &&& c.funcs[k] == func_view(grew, at, h2, a.open, names_in(t, c))
                &&& forall|j: int|
                    0 <= j < c.funcs.len() ==> (#[trigger] c.funcs[j]).name == a.funcs[j].name
            })
        }),
{
    let b = inside(src, a);
    let n = x.len() as int;
    let t = inserted(src, a.open + q, x);
    let grew = inserted(b, q, x);
    lemma_actor_grows(src, a, at, q, x);
    lemma_actor_body(src);
    lemma_mask_len(b);
    lemma_shape_order(b, mask(b), at);
    let c = actor_of(t)->0;
    let names = names_in(src, a);
    let others = names_in(t, c);
    let k = lemma_funcs_grow(b, grew, q, n, 0, at, a.open, names, others, h2);
    assert forall|j: int| 0 <= j < c.funcs.len() implies (#[trigger] c.funcs[j]).name
        == a.funcs[j].name by {
        if j < k {
            assert(alike(a.funcs[j], c.funcs[j]));
        } else if j > k {
            assert(alike(moved_func(a.funcs[j], n), c.funcs[j]));
        }
    }
    k
}

/// A function whose body was put a text into ends as much later.
pub proof fn lemma_shape_grows(src: Seq<char>, a: ActorView, at: int, q: int, x: Seq<char>)
    requires
        is_read(src, a, at),
        takes_at(src, a, at, q),
        complete(x),
        no_braces(x),
    ensures
        ({
            let b = inside(src, a);
            let h = shape_at(b, mask(b), at)->0;
            let grew = inserted(b, q, x);
            shape_at(grew, mask(grew), at) == Some(
                Shape { body_close: h.body_close + x.len(), ..h },
            )
        }),
{
    let b = inside(src, a);
    let n = x.len() as int;
    let grew = inserted(b, q, x);
    lemma_read(src, a, at);
    lemma_mask_len(b);
    lemma_shape_order(b, mask(b), at);
    lemma_grown(b, q, x);
    assert(no_brackets(grew, mask(grew), q, n, '{', '}')) by {
        assert forall|k: int| q <= k < q + n && mask(grew)[k] implies #[trigger] grew[k] != '{'
            && grew[k] != '}' by {
            assert(grew[k] == x[k - q]);
            assert(mask(grew)[k] == mask(x)[k - q]);
        }
    }
    lemma_shape_over(b, mask(b), grew, mask(grew), q, n, at);
}

/// A pass asks of one function what it wants, before and after a text was put into it.
pub proof fn lemma_asks_of(
    src: Seq<char>,
    path: Seq<char>,
    a: ActorView,
    t: Seq<char>,
    c: ActorView,
    k: int,
    rule: Rule,
)
    requires
        actor_of(src) == Some(a),
        actor_of(t) == Some(c),
        a.has_tracer,
        c.has_tracer,
        distinct(a.funcs),
        c.funcs.len() == a.funcs.len(),
        0 <= k < c.funcs.len(),
        forall|j: int| 0 <= j < c.funcs.len() ==> (#[trigger] c.funcs[j]).name == a.funcs[j].name,
    ensures
        asks(src, path, rule, a.funcs[k].name) == tally(
            func_edits(a.funcs[k], a, src),
            is_for(rule, a.funcs[k].name),
        ),
        asks(t, path, rule, a.funcs[k].name) == tally(
            func_edits(c.funcs[k], c, t),
            is_for(rule, a.funcs[k].name),
        ),
{
    let name = a.funcs[k].name;
    reveal(distinct);
    assert forall|j: int| 0 <= j < a.funcs.len() && j != k implies (#[trigger] a.funcs[j]).name
        != name by {
        if j < k {
            assert(a.funcs[j].name != a.funcs[k].name);
        } else {
            assert(a.funcs[k].name != a.funcs[j].name);
        }
    }
    assert forall|j: int| 0 <= j < c.funcs.len() && j != k implies (#[trigger] c.funcs[j]).name
        != name by {
        assert(c.funcs[j].name == a.funcs[j].name);
    }
    lemma_asks(src, path, a, rule, name, k);
    lemma_asks(t, path, c, rule, name, k);
}

proof fn lemma_body_grows(
    src: Seq<char>,
    a: ActorView,
    at: int,
    q: int,
    x: Seq<char>,
    c: ActorView,
    h: Shape,
)
    requires
        actor_of(inserted(src, a.open + q, x)) == Some(c),
        c.alias == a.alias,
        c.tracer == a.tracer,
        c.has_tracer,
        a.has_tracer,
        0 <= a.open <= a.close <= src.len(),
        0 <= h.body_open < q <= h.body_close <= a.close - a.open,
        0 <= h.name_start <= h.name_end <= h.body_open,
        h == shape_at(inside(src, a), mask(inside(src, a)), at)->0,
    ensures
        has_grown(
            src,
            a,
            at,
            q,
            x,
            c,
            func_view(
                inserted(inside(src, a), q, x),
                at,
                Shape { body_close: h.body_close + x.len(), ..h },
                a.open,
                names_in(inserted(src, a.open + q, x), c),
            ),
        ),
{
    let b = inside(src, a);
    let t = inserted(src, a.open + q, x);
    let n = x.len() as int;
    let grew = inserted(b, q, x);
    let h2 = Shape { body_close: h.body_close + n, ..h };
    let f = function(src, a, at);
    let g = func_view(grew, at, h2, a.open, names_in(t, c));
    lemma_of_body(b, at, h, a.open, names_in(src, a));
    lemma_of_body(grew, at, h2, a.open, names_in(t, c));
    lemma_bodies(src, a.open, a.close, q, x, h.body_open + 1, h.body_close);
    lemma_part_stays(b, q, x, h.name_start, h.name_end);
    assert(body_of(g, t) == t.subrange(a.open + h.body_open + 1, a.open + h.body_close + n));
    assert(body_of(f, src) == src.subrange(a.open + h.body_open + 1, a.open + h.body_close));
    reveal(has_grown);
}

proof fn lemma_bodies(s: Seq<char>, open: int, close: int, q: int, x: Seq<char>, i: int, j: int)
    requires
        0 <= open <= close <= s.len(),
        0 <= i <= q <= j <= close - open,
    ensures
        ({
            let t = inserted(s, open + q, x);
            let part = t.subrange(open + i, open + j + x.len());
            &&& inserted(s.subrange(open, close), q, x).subrange(i, j + x.len()) == part
            &&& part == inserted(s.subrange(open + i, open + j), q - i, x)
        }),
{
    lemma_part_of_part(s, open, close, i, j);
    lemma_part_grows(s.subrange(open, close), 0, q, x, i, j);
    lemma_part_grows(s, open, q, x, i, j);
}

proof fn lemma_part_stays(s: Seq<char>, q: int, x: Seq<char>, i: int, j: int)
    requires
        0 <= i <= j <= q <= s.len(),
    ensures
        inserted(s, q, x).subrange(i, j) == s.subrange(i, j),
{
    assert(inserted(s, q, x).subrange(i, j) =~= s.subrange(i, j));
}

pub proof fn lemma_part_of_part(s: Seq<char>, open: int, close: int, i: int, j: int)
    requires
        0 <= open <= close <= s.len(),
        0 <= i <= j <= close - open,
    ensures
        s.subrange(open, close).subrange(i, j) == s.subrange(open + i, open + j),
{
    assert(s.subrange(open, close).subrange(i, j) =~= s.subrange(open + i, open + j));
}

proof fn lemma_part_grows(s: Seq<char>, open: int, q: int, x: Seq<char>, i: int, j: int)
    requires
        0 <= open,
        0 <= i <= q <= j,
        open + j <= s.len(),
    ensures
        inserted(s, open + q, x).subrange(open + i, open + j + x.len()) == inserted(
            s.subrange(open + i, open + j),
            q - i,
            x,
        ),
{
    assert(inserted(s, open + q, x).subrange(open + i, open + j + x.len()) =~= inserted(
        s.subrange(open + i, open + j),
        q - i,
        x,
    ));
}

/// A second pass asks of the function what it wants once a text was put into its body.
pub proof fn lemma_second_pass(
    src: Seq<char>,
    path: Seq<char>,
    a: ActorView,
    at: int,
    q: int,
    x: Seq<char>,
    rule: Rule,
) -> (r: (ActorView, FuncView))
    requires
        is_read(src, a, at),
        distinct(a.funcs),
        takes_at(src, a, at, q),
        complete(x),
        no_braces(x),
    ensures
        has_grown(src, a, at, q, x, r.0, r.1),
        a.funcs.contains(function(src, a, at)),
        ({
            let f = function(src, a, at);
            let t = inserted(src, a.open + q, x);
            &&& asks(src, path, rule, f.name) == tally(
                func_edits(f, a, src),
                is_for(rule, f.name),
            )
            &&& asks(t, path, rule, f.name) == tally(func_edits(r.1, r.0, t), is_for(rule, f.name))
        }),
{
    let t = inserted(src, a.open + q, x);
    let b = inside(src, a);
    let h = shape_at(b, mask(b), at)->0;
    lemma_holds_at(src, a, at, q);
    lemma_actor_grows(src, a, at, q, x);
    lemma_shape_grows(src, a, at, q, x);
    let h2 = Shape { body_close: h.body_close + x.len(), ..h };
    let k = lemma_functions_grow(src, a, at, q, x, h2);
    let c = actor_of(t)->0;
    lemma_mask_len(b);
    lemma_shape_order(b, mask(b), at);
    lemma_body_grows(src, a, at, q, x, c, h);
    let g = c.funcs[k];
    lemma_asks_of(src, path, a, t, c, k, rule);
    (c, g)
}

// ---------- Texts of notes ----------

/// The text holds nothing that begins a comment or a string literal, and no brace.
pub open spec fn is_plain(x: Seq<char>) -> bool {
    forall|k: int|
        0 <= k < x.len() ==> #[trigger] x[k] != '/' && x[k] != '"' && x[k] != '{' && x[k] != '}'
}

/// The text can stand in a string literal.
pub open spec fn is_literal(y: Seq<char>) -> bool {
    forall|k: int| 0 <= k < y.len() ==> #[trigger] y[k] != '"' && y[k] != '\\'
}

/// A text with a string literal in it.
pub open spec fn with_literal(p: Seq<char>, y: Seq<char>, z: Seq<char>) -> Seq<char> {
    p + (seq!['"'] + y + seq!['"'] + z)
}

pub proof fn lemma_plain_mask(x: Seq<char>)
    requires
        is_plain(x),
    ensures
        mask(x).len() == x.len(),
        forall|k: int| 0 <= k < x.len() ==> #[trigger] mask(x)[k],
        x.len() > 0 ==> complete(x),
{
    lemma_plain_is_code(x, 0, x.len() as int);
}

proof fn lemma_literal_end(y: Seq<char>, z: Seq<char>, i: int)
    requires
        is_literal(y),
        1 <= i <= y.len() + 1,
    ensures
        string_end(seq!['"'] + y + seq!['"'] + z, i) == y.len() + 2,
    decreases y.len() + 1 - i,
{
    let s = seq!['"'] + y + seq!['"'] + z;
    if i <= y.len() {
        assert(s[i] == y[i - 1]);
        lemma_literal_end(y, z, i + 1);
    } else {
        assert(s[i] == '"');
    }
}

/// A plain text with a string literal in it is complete, and only the plain parts of it are code.
pub proof fn lemma_with_literal(p: Seq<char>, y: Seq<char>, z: Seq<char>)
    requires
        is_plain(p),
        p.len() > 0,
        is_literal(y),
        is_plain(z),
        z.len() > 0,
    ensures
        ({
            let x = with_literal(p, y, z);
            let e = p.len() + y.len() + 2;
            &&& complete(x)
            &&& no_braces(x)
            &&& x.len() == e + z.len()
            &&& mask(x).len() == x.len()
            &&& forall|k: int|
                0 <= k < x.len() && #[trigger] mask(x)[k] ==> (k < p.len() && x[k] == p[k]) || (e
                    <= k && x[k] == z[k - e])
        }),
{
    let quote = seq!['"'];
    let front = quote + y + quote;
    let rest = front + z;
    let x = with_literal(p, y, z);
    let e = p.len() + y.len() + 2;
    lemma_plain_mask(p);
    lemma_plain_mask(z);
    crate::instrument::motoko::grown::lemma_complete(p, rest);
    assert(rest[0] == '"');
    lemma_literal_end(y, z, 1);
    assert(skip_end(rest, 0) == Some(y.len() as int + 2));
    let gap = Seq::new((y.len() + 2) as nat, |k: int| false);
    assert(mask(rest) == gap + mask_from(rest, y.len() as int + 2));
    assert(front.len() == y.len() + 2);
    crate::instrument::motoko::grown::lemma_mask_shift(front, z, 0);
    assert(mask(x) == mask(p) + (gap + mask(z)));
    assert(x.len() == e + z.len());
    let last = x.len() - 1;
    assert(x[last] == z[z.len() - 1]);
    assert(mask(x)[last] == mask(z)[z.len() - 1]);
    assert forall|k: int| 0 <= k < x.len() && #[trigger] mask(x)[k] implies (k < p.len() && x[k]
        == p[k]) || (e <= k && x[k] == z[k - e]) by {
        if p.len() <= k < e {
            assert(mask(x)[k] == gap[k - p.len()]);
        }
    }
    assert forall|k: int| 0 <= k < x.len() && mask(x)[k] implies #[trigger] x[k] != '{' && x[k]
        != '}' by {
        assert(mask(x)[k]);
    }
}

// ---------- The entry note ----------

pub proof fn lemma_name_of(src: Seq<char>, a: ActorView, at: int)
    requires
        shape_at(inside(src, a), mask(inside(src, a)), at) is Some,
        0 <= at,
    ensures
        is_name(function(src, a, at).name),
{
    let b = inside(src, a);
    let h = shape_at(b, mask(b), at)->0;
    lemma_shape_order(b, mask(b), at);
    lemma_ident_chars(b, h.name_start);
    let name = b.subrange(h.name_start, h.name_end);
    assert forall|k: int| 0 <= k < name.len() implies is_ident_char(#[trigger] name[k]) by {
        assert(is_ident_char(b[h.name_start + k]));
    }
}

/// The text of a note.
pub open spec fn note_text(
    lead: Seq<char>,
    tracer: Seq<char>,
    name: Seq<char>,
    label: Seq<char>,
) -> Seq<char> {
    with_literal(lead + tracer + ".note("@, name + label, ");\n"@)
}

pub proof fn lemma_note_text(lead: Seq<char>, tracer: Seq<char>, name: Seq<char>, label: Seq<char>)
    requires
        is_plain(lead),
        is_name(tracer),
        is_name(name),
        is_literal(label),
    ensures
        complete(note_text(lead, tracer, name, label)),
        no_braces(note_text(lead, tracer, name, label)),
        is_plain(lead + tracer + ".note("@),
        is_plain(");\n"@),
        is_literal(name + label),
{
    reveal_strlit(".note(");
    reveal_strlit(");\n");
    let p = lead + tracer + ".note("@;
    assert forall|k: int| 0 <= k < p.len() implies #[trigger] p[k] != '/' && p[k] != '"' && p[k]
        != '{' && p[k] != '}' by {
        if k < lead.len() {
            assert(p[k] == lead[k]);
        } else if k < lead.len() + tracer.len() {
            assert(p[k] == tracer[k - lead.len()]);
            assert(is_ident_char(tracer[k - lead.len()]));
        } else {
            assert(p[k] == ".note("@[k - lead.len() - tracer.len()]);
        }
    }
    let y = name + label;
    assert forall|k: int| 0 <= k < y.len() implies #[trigger] y[k] != '"' && y[k] != '\\' by {
        if k < name.len() {
            assert(y[k] == name[k]);
            assert(is_ident_char(name[k]));
        } else {
            assert(y[k] == label[k - name.len()]);
        }
    }
    lemma_with_literal(p, y, ");\n"@);
}

/// Once the entry of a function is noted as the rule asks, a second pass over the file asks for no
/// note of it.
pub proof fn law_second_pass_wants_no_entry_note(
    src: Seq<char>,
    path: Seq<char>,
    a: ActorView,
    at: int,
    c: CandidateView,
    new: Seq<char>,
)
    requires
        is_read(src, a, at),
        distinct(a.funcs),
        entry_note(function(src, a, at), a, src) == Some(c),
        is_applied(src, c, new),
    ensures
        detected(src, path).contains(c),
        asks(src, path, Rule::MoEntryNote, c.fn_name) == 1,
        asks(new, path, Rule::MoEntryNote, c.fn_name) == 0,
{
    reveal_strlit("  ");
    reveal_strlit(":enter");
    reveal_strlit(":enter\");\n");
    reveal_strlit(".note(");
    reveal_strlit(".note(\"");
    reveal_strlit(");\n");
    let b = inside(src, a);
    let h = shape_at(b, mask(b), at)->0;
    let f = function(src, a, at);
    let body = body_of(f, src);
    let k = entry_place(body, a.tracer)->0;
    let q = h.body_open + 1 + k;
    lemma_read(src, a, at);
    lemma_shape_order(b, mask(b), at);
    lemma_name_of(src, a, at);
    lemma_entry_place(body, a.tracer);
    lemma_part_of_part(src, a.open, a.close, h.body_open + 1, h.body_close);
    lemma_mask_len(b);
    lemma_inside(b, h.body_open + 1, h.body_close, k);
    assert(b[q - 1] == body[k - 1]);
    assert(takes_at(src, a, at, q));
    let lead = indent_at(src, f.body_open) + "  "@;
    lemma_indent(src, f.body_open);
    assert(is_plain(lead)) by {
        assert forall|i: int| 0 <= i < lead.len() implies #[trigger] lead[i] != '/' && lead[i]
            != '"' && lead[i] != '{' && lead[i] != '}' by {
            if i < indent_at(src, f.body_open).len() {
                assert(lead[i] == indent_at(src, f.body_open)[i]);
            } else {
                assert(lead[i] == "  "@[i - indent_at(src, f.body_open).len()]);
            }
        }
    }
    let x = note_text(lead, a.tracer, f.name, ":enter"@);
    lemma_note_text(lead, a.tracer, f.name, ":enter"@);
    let text = lead + a.tracer + ".note(\""@ + f.name + ":enter\");\n"@;
    assert(text =~= x);
    lemma_applied(src, c, new, a.open + q, x);
    let (d, g) = lemma_second_pass(src, path, a, at, q, x, Rule::MoEntryNote);
    lemma_func_asks(f, a, src, Rule::MoEntryNote, f.name);
    lemma_func_asks(g, d, new, Rule::MoEntryNote, f.name);
    law_entry_is_noted_once(f, a, src, x, inserted(body, k, x));
    reveal(has_grown);
    reveal(is_of_body);
    assert(listed(Some(c))[0] == c);
    lemma_in_parts(f, a, src, c);
    lemma_is_found(src, path, a, f, c);
}

/// What is read of a function.
pub proof fn lemma_read(src: Seq<char>, a: ActorView, at: int)
    requires
        is_read(src, a, at),
    ensures
        actor_of(src) == Some(a),
        0 <= at,
        0 < a.open <= a.close < src.len(),
        shape_at(inside(src, a), mask(inside(src, a)), at) is Some,
        a.has_tracer,
        is_name(a.tracer),
        a.tracer.len() > 0,
{
    reveal(is_read);
    reveal_strlit(".Tracer(");
    lemma_actor_body(src);
    let b = inside(src, a);
    let m = mask(b);
    let h = shape_at(b, m, at)->0;
    let p = a.alias + ".Tracer("@;
    lemma_mask_len(b);
    lemma_reads(b, m, 0, at);
    lemma_shape_order(b, m, at);
    assert(grown(b, m, b, m, at, 0));
    lemma_tracer_stays(b, m, b, m, at, 0, p, 0);
}

proof fn lemma_reads(s: Seq<char>, m: Seq<bool>, i: int, at: int)
    requires
        reads_to(s, m, i, at),
        0 <= i,
    ensures
        i <= at,
{
}

// ---------- Lines ----------

/// `t` is `s` with the line `x` put in before the line that begins at `q`.
pub open spec fn line_put(s: Seq<char>, q: int, x: Seq<char>) -> bool {
    &&& 0 < q <= s.len()
    &&& s[q - 1] == '\n'
    &&& x.len() > 0
    &&& x[x.len() - 1] == '\n'
    &&& forall|k: int| 0 <= k < x.len() - 1 ==> #[trigger] x[k] != '\n'
}

proof fn lemma_start_before(s: Seq<char>, t: Seq<char>, q: int, i: int)
    requires
        i <= q <= s.len(),
        q <= t.len(),
        forall|x: int| 0 <= x < q ==> #[trigger] t[x] == s[x],
    ensures
        line_start(t, i) == line_start(s, i),
    decreases i,
{
    if 0 < i {
        assert(t[i - 1] == s[i - 1]);
        lemma_start_before(s, t, q, i - 1);
    }
}

proof fn lemma_start_after(s: Seq<char>, q: int, x: Seq<char>, i: int)
    requires
        line_put(s, q, x),
        q <= i <= s.len(),
    ensures
        line_start(inserted(s, q, x), i + x.len()) == line_start(s, i) + x.len(),
        q <= line_start(s, i) <= i,
    decreases i,
{
    let t = inserted(s, q, x);
    let n = x.len() as int;
    if i > q {
        assert(t[i + n - 1] == s[i - 1]);
        if s[i - 1] != '\n' {
            lemma_start_after(s, q, x, i - 1);
        }
    } else {
        assert(t[q + n - 1] == x[n - 1]);
    }
}

/// The line before a place stays what it is, but for that of the line before which one was put.
pub proof fn lemma_line_before_stays(s: Seq<char>, q: int, x: Seq<char>, p: int)
    requires
        line_put(s, q, x),
        0 <= p <= s.len(),
    ensures
        p < q ==> line_before(inserted(s, q, x), p) == line_before(s, p),
        q <= p && line_start(s, p) != q ==> line_before(inserted(s, q, x), p + x.len())
            == line_before(s, p),
{
    let t = inserted(s, q, x);
    let n = x.len() as int;
    if p < q {
        lemma_start_before(s, t, q, p);
        lemma_line_start(s, p);
        let start = line_start(s, p);
        let end = if start == 0 {
            0
        } else {
            start - 1
        };
        lemma_start_before(s, t, q, end);
        lemma_line_start(s, end);
        assert(t.subrange(line_start(s, end), end) =~= s.subrange(line_start(s, end), end));
    } else if line_start(s, p) != q {
        lemma_start_after(s, q, x, p);
        let end = line_start(s, p) - 1;
        lemma_start_after(s, q, x, end);
        let from = line_start(s, end);
        assert(t.subrange(from + n, end + n) =~= s.subrange(from, end));
    } else {
        lemma_start_after(s, q, x, p);
    }
}

/// Places of the same line have the same line before them.
pub proof fn lemma_same_line(s: Seq<char>, q: int, x: Seq<char>, p: int, r: int)
    requires
        line_put(s, q, x),
        q <= p <= s.len(),
        q <= r <= s.len(),
        line_start(s, p) == line_start(s, r),
    ensures
        line_before(inserted(s, q, x), p + x.len()) == line_before(inserted(s, q, x), r + x.len()),
{
    lemma_start_after(s, q, x, p);
    lemma_start_after(s, q, x, r);
}

// ---------- Names and words around a line that was put in ----------

proof fn lemma_match_near(
    s: Seq<char>,
    m: Seq<bool>,
    t: Seq<char>,
    l: Seq<bool>,
    q: int,
    n: int,
    p: Seq<char>,
    i: int,
)
    requires
        grown(s, m, t, l, q, n),
        0 < q,
        s[q - 1] == '\n',
        forall|k: int| 0 <= k < p.len() ==> #[trigger] p[k] != '\n',
        0 <= i < q,
    ensures
        name_match(t, l, i, p) == name_match(s, m, i, p),
        name_match(s, m, i, p) ==> i + p.len() <= q,
{
    assert(t[q - 1] == s[q - 1]);
    if i > 0 {
        assert(t[i - 1] == s[i - 1]);
    }
    if i + p.len() <= q {
        assert(t.subrange(i, i + p.len()) =~= s.subrange(i, i + p.len()));
        if name_match(s, m, i, p) {
            assert forall|k: int| i <= k < i + p.len() implies #[trigger] l[k] by {
                assert(l[k] == m[k] && m[k]);
            }
        }
        if name_match(t, l, i, p) {
            assert forall|k: int| i <= k < i + p.len() implies #[trigger] m[k] by {
                assert(l[k] == m[k]);
            }
        }
    } else {
        if name_match(s, m, i, p) {
            assert(s.subrange(i, i + p.len())[q - 1 - i] == s[q - 1]);
        }
        if name_match(t, l, i, p) {
            assert(t.subrange(i, i + p.len())[q - 1 - i] == t[q - 1]);
        }
    }
}

proof fn lemma_match_far(
    s: Seq<char>,
    m: Seq<bool>,
    t: Seq<char>,
    l: Seq<bool>,
    q: int,
    n: int,
    p: Seq<char>,
    i: int,
)
    requires
        grown(s, m, t, l, q, n),
        0 < q,
        0 < n,
        s[q - 1] == '\n',
        t[q + n - 1] == '\n',
        q <= i,
    ensures
        name_match(t, l, i + n, p) == name_match(s, m, i, p),
{
    if i + p.len() <= s.len() {
        assert(t.subrange(i + n, i + n + p.len()) =~= s.subrange(i, i + p.len()));
        if i > q && i <= s.len() {
            assert(t[i + n - 1] == s[i - 1]);
        }
        if name_match(s, m, i, p) {
            assert forall|k: int| i + n <= k < i + n + p.len() implies #[trigger] l[k] by {
                assert(l[k] == m[k - n] && m[k - n]);
            }
        }
        if name_match(t, l, i + n, p) {
            assert forall|k: int| i <= k < i + p.len() implies #[trigger] m[k] by {
                assert(l[k + n] == m[k] && l[k + n]);
            }
        }
    }
}

pub proof fn lemma_find_far(
    s: Seq<char>,
    m: Seq<bool>,
    t: Seq<char>,
    l: Seq<bool>,
    q: int,
    n: int,
    p: Seq<char>,
    i: int,
)
    requires
        grown(s, m, t, l, q, n),
        0 < q,
        0 < n,
        s[q - 1] == '\n',
        t[q + n - 1] == '\n',
        q <= i,
    ensures
        find_name(t, l, p, i + n) == shifted(find_name(s, m, p, i), n),
    decreases s.len() - i,
{
    if i < s.len() && i + p.len() <= s.len() {
        lemma_match_far(s, m, t, l, q, n, p, i);
        if !name_match(s, m, i, p) {
            lemma_find_far(s, m, t, l, q, n, p, i + 1);
        }
    }
}

/// What is found before the line is found still; else the search goes on behind it.
pub proof fn lemma_find_over(
    s: Seq<char>,
    m: Seq<bool>,
    t: Seq<char>,
    l: Seq<bool>,
    q: int,
    n: int,
    p: Seq<char>,
    i: int,
)
    requires
        grown(s, m, t, l, q, n),
        0 < q,
        0 < n,
        s[q - 1] == '\n',
        t[q + n - 1] == '\n',
        p.len() > 0,
        forall|k: int| 0 <= k < p.len() ==> #[trigger] p[k] != '\n',
        forall|k: int| q <= k < q + n ==> !#[trigger] name_match(t, l, k, p),
        0 <= i <= q,
    ensures
        match find_name(s, m, p, i) {
            Some(k) if k < q => find_name(t, l, p, i) == Some(k) && k + p.len() <= q,
            _ => find_name(s, m, p, i) == find_name(s, m, p, q) && find_name(t, l, p, i)
                == find_name(t, l, p, q + n),
        },
    decreases q - i,
{
    lemma_find_name(s, m, p, q);
    if i < q {
        lemma_match_near(s, m, t, l, q, n, p, i);
        if !name_match(s, m, i, p) {
            lemma_find_over(s, m, t, l, q, n, p, i + 1);
            if i + p.len() > s.len() {
                lemma_short(s, m, p, i, q);
                lemma_short(s, m, p, i, i + 1);
            }
            if i + p.len() > t.len() {
                lemma_short(t, l, p, i, q + n);
                lemma_short(t, l, p, i, i + 1);
            }
        }
    } else {
        lemma_find_pass(t, l, q, n, p, q);
    }
}

/// A search that ends for want of text finds nothing further on.
proof fn lemma_short(s: Seq<char>, m: Seq<bool>, p: Seq<char>, i: int, k: int)
    requires
        0 <= i <= k,
        i + p.len() > s.len() || i >= s.len(),
    ensures
        find_name(s, m, p, i) is None,
        find_name(s, m, p, k) is None,
{
}

proof fn lemma_find_pass(t: Seq<char>, l: Seq<bool>, q: int, n: int, p: Seq<char>, i: int)
    requires
        0 <= q <= i <= q + n <= t.len(),
        p.len() > 0,
        forall|k: int| q <= k < q + n ==> !#[trigger] name_match(t, l, k, p),
    ensures
        find_name(t, l, p, i) == find_name(t, l, p, q + n),
    decreases q + n - i,
{
    if i < q + n {
        assert(!name_match(t, l, i, p));
        lemma_find_pass(t, l, q, n, p, i + 1);
    }
}

} // verus!
