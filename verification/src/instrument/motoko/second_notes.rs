//! A trap or a throw that was noted is not asked about again.

use vstd::prelude::*;

use crate::instrument::gather::listed;
use crate::instrument::insertion::inserted;
use crate::instrument::motoko::actor::ActorView;
use crate::instrument::motoko::body::{throws, traps, traps_from, words_from};
use crate::instrument::motoko::funcs::{shape_at, FuncView};
use crate::instrument::motoko::grown::{
    complete, grown, lemma_complete, lemma_complete_start, lemma_grown, lemma_shape_order,
    lemma_word_after, lemma_word_before,
};
use crate::instrument::motoko::once::{is_name, lemma_above, lemma_lead};
use crate::instrument::motoko::rules::{body_of, lead_of, rollback_note, trap_note};
use crate::instrument::motoko::scan::{
    code_match, find_name, lemma_find_name, lemma_mask_len, mask, name_match, word_at,
};
use crate::instrument::motoko::second_pass::{
    asks, distinct, function, has_grown, inside, is_applied, is_for, is_of_body, is_plain, is_read,
    lemma_applied, lemma_find_far, lemma_find_over, lemma_func_asks, lemma_in_parts, lemma_is_found,
    lemma_line_before_stays, lemma_name_of, lemma_note_text, lemma_part_of_part, lemma_read,
    lemma_same_line, lemma_second_pass, lemma_tally_add, lemma_tally_one, lemma_with_literal,
    line_put, note_text, takes_at, tally, with_literal,
};
use crate::instrument::motoko::{detected, func_edits, rollback_notes, trap_notes};
use crate::instrument::{CandidateView, ReplacementView, Rule};
use crate::text::{
    byte_at, contains, is_ident_char, is_space, lemma_line_start, line_before, line_start,
    skip_space, starts_with, trim_start,
};

verus! {

// ---------- Fewer places ----------

/// Places that move with their wishes want no more than before, and fewer where one is met.
proof fn lemma_fewer(
    xs: Seq<int>,
    ys: Seq<int>,
    n: int,
    ps: spec_fn(int) -> bool,
    pt: spec_fn(int) -> bool,
)
    requires
        xs.len() == ys.len(),
        forall|i: int| 0 <= i < xs.len() ==> #[trigger] ys[i] == xs[i] + n,
        forall|i: int| 0 <= i < xs.len() && pt(ys[i]) ==> ps(#[trigger] xs[i]),
    ensures
        tally(ys, pt) <= tally(xs, ps),
        forall|i: int|
            0 <= i < xs.len() && ps(#[trigger] xs[i]) && !pt(xs[i] + n) ==> tally(ys, pt) < tally(
                xs,
                ps,
            ),
    decreases xs.len(),
{
    if xs.len() > 0 {
        let a = xs.drop_last();
        let b = ys.drop_last();
        assert forall|i: int| 0 <= i < a.len() implies #[trigger] b[i] == a[i] + n by {
            assert(ys[i] == xs[i] + n);
        }
        assert forall|i: int| 0 <= i < a.len() && pt(b[i]) implies ps(#[trigger] a[i]) by {
            assert(ys[i] == b[i] && xs[i] == a[i]);
        }
        lemma_fewer(a, b, n, ps, pt);
        let k = xs.len() - 1;
        assert(ys[k] == xs[k] + n);
        assert(pt(ys[k]) ==> ps(xs[k]));
        assert forall|i: int|
            0 <= i < xs.len() && ps(#[trigger] xs[i]) && !pt(xs[i] + n) implies tally(ys, pt)
            < tally(xs, ps) by {
            if i < k {
                assert(a[i] == xs[i]);
            }
        }
    }
}

// ---------- Traps ----------

proof fn lemma_traps_far(
    s: Seq<char>,
    m: Seq<bool>,
    t: Seq<char>,
    l: Seq<bool>,
    q: int,
    n: int,
    i: int,
)
    requires
        grown(s, m, t, l, q, n),
        0 < q,
        0 < n,
        s[q - 1] == '\n',
        t[q + n - 1] == '\n',
        q <= i,
    ensures
        traps_from(t, l, i + n).len() == traps_from(s, m, i).len(),
        forall|k: int|
            0 <= k < traps_from(s, m, i).len() ==> #[trigger] traps_from(t, l, i + n)[k]
                == traps_from(s, m, i)[k] + n,
        forall|k: int|
            0 <= k < traps_from(s, m, i).len() ==> #[trigger] traps_from(s, m, i)[k] >= i,
    decreases s.len() - i,
{
    reveal_strlit("Debug.trap");
    let p = "Debug.trap"@;
    lemma_find_name(s, m, p, i);
    lemma_find_far(s, m, t, l, q, n, p, i);
    if let Some(at) = find_name(s, m, p, i) {
        let next = at + 10;
        lemma_traps_far(s, m, t, l, q, n, next);
        assert(t.subrange(next + n, t.len() as int) =~= s.subrange(next, s.len() as int));
    }
}

/// What follows a name before the line that was put in.
proof fn lemma_follows(
    s: Seq<char>,
    m: Seq<bool>,
    t: Seq<char>,
    l: Seq<bool>,
    q: int,
    n: int,
    i: int,
)
    requires
        grown(s, m, t, l, q, n),
        0 <= i <= q,
        skip_space(t, q) < q + n,
        t[skip_space(t, q)] != '(',
        starts_with(trim_start(t.subrange(i, t.len() as int)), "("@),
    ensures
        starts_with(trim_start(s.subrange(i, s.len() as int)), "("@),
{
    reveal_strlit("(");
    let rest = t.subrange(i, t.len() as int);
    let old = s.subrange(i, s.len() as int);
    let k = skip_space(rest, 0);
    crate::instrument::insertion::lemma_skip_grows(rest, 0);
    assert(rest.subrange(k, rest.len() as int).subrange(0, 1)[0] == rest[k]);
    assert(rest[k] == '(');
    lemma_skip_at(t, i, 0);
    assert(t[i + k] == '(');
    if i + k < q {
        assert forall|x: int| 0 <= x <= k implies #[trigger] old[x] == rest[x] by {
            assert(t[i + x] == s[i + x]);
        }
        crate::instrument::insertion::lemma_skip_same(rest, old, 0);
        assert(old.subrange(k, old.len() as int).subrange(0, 1) =~= "("@);
    } else {
        crate::instrument::insertion::lemma_skip_same(rest, rest, 0);
        lemma_skip_through(t, i, q, i + k);
    }
}

proof fn lemma_skip_at(t: Seq<char>, i: int, k: int)
    requires
        0 <= i <= t.len(),
        0 <= k,
    ensures
        skip_space(t, i + k) == i + skip_space(t.subrange(i, t.len() as int), k),
    decreases t.len() - i - k,
{
    let rest = t.subrange(i, t.len() as int);
    if i + k < t.len() && is_space(t[i + k]) {
        assert(rest[k] == t[i + k]);
        lemma_skip_at(t, i, k + 1);
    } else if i + k < t.len() {
        assert(rest[k] == t[i + k]);
    }
}

/// White space that reaches over a place ends where it does from there.
proof fn lemma_skip_through(t: Seq<char>, i: int, q: int, e: int)
    requires
        0 <= i <= q <= e,
        skip_space(t, i) == e,
    ensures
        skip_space(t, q) == e,
    decreases q - i,
{
    if i < q {
        assert(i < t.len() && is_space(t[i]));
        lemma_skip_through(t, i + 1, q, e);
    }
}

/// Traps are asked about no more than before, and less often where one is met.
proof fn lemma_traps_fewer(
    s: Seq<char>,
    m: Seq<bool>,
    t: Seq<char>,
    l: Seq<bool>,
    q: int,
    n: int,
    i: int,
    ps: spec_fn(int) -> bool,
    pt: spec_fn(int) -> bool,
    p0: int,
)
    requires
        grown(s, m, t, l, q, n),
        0 < q,
        0 < n,
        s[q - 1] == '\n',
        t[q + n - 1] == '\n',
        0 <= i <= q,
        forall|k: int| q <= k < q + n ==> !#[trigger] name_match(t, l, k, "Debug.trap"@),
        skip_space(t, q) < q + n,
        t[skip_space(t, q)] != '(',
        forall|k: int| 0 <= k < q && #[trigger] pt(k) ==> ps(k),
        forall|k: int| q <= k < s.len() && pt(k + n) ==> #[trigger] ps(k),
        traps_from(s, m, i).contains(p0),
        q <= p0,
        ps(p0),
        !pt(p0 + n),
    ensures
        tally(traps_from(t, l, i), pt) < tally(traps_from(s, m, i), ps),
    decreases q - i,
{
    reveal_strlit("Debug.trap");
    let p = "Debug.trap"@;
    lemma_find_name(s, m, p, i);
    lemma_find_over(s, m, t, l, q, n, p, i);
    let xs = traps_from(s, m, i);
    let ys = traps_from(t, l, i);
    match find_name(s, m, p, i) {
        Some(at) if at < q => {
            let next = at + 10;
            let rest = traps_from(s, m, next);
            let later = traps_from(t, l, next);
            if starts_with(trim_start(t.subrange(next, t.len() as int)), "("@) {
                lemma_follows(s, m, t, l, q, n, next);
            }
            lemma_tally_add(seq![at], rest, ps);
            lemma_tally_add(seq![at], later, pt);
            lemma_tally_one(at, ps);
            lemma_tally_one(at, pt);
            assert(rest.contains(p0)) by {
                let j = choose|j: int| 0 <= j < xs.len() && xs[j] == p0;
                if starts_with(trim_start(s.subrange(next, s.len() as int)), "("@) {
                    assert(xs =~= seq![at] + rest);
                    assert(j > 0);
                    assert(rest[j - 1] == p0);
                } else {
                    assert(rest[j] == p0);
                }
            }
            lemma_traps_fewer(s, m, t, l, q, n, next, ps, pt, p0);
            assert(pt(at) ==> ps(at));
        },
        _ => {
            assert(xs == traps_from(s, m, q));
            assert(ys == traps_from(t, l, q + n));
            lemma_traps_far(s, m, t, l, q, n, q);
            lemma_traps_in(s, m, q);
            assert forall|k: int| 0 <= k < xs.len() && pt(ys[k]) implies ps(#[trigger] xs[k]) by {
                assert(ys[k] == xs[k] + n);
            }
            lemma_fewer(xs, ys, n, ps, pt);
            let j = choose|j: int| 0 <= j < xs.len() && xs[j] == p0;
            assert(ps(xs[j]));
        },
    }
}

proof fn lemma_traps_in(s: Seq<char>, m: Seq<bool>, i: int)
    ensures
        forall|k: int|
            0 <= k < traps_from(s, m, i).len() ==> 0 <= i <= #[trigger] traps_from(s, m, i)[k]
                && traps_from(s, m, i)[k] + 10 <= s.len(),
    decreases s.len() - i,
{
    reveal_strlit("Debug.trap");
    let p = "Debug.trap"@;
    lemma_find_name(s, m, p, i);
    if let Some(at) = find_name(s, m, p, i) {
        let rest = traps_from(s, m, at + 10);
        let all = traps_from(s, m, i);
        lemma_traps_in(s, m, at + 10);
        assert forall|k: int| 0 <= k < all.len() implies 0 <= i <= #[trigger] all[k] && all[k] + 10
            <= s.len() by {
            if all.len() == rest.len() {
                assert(all[k] == rest[k]);
            } else if k > 0 {
                assert(all[k] == rest[k - 1]);
            }
        }
    }
}

// ---------- The note above a line ----------

/// How often a list of traps is asked about.
proof fn lemma_trap_tally(f: FuncView, tracer: Seq<char>, src: Seq<char>, n: nat)
    requires
        n <= f.traps.len(),
    ensures
        trap_notes(f, tracer, src, n).len() == tally(
            f.traps.subrange(0, n as int),
            |p: int| trap_note(f, tracer, p, src) is Some,
        ),
    decreases n,
{
    let w = |p: int| trap_note(f, tracer, p, src) is Some;
    if n > 0 {
        lemma_trap_tally(f, tracer, src, (n - 1) as nat);
        let before = f.traps.subrange(0, n - 1);
        assert(f.traps.subrange(0, n as int) =~= before + seq![f.traps[n - 1]]);
        lemma_tally_add(before, seq![f.traps[n - 1]], w);
        lemma_tally_one(f.traps[n - 1], w);
    } else {
        assert(f.traps.subrange(0, 0) =~= Seq::<int>::empty());
    }
}

/// The body of a function is read as its part of the actor, where code ends.
proof fn lemma_body_reads(b: Seq<char>, i: int, j: int, k: int)
    requires
        0 < i <= j <= b.len(),
        mask(b)[i - 1],
        b[i - 1] != '/',
        0 < k <= j - i,
        mask(b)[i + k - 1],
        b[i + k - 1] != '/',
    ensures
        mask(b.subrange(i, j))[k - 1],
{
    let rest = b.subrange(i, b.len() as int);
    let part = b.subrange(i, j);
    lemma_mask_len(b);
    lemma_complete_start(b, i);
    lemma_mask_len(b.subrange(0, i));
    lemma_mask_len(rest);
    assert(mask(b)[i + k - 1] == mask(rest)[k - 1]);
    lemma_complete_start(rest, k);
    let head = rest.subrange(0, k);
    assert(part.subrange(0, k) =~= head);
    assert(part =~= head + part.subrange(k, part.len() as int));
    lemma_complete(head, part.subrange(k, part.len() as int));
    lemma_mask_len(head);
}

/// The line that a note is, put in before the line that holds `place`.
proof fn lemma_note_line(
    src: Seq<char>,
    place: int,
    tracer: Seq<char>,
    name: Seq<char>,
    label: Seq<char>,
)
    requires
        0 <= place <= src.len(),
        0 < line_start(src, place),
        is_name(tracer),
        tracer.len() > 0,
        is_name(name),
        forall|k: int|
            0 <= k < label.len() ==> #[trigger] label[k] != '"' && label[k] != '\\' && label[k]
                != '\n',
    ensures
        ({
            let x = note_text(lead_of(src, place), tracer, name, label);
            let e = lead_of(src, place).len() + tracer.len() + 6 + name.len() + label.len() + 2;
            &&& line_put(src, line_start(src, place), x)
            &&& complete(x)
            &&& crate::instrument::motoko::second_pass::no_braces(x)
            &&& contains(
                line_before(inserted(src, line_start(src, place), x), place + x.len()),
                label + seq!['"'],
            )
            &&& x == lead_of(src, place) + tracer + ".note(\""@ + name + (label + seq!['"']
                + ");\n"@)
            &&& x.len() == e + 3
            &&& mask(x).len() == x.len()
            &&& forall|k: int|
                0 <= k < x.len() && #[trigger] mask(x)[k] ==> k < lead_of(src, place).len()
                    + tracer.len() + 6 || e <= k
        }),
{
    reveal_strlit(".note(");
    reveal_strlit(".note(\"");
    reveal_strlit(");\n");
    let lead = lead_of(src, place);
    lemma_lead(src, place);
    lemma_line_start(src, place);
    assert(is_plain(lead)) by {
        assert forall|i: int| 0 <= i < lead.len() implies #[trigger] lead[i] != '/' && lead[i]
            != '"' && lead[i] != '{' && lead[i] != '}' by {
            assert(is_space(lead[i]));
        }
    }
    lemma_note_text(lead, tracer, name, label);
    let p = lead + tracer + ".note("@;
    let y = name + label;
    lemma_with_literal(p, y, ");\n"@);
    let x = note_text(lead, tracer, name, label);
    let mark = label + seq!['"'];
    let text = lead + tracer + ".note(\""@ + name + (mark + ");\n"@);
    assert(x =~= text);
    assert forall|k: int| 0 <= k < x.len() - 1 implies #[trigger] x[k] != '\n' by {
        if k < lead.len() {
            assert(x[k] == lead[k]);
        } else if k < lead.len() + tracer.len() {
            assert(x[k] == tracer[k - lead.len()]);
            assert(is_ident_char(tracer[k - lead.len()]));
        } else if k < p.len() + 1 {
            assert(x[k] == ".note(\""@[k - lead.len() - tracer.len()]);
        } else if k < p.len() + 1 + name.len() {
            assert(x[k] == name[k - p.len() - 1]);
            assert(is_ident_char(name[k - p.len() - 1]));
        } else if k < p.len() + 1 + y.len() {
            assert(x[k] == label[k - p.len() - 1 - name.len()]);
        } else if k == p.len() + 1 + y.len() {
            assert(x[k] == '"');
        } else {
            assert(x[k] == ");\n"@[k - p.len() - 2 - y.len()]);
        }
    }
    assert(x[x.len() - 1] == ");\n"@[2]);
    assert forall|i: int| 0 <= i < tracer.len() implies #[trigger] tracer[i] != '\n' by {
        assert(is_ident_char(tracer[i]));
    }
    assert forall|i: int| 0 <= i < name.len() implies #[trigger] name[i] != '\n' by {
        assert(is_ident_char(name[i]));
    }
    lemma_above(src, place, tracer, name, mark, mark + ");\n"@);
}

/// The text of a note holds no trap.
proof fn lemma_no_trap(
    t: Seq<char>,
    l: Seq<bool>,
    q: int,
    lead: Seq<char>,
    tracer: Seq<char>,
    y: Seq<char>,
    k: int,
)
    requires
        forall|i: int| 0 <= i < lead.len() ==> is_space(#[trigger] lead[i]),
        is_name(tracer),
        ({
            let x = with_literal(lead + tracer + ".note("@, y, ");\n"@);
            let e = lead.len() + tracer.len() + 6 + y.len() + 2;
            &&& 0 <= q && q + x.len() <= t.len()
            &&& forall|i: int| q <= i < q + x.len() ==> #[trigger] t[i] == x[i - q]
            &&& forall|i: int|
                q <= i < q + x.len() && #[trigger] l[i] ==> i - q < lead.len() + tracer.len() + 6
                    || e <= i - q
            &&& q <= k < q + x.len()
        }),
    ensures
        !name_match(t, l, k, "Debug.trap"@),
{
    reveal_strlit("Debug.trap");
    reveal_strlit(".note(");
    reveal_strlit(");\n");
    let p = lead + tracer + ".note("@;
    let x = with_literal(p, y, ");\n"@);
    let e = p.len() + y.len() + 2;
    if name_match(t, l, k, "Debug.trap"@) {
        let w = t.subrange(k, k + 10);
        let j = k - q;
        let end = q + x.len() - 1;
        if k + 10 > q + x.len() {
            assert(w[end - k] == t[end]);
            assert(t[end] == x[x.len() - 1]);
            assert(x[x.len() - 1] == ");\n"@[2]);
        } else if j < p.len() {
            if p.len() <= j + 9 {
                let i = q + p.len();
                assert(l[i]);
            }
            assert(w[5] == t[k + 5] && w[6] == t[k + 6]);
            assert(t[k + 5] == x[j + 5] && t[k + 6] == x[j + 6]);
            assert(x[j + 5] == p[j + 5] && x[j + 6] == p[j + 6]);
            if j + 5 < lead.len() {
                assert(p[j + 5] == lead[j + 5]);
                assert(is_space(lead[j + 5]));
            } else if j + 5 < lead.len() + tracer.len() {
                assert(p[j + 5] == tracer[j + 5 - lead.len()]);
                assert(is_ident_char(tracer[j + 5 - lead.len()]));
            } else {
                let z = j + 5 - lead.len() - tracer.len();
                assert(p[j + 5] == ".note("@[z]);
                assert(p[j + 6] == ".note("@[z + 1]);
            }
        } else {
            assert(l[k]);
        }
    }
}

proof fn lemma_spaces_to(s: Seq<char>, i: int, k: int)
    requires
        0 <= i <= k < s.len(),
        !is_space(s[k]),
        forall|x: int| i <= x < k ==> is_space(#[trigger] s[x]),
    ensures
        skip_space(s, i) == k,
    decreases k - i,
{
    if i < k {
        lemma_spaces_to(s, i + 1, k);
    }
}

/// What is known of the body of a function, as a part of the file, where a note goes above a line.
proof fn lemma_note_place(src: Seq<char>, a: ActorView, at: int, place: int)
    requires
        is_read(src, a, at),
        takes_at(src, a, at, line_start(src, place) - a.open),
        a.open <= place <= src.len(),
    ensures
        ({
            let f = function(src, a, at);
            let body = body_of(f, src);
            let k = line_start(src, place) - f.body_open - 1;
            &&& 0 < k <= body.len()
            &&& mask(body)[k - 1]
            &&& body[k - 1] == '\n'
            &&& 0 < line_start(src, place) <= place
            &&& f.body_open + 1 + body.len() == f.body_close
            &&& 0 <= f.body_open
            &&& f.body_close <= src.len()
            &&& forall|x: int|
                0 <= x < body.len() ==> #[trigger] body[x] == src[f.body_open + 1 + x]
        }),
{
    let b = inside(src, a);
    let h = shape_at(b, mask(b), at)->0;
    let q = line_start(src, place) - a.open;
    let k = q - h.body_open - 1;
    lemma_read(src, a, at);
    lemma_mask_len(b);
    lemma_shape_order(b, mask(b), at);
    lemma_line_start(src, place);
    lemma_part_of_part(src, a.open, a.close, h.body_open + 1, h.body_close);
    assert(b[q - 1] == src[a.open + q - 1]);
    assert(b[h.body_open] == '{');
    assert(k > 0);
    lemma_body_reads(b, h.body_open + 1, h.body_close, k);
}

/// What is known of a function that has grown, in short.
proof fn lemma_grown_body(
    src: Seq<char>,
    a: ActorView,
    at: int,
    q: int,
    x: Seq<char>,
    c: ActorView,
    g: FuncView,
)
    requires
        has_grown(src, a, at, q, x, c, g),
    ensures
        ({
            let f = function(src, a, at);
            let grew = inserted(body_of(f, src), q - (f.body_open - a.open) - 1, x);
            &&& c.tracer == a.tracer
            &&& g.name == f.name
            &&& g.body_open == f.body_open
            &&& g.traps == traps(grew)
            &&& g.throws == throws(grew)
        }),
{
    reveal(has_grown);
    reveal(is_of_body);
}

/// A note was put above the line that holds `place`, and the file is read again.
proof fn lemma_put_note(
    src: Seq<char>,
    path: Seq<char>,
    a: ActorView,
    at: int,
    place: int,
    label: Seq<char>,
    c: CandidateView,
    new: Seq<char>,
    rule: Rule,
) -> (r: (ActorView, FuncView))
    requires
        is_read(src, a, at),
        distinct(a.funcs),
        takes_at(src, a, at, line_start(src, place) - a.open),
        a.open <= place <= src.len(),
        forall|k: int|
            0 <= k < label.len() ==> #[trigger] label[k] != '"' && label[k] != '\\' && label[k]
                != '\n',
        c.start == byte_at(src, line_start(src, place)),
        c.end == c.start,
        c.replacement == ReplacementView::InsertRaw(
            note_text(lead_of(src, place), a.tracer, function(src, a, at).name, label),
        ),
        is_applied(src, c, new),
    ensures
        ({
            let f = function(src, a, at);
            let (d, g) = r;
            let body = body_of(f, src);
            let start = line_start(src, place);
            let lead = lead_of(src, place);
            let k = start - f.body_open - 1;
            let y = f.name + label;
            let x = note_text(lead, a.tracer, f.name, label);
            &&& forall|i: int| 0 <= i < lead.len() ==> is_space(#[trigger] lead[i])
            &&& start <= place
            &&& line_put(src, start, x)
            &&& complete(x)
            &&& forall|i: int|
                0 <= i < x.len() && #[trigger] mask(x)[i] ==> i < lead.len() + a.tracer.len() + 6
                    || lead.len() + a.tracer.len() + 6 + y.len() + 2 <= i
            &&& 0 < k <= body.len()
            &&& mask(body)[k - 1]
            &&& body[k - 1] == '\n'
            &&& new == inserted(src, start, x)
            &&& contains(line_before(new, place + x.len()), label + seq!['"'])
            &&& d.tracer == a.tracer
            &&& g.name == f.name
            &&& g.body_open == f.body_open
            &&& g.traps == traps(inserted(body, k, x))
            &&& g.throws == throws(inserted(body, k, x))
            &&& a.funcs.contains(f)
            &&& asks(src, path, rule, f.name) == tally(func_edits(f, a, src), is_for(rule, f.name))
            &&& asks(new, path, rule, f.name) == tally(func_edits(g, d, new), is_for(rule, f.name))
        }),
{
    let f = function(src, a, at);
    let start = line_start(src, place);
    let q = start - a.open;
    lemma_read(src, a, at);
    lemma_name_of(src, a, at);
    lemma_note_place(src, a, at, place);
    let x = note_text(lead_of(src, place), a.tracer, f.name, label);
    lemma_note_line(src, place, a.tracer, f.name, label);
    lemma_applied(src, c, new, start, x);
    let (d, g) = lemma_second_pass(src, path, a, at, q, x, rule);
    lemma_grown_body(src, a, at, q, x, d, g);
    lemma_lead(src, place);
    (d, g)
}

proof fn lemma_note_parts(
    lead: Seq<char>,
    tracer: Seq<char>,
    name: Seq<char>,
    label: Seq<char>,
    closing: Seq<char>,
)
    requires
        closing == label + seq!['"'] + ");\n"@,
    ensures
        lead + tracer + ".note(\""@ + name + closing == note_text(lead, tracer, name, label),
{
    reveal_strlit(".note(");
    reveal_strlit(".note(\"");
    assert(lead + tracer + ".note(\""@ + name + closing =~= note_text(
        lead,
        tracer,
        name,
        label,
    ));
}

/// Traps are asked about less often once one of them is noted.
proof fn lemma_noted_traps(
    f: FuncView,
    g: FuncView,
    tracer: Seq<char>,
    src: Seq<char>,
    new: Seq<char>,
    body: Seq<char>,
    x: Seq<char>,
    p0: int,
)
    requires
        0 <= f.body_open,
        f.body_open + 1 + body.len() <= src.len(),
        g.body_open == f.body_open,
        f.traps == traps(body),
        f.traps.contains(p0),
        0 <= p0 < body.len(),
        trap_note(f, tracer, p0, src) is Some,
        is_name(tracer),
        tracer.len() > 0,
        ({
            let place = f.body_open + 1 + p0;
            let start = line_start(src, place);
            let lead = lead_of(src, place);
            let k = start - f.body_open - 1;
            let y = f.name + ":trapped"@;
            &&& forall|i: int| 0 <= i < lead.len() ==> is_space(#[trigger] lead[i])
            &&& x == with_literal(lead + tracer + ".note("@, y, ");\n"@)
            &&& start <= place
            &&& line_put(src, start, x)
            &&& complete(x)
            &&& forall|i: int|
                0 <= i < x.len() && #[trigger] mask(x)[i] ==> i < lead.len() + tracer.len() + 6
                    || lead.len() + tracer.len() + 6 + y.len() + 2 <= i
            &&& 0 < k <= body.len()
            &&& mask(body)[k - 1]
            &&& body[k - 1] == '\n'
            &&& new == inserted(src, start, x)
            &&& g.traps == traps(inserted(body, k, x))
            &&& contains(line_before(new, place + x.len()), ":trapped\""@)
        }),
    ensures
        trap_notes(g, tracer, new, g.traps.len()).len() < trap_notes(
            f,
            tracer,
            src,
            f.traps.len(),
        ).len(),
{
    let base = f.body_open + 1;
    let place = base + p0;
    let start = line_start(src, place);
    let k = start - base;
    let n = x.len() as int;
    let grew = inserted(body, k, x);
    let lead = lead_of(src, place);
    lemma_trap_tally(f, tracer, src, f.traps.len());
    lemma_trap_tally(g, tracer, new, g.traps.len());
    assert(f.traps.subrange(0, f.traps.len() as int) =~= f.traps);
    assert(g.traps.subrange(0, g.traps.len() as int) =~= g.traps);
    let ps = |p: int| trap_note(f, tracer, p, src) is Some;
    let pt = |p: int| trap_note(g, tracer, p, new) is Some;
    lemma_grown(body, k, x);
    assert forall|i: int| k <= i < k + n implies !#[trigger] name_match(
        grew,
        mask(grew),
        i,
        "Debug.trap"@,
    ) by {
        lemma_no_trap(grew, mask(grew), k, lead, tracer, f.name + ":trapped"@, i);
    }
    lemma_note_start(grew, k, lead, tracer, f.name + ":trapped"@);
    assert(lead.len() < n);
    assert forall|p: int| 0 <= p < k && #[trigger] pt(p) implies ps(p) by {
        lemma_line_before_stays(src, start, x, base + p);
    }
    assert forall|p: int| k <= p < body.len() && pt(p + n) implies #[trigger] ps(p) by {
        lemma_line_before_stays(src, start, x, base + p);
        if line_start(src, base + p) == start {
            lemma_same_line(src, start, x, place, base + p);
        }
    }
    assert(!pt(p0 + n));
    assert(grew[k + n - 1] == x[n - 1]);
    lemma_traps_fewer(body, mask(body), grew, mask(grew), k, n, 0, ps, pt, p0);
}

/// Once a trap is noted as the rule asks, a second pass over the file asks for fewer such notes in
/// the function.
pub proof fn law_second_pass_wants_fewer_trap_notes(
    src: Seq<char>,
    path: Seq<char>,
    a: ActorView,
    at: int,
    p0: int,
    c: CandidateView,
    new: Seq<char>,
)
    requires
        is_read(src, a, at),
        distinct(a.funcs),
        function(src, a, at).traps.contains(p0),
        trap_note(function(src, a, at), a.tracer, p0, src) == Some(c),
        takes_at(
            src,
            a,
            at,
            line_start(src, function(src, a, at).body_open + 1 + p0) - a.open,
        ),
        is_applied(src, c, new),
    ensures
        detected(src, path).contains(c),
        asks(new, path, Rule::MoTrapNote, c.fn_name) < asks(
            src,
            path,
            Rule::MoTrapNote,
            c.fn_name,
        ),
{
    reveal_strlit(":trapped");
    reveal_strlit(":trapped\"");
    reveal_strlit(":trapped\");\n");
    reveal_strlit(");\n");
    let f = function(src, a, at);
    let body = body_of(f, src);
    let base = f.body_open + 1;
    let place = base + p0;
    let start = line_start(src, place);
    lemma_read(src, a, at);
    lemma_name_of(src, a, at);
    lemma_traps_of(src, a, at);
    lemma_traps_in(body, mask(body), 0);
    let j0 = choose|j: int| 0 <= j < f.traps.len() && f.traps[j] == p0;
    assert(traps_from(body, mask(body), 0)[j0] == p0);
    lemma_open_order(src, a, at);
    let x = note_text(lead_of(src, place), a.tracer, f.name, ":trapped"@);
    assert(":trapped"@ + seq!['"'] =~= ":trapped\""@);
    assert(":trapped\");\n"@ =~= ":trapped"@ + seq!['"'] + ");\n"@);
    lemma_note_parts(
        lead_of(src, place),
        a.tracer,
        f.name,
        ":trapped"@,
        ":trapped\");\n"@,
    );
    let (d, g) = lemma_put_note(
        src,
        path,
        a,
        at,
        place,
        ":trapped"@,
        c,
        new,
        Rule::MoTrapNote,
    );
    lemma_func_asks(f, a, src, Rule::MoTrapNote, f.name);
    lemma_func_asks(g, d, new, Rule::MoTrapNote, f.name);
    lemma_noted_traps(f, g, a.tracer, src, new, body, x, p0);
    lemma_trap_listed(f, a.tracer, src, f.traps.len(), j0, c);
    lemma_in_parts(f, a, src, c);
    lemma_is_found(src, path, a, f, c);
}

proof fn lemma_trap_listed(
    f: FuncView,
    tracer: Seq<char>,
    src: Seq<char>,
    n: nat,
    j: int,
    c: CandidateView,
)
    requires
        0 <= j < n <= f.traps.len(),
        trap_note(f, tracer, f.traps[j], src) == Some(c),
    ensures
        trap_notes(f, tracer, src, n).contains(c),
    decreases n,
{
    let before = trap_notes(f, tracer, src, (n - 1) as nat);
    let own = listed(trap_note(f, tracer, f.traps[n - 1], src));
    if j < n - 1 {
        lemma_trap_listed(f, tracer, src, (n - 1) as nat, j, c);
        let i = choose|i: int| 0 <= i < before.len() && before[i] == c;
        assert((before + own)[i] == c);
    } else {
        assert((before + own)[before.len() as int] == c);
    }
}

/// The traps of a function are those of its body.
proof fn lemma_traps_of(src: Seq<char>, a: ActorView, at: int)
    requires
        is_read(src, a, at),
    ensures
        function(src, a, at).traps == traps(body_of(function(src, a, at), src)),
        function(src, a, at).throws == throws(body_of(function(src, a, at), src)),
{
    let b = inside(src, a);
    let h = shape_at(b, mask(b), at)->0;
    lemma_read(src, a, at);
    lemma_mask_len(b);
    lemma_shape_order(b, mask(b), at);
    lemma_part_of_part(src, a.open, a.close, h.body_open + 1, h.body_close);
}

proof fn lemma_open_order(src: Seq<char>, a: ActorView, at: int)
    requires
        is_read(src, a, at),
    ensures
        ({
            let f = function(src, a, at);
            a.open <= f.body_open < f.body_close <= a.close <= src.len() && body_of(f, src).len()
                == f.body_close - f.body_open - 1
        }),
{
    let b = inside(src, a);
    lemma_read(src, a, at);
    lemma_mask_len(b);
    lemma_shape_order(b, mask(b), at);
}

/// A note begins with white space and then the name of the tracer.
proof fn lemma_note_start(
    t: Seq<char>,
    q: int,
    lead: Seq<char>,
    tracer: Seq<char>,
    y: Seq<char>,
)
    requires
        forall|i: int| 0 <= i < lead.len() ==> is_space(#[trigger] lead[i]),
        is_name(tracer),
        tracer.len() > 0,
        ({
            let x = with_literal(lead + tracer + ".note("@, y, ");\n"@);
            0 <= q && q + x.len() <= t.len() && forall|i: int|
                q <= i < q + x.len() ==> #[trigger] t[i] == x[i - q]
        }),
    ensures
        skip_space(t, q) == q + lead.len(),
        t[q + lead.len()] != '(',
{
    reveal_strlit(".note(");
    let p = lead + tracer + ".note("@;
    let x = with_literal(p, y, ");\n"@);
    let k = q + lead.len();
    assert(t[k] == x[lead.len() as int]);
    assert(x[lead.len() as int] == p[lead.len() as int]);
    assert(p[lead.len() as int] == tracer[0]);
    assert(is_ident_char(tracer[0]));
    assert forall|i: int| q <= i < k implies is_space(#[trigger] t[i]) by {
        assert(t[i] == x[i - q]);
        assert(x[i - q] == lead[i - q]);
    }
    lemma_spaces_to(t, q, k);
}

// ---------- Throws ----------

proof fn lemma_word_far(
    s: Seq<char>,
    m: Seq<bool>,
    t: Seq<char>,
    l: Seq<bool>,
    q: int,
    n: int,
    i: int,
    w: Seq<char>,
)
    requires
        grown(s, m, t, l, q, n),
        0 < q,
        0 < n,
        s[q - 1] == '\n',
        t[q + n - 1] == '\n',
        q <= i,
        w.len() > 0,
    ensures
        word_at(t, l, i + n, w) == word_at(s, m, i, w),
{
    if i > q {
        lemma_word_after(s, m, t, l, q, n, i, w);
    } else if i + w.len() <= s.len() {
        assert(t.subrange(i + n, i + n + w.len()) =~= s.subrange(i, i + w.len()));
        if i + w.len() < s.len() {
            assert(t[i + n + w.len()] == s[i + w.len()]);
        }
        if code_match(s, m, i, w) {
            assert forall|k: int| i + n <= k < i + n + w.len() implies #[trigger] l[k] by {
                assert(l[k] == m[k - n] && m[k - n]);
            }
        }
        if code_match(t, l, i + n, w) {
            assert forall|k: int| i <= k < i + w.len() implies #[trigger] m[k] by {
                assert(l[k + n] == m[k] && l[k + n]);
            }
        }
    }
}

proof fn lemma_words_far(
    s: Seq<char>,
    m: Seq<bool>,
    t: Seq<char>,
    l: Seq<bool>,
    q: int,
    n: int,
    w: Seq<char>,
    i: int,
)
    requires
        grown(s, m, t, l, q, n),
        0 < q,
        0 < n,
        s[q - 1] == '\n',
        t[q + n - 1] == '\n',
        q <= i,
        w.len() > 0,
    ensures
        words_from(t, l, w, i + n).len() == words_from(s, m, w, i).len(),
        forall|k: int|
            0 <= k < words_from(s, m, w, i).len() ==> #[trigger] words_from(t, l, w, i + n)[k]
                == words_from(s, m, w, i)[k] + n,
    decreases s.len() - i,
{
    if i < s.len() {
        lemma_word_far(s, m, t, l, q, n, i, w);
        lemma_words_far(s, m, t, l, q, n, w, i + 1);
    }
}

proof fn lemma_words_in(s: Seq<char>, m: Seq<bool>, w: Seq<char>, i: int)
    ensures
        forall|k: int|
            0 <= k < words_from(s, m, w, i).len() ==> 0 <= i <= #[trigger] words_from(s, m, w, i)[k]
                < s.len(),
    decreases s.len() - i,
{
    if 0 <= i < s.len() {
        let rest = words_from(s, m, w, i + 1);
        let all = words_from(s, m, w, i);
        lemma_words_in(s, m, w, i + 1);
        assert forall|k: int| 0 <= k < all.len() implies 0 <= i <= #[trigger] all[k] < s.len() by {
            if all.len() == rest.len() {
                assert(all[k] == rest[k]);
            } else if k > 0 {
                assert(all[k] == rest[k - 1]);
            }
        }
    }
}

proof fn lemma_words_pass(t: Seq<char>, l: Seq<bool>, q: int, n: int, w: Seq<char>, i: int)
    requires
        0 <= q <= i <= q + n <= t.len(),
        forall|k: int| q <= k < q + n ==> !#[trigger] word_at(t, l, k, w),
    ensures
        words_from(t, l, w, i) == words_from(t, l, w, q + n),
    decreases q + n - i,
{
    if i < q + n {
        assert(!word_at(t, l, i, w));
        lemma_words_pass(t, l, q, n, w, i + 1);
    }
}

proof fn lemma_word_near(
    s: Seq<char>,
    m: Seq<bool>,
    t: Seq<char>,
    l: Seq<bool>,
    q: int,
    n: int,
    i: int,
    w: Seq<char>,
)
    requires
        grown(s, m, t, l, q, n),
        0 < q,
        s[q - 1] == '\n',
        0 <= i < q,
        forall|k: int| 0 <= k < w.len() ==> #[trigger] w[k] != '\n',
    ensures
        word_at(t, l, i, w) == word_at(s, m, i, w),
{
    if i + w.len() < q {
        lemma_word_before(s, m, t, l, q, n, i, w);
    } else {
        assert(t[q - 1] == s[q - 1]);
        if word_at(s, m, i, w) {
            assert(s.subrange(i, i + w.len())[q - 1 - i] == s[q - 1]);
        }
        if word_at(t, l, i, w) {
            assert(t.subrange(i, i + w.len())[q - 1 - i] == t[q - 1]);
        }
    }
}

/// Words are asked about less often where one is met.
proof fn lemma_words_fewer(
    s: Seq<char>,
    m: Seq<bool>,
    t: Seq<char>,
    l: Seq<bool>,
    q: int,
    n: int,
    w: Seq<char>,
    i: int,
    ps: spec_fn(int) -> bool,
    pt: spec_fn(int) -> bool,
    p0: int,
)
    requires
        grown(s, m, t, l, q, n),
        0 < q,
        0 < n,
        s[q - 1] == '\n',
        t[q + n - 1] == '\n',
        0 <= i <= q,
        w.len() > 0,
        forall|k: int| 0 <= k < w.len() ==> #[trigger] w[k] != '\n',
        forall|k: int| q <= k < q + n ==> !#[trigger] word_at(t, l, k, w),
        forall|k: int| 0 <= k < q && #[trigger] pt(k) ==> ps(k),
        forall|k: int| q <= k < s.len() && pt(k + n) ==> #[trigger] ps(k),
        words_from(s, m, w, i).contains(p0),
        q <= p0,
        ps(p0),
        !pt(p0 + n),
    ensures
        tally(words_from(t, l, w, i), pt) < tally(words_from(s, m, w, i), ps),
    decreases q - i,
{
    let xs = words_from(s, m, w, i);
    let ys = words_from(t, l, w, i);
    let j = choose|j: int| 0 <= j < xs.len() && xs[j] == p0;
    if i < q {
        let rest = words_from(s, m, w, i + 1);
        let later = words_from(t, l, w, i + 1);
        lemma_word_near(s, m, t, l, q, n, i, w);
        assert(rest.contains(p0)) by {
            if word_at(s, m, i, w) {
                assert(rest[j - 1] == p0);
            } else {
                assert(rest[j] == p0);
            }
        }
        lemma_words_fewer(s, m, t, l, q, n, w, i + 1, ps, pt, p0);
        lemma_tally_add(seq![i], rest, ps);
        lemma_tally_add(seq![i], later, pt);
        lemma_tally_one(i, ps);
        lemma_tally_one(i, pt);
        assert(pt(i) ==> ps(i));
    } else {
        lemma_words_pass(t, l, q, n, w, q);
        lemma_words_far(s, m, t, l, q, n, w, q);
        lemma_words_in(s, m, w, q);
        assert forall|k: int| 0 <= k < xs.len() && pt(ys[k]) implies ps(#[trigger] xs[k]) by {
            assert(ys[k] == xs[k] + n);
        }
        lemma_fewer(xs, ys, n, ps, pt);
        assert(ps(xs[j]));
    }
}

/// The text of a note holds no `throw`.
proof fn lemma_no_throw(
    t: Seq<char>,
    l: Seq<bool>,
    q: int,
    lead: Seq<char>,
    tracer: Seq<char>,
    y: Seq<char>,
    k: int,
)
    requires
        forall|i: int| 0 <= i < lead.len() ==> is_space(#[trigger] lead[i]),
        is_name(tracer),
        tracer != "throw"@,
        ({
            let x = with_literal(lead + tracer + ".note("@, y, ");\n"@);
            let e = lead.len() + tracer.len() + 6 + y.len() + 2;
            &&& 0 <= q && q + x.len() <= t.len()
            &&& forall|i: int| q <= i < q + x.len() ==> #[trigger] t[i] == x[i - q]
            &&& forall|i: int|
                q <= i < q + x.len() && #[trigger] l[i] ==> i - q < lead.len() + tracer.len() + 6
                    || e <= i - q
            &&& q <= k < q + x.len()
        }),
    ensures
        !word_at(t, l, k, "throw"@),
{
    reveal_strlit("throw");
    reveal_strlit(".note(");
    reveal_strlit(");\n");
    let p = lead + tracer + ".note("@;
    let x = with_literal(p, y, ");\n"@);
    if word_at(t, l, k, "throw"@) {
        let w = t.subrange(k, k + 5);
        let j = k - q;
        let end = q + x.len() - 1;
        let a = lead.len() as int;
        let b = a + tracer.len();
        assert(w[0] == t[k] && w[1] == t[k + 1] && w[2] == t[k + 2] && w[3] == t[k + 3] && w[4]
            == t[k + 4]);
        if k + 5 > q + x.len() {
            assert(w[end - k] == t[end]);
            assert(t[end] == x[x.len() - 1]);
            assert(x[x.len() - 1] == ");\n"@[2]);
        } else if j < p.len() {
            if p.len() <= j + 4 {
                let i = q + p.len();
                assert(l[i]);
            }
            assert(t[k] == x[j] && x[j] == p[j]);
            if j < a {
                assert(p[j] == lead[j]);
                assert(is_space(lead[j]));
            } else if j < b {
                if j > a {
                    assert(t[k - 1] == x[j - 1] && x[j - 1] == p[j - 1]);
                    assert(p[j - 1] == tracer[j - 1 - a]);
                    assert(is_ident_char(tracer[j - 1 - a]));
                } else if b <= a + 4 {
                    assert(t[q + b] == x[b] && x[b] == p[b]);
                    assert(p[b] == ".note("@[0]);
                    assert(w[b - a] == t[q + b]);
                } else if b == a + 5 {
                    assert forall|i: int| 0 <= i < 5 implies tracer[i]
                        == #[trigger] "throw"@[i] by {
                        assert(t[q + a + i] == x[a + i] && x[a + i] == p[a + i]);
                        assert(p[a + i] == tracer[i]);
                        assert(w[i] == t[k + i]);
                    }
                    assert(tracer =~= "throw"@);
                } else {
                    assert(t[k + 5] == x[j + 5] && x[j + 5] == p[j + 5]);
                    assert(p[j + 5] == tracer[5]);
                    assert(is_ident_char(tracer[5]));
                }
            } else {
                assert(p[j] == ".note("@[j - b]);
            }
        } else {
            assert(l[k]);
        }
    }
}

proof fn lemma_throw_tally(f: FuncView, tracer: Seq<char>, src: Seq<char>, n: nat)
    requires
        n <= f.throws.len(),
    ensures
        rollback_notes(f, tracer, src, n).len() == tally(
            f.throws.subrange(0, n as int),
            |p: int| rollback_note(f, tracer, p, src) is Some,
        ),
    decreases n,
{
    let w = |p: int| rollback_note(f, tracer, p, src) is Some;
    if n > 0 {
        lemma_throw_tally(f, tracer, src, (n - 1) as nat);
        let before = f.throws.subrange(0, n - 1);
        assert(f.throws.subrange(0, n as int) =~= before + seq![f.throws[n - 1]]);
        lemma_tally_add(before, seq![f.throws[n - 1]], w);
        lemma_tally_one(f.throws[n - 1], w);
    } else {
        assert(f.throws.subrange(0, 0) =~= Seq::<int>::empty());
    }
}

/// Throws are asked about less often once one of them is noted.
proof fn lemma_noted_throws(
    f: FuncView,
    g: FuncView,
    tracer: Seq<char>,
    src: Seq<char>,
    new: Seq<char>,
    body: Seq<char>,
    x: Seq<char>,
    p0: int,
)
    requires
        0 <= f.body_open,
        f.body_open + 1 + body.len() <= src.len(),
        g.body_open == f.body_open,
        f.throws == throws(body),
        f.throws.contains(p0),
        0 <= p0 < body.len(),
        rollback_note(f, tracer, p0, src) is Some,
        is_name(tracer),
        tracer != "throw"@,
        ({
            let place = f.body_open + 1 + p0;
            let start = line_start(src, place);
            let lead = lead_of(src, place);
            let k = start - f.body_open - 1;
            let y = f.name + ":rollback"@;
            &&& forall|i: int| 0 <= i < lead.len() ==> is_space(#[trigger] lead[i])
            &&& x == with_literal(lead + tracer + ".note("@, y, ");\n"@)
            &&& start <= place
            &&& line_put(src, start, x)
            &&& complete(x)
            &&& forall|i: int|
                0 <= i < x.len() && #[trigger] mask(x)[i] ==> i < lead.len() + tracer.len() + 6
                    || lead.len() + tracer.len() + 6 + y.len() + 2 <= i
            &&& 0 < k <= body.len()
            &&& mask(body)[k - 1]
            &&& body[k - 1] == '\n'
            &&& new == inserted(src, start, x)
            &&& g.throws == throws(inserted(body, k, x))
            &&& contains(line_before(new, place + x.len()), ":rollback\""@)
        }),
    ensures
        rollback_notes(g, tracer, new, g.throws.len()).len() < rollback_notes(
            f,
            tracer,
            src,
            f.throws.len(),
        ).len(),
{
    reveal_strlit("throw");
    let base = f.body_open + 1;
    let place = base + p0;
    let start = line_start(src, place);
    let k = start - base;
    let n = x.len() as int;
    let grew = inserted(body, k, x);
    let lead = lead_of(src, place);
    lemma_throw_tally(f, tracer, src, f.throws.len());
    lemma_throw_tally(g, tracer, new, g.throws.len());
    assert(f.throws.subrange(0, f.throws.len() as int) =~= f.throws);
    assert(g.throws.subrange(0, g.throws.len() as int) =~= g.throws);
    let ps = |p: int| rollback_note(f, tracer, p, src) is Some;
    let pt = |p: int| rollback_note(g, tracer, p, new) is Some;
    lemma_grown(body, k, x);
    assert forall|i: int| k <= i < k + n implies !#[trigger] word_at(
        grew,
        mask(grew),
        i,
        "throw"@,
    ) by {
        lemma_no_throw(grew, mask(grew), k, lead, tracer, f.name + ":rollback"@, i);
    }
    assert forall|p: int| 0 <= p < k && #[trigger] pt(p) implies ps(p) by {
        lemma_line_before_stays(src, start, x, base + p);
    }
    assert forall|p: int| k <= p < body.len() && pt(p + n) implies #[trigger] ps(p) by {
        lemma_line_before_stays(src, start, x, base + p);
        if line_start(src, base + p) == start {
            lemma_same_line(src, start, x, place, base + p);
        }
    }
    assert(!pt(p0 + n));
    assert(grew[k + n - 1] == x[n - 1]);
    lemma_words_fewer(body, mask(body), grew, mask(grew), k, n, "throw"@, 0, ps, pt, p0);
}

proof fn lemma_throw_listed(
    f: FuncView,
    tracer: Seq<char>,
    src: Seq<char>,
    n: nat,
    j: int,
    c: CandidateView,
)
    requires
        0 <= j < n <= f.throws.len(),
        rollback_note(f, tracer, f.throws[j], src) == Some(c),
    ensures
        rollback_notes(f, tracer, src, n).contains(c),
    decreases n,
{
    let before = rollback_notes(f, tracer, src, (n - 1) as nat);
    let own = listed(rollback_note(f, tracer, f.throws[n - 1], src));
    if j < n - 1 {
        lemma_throw_listed(f, tracer, src, (n - 1) as nat, j, c);
        let i = choose|i: int| 0 <= i < before.len() && before[i] == c;
        assert((before + own)[i] == c);
    } else {
        assert((before + own)[before.len() as int] == c);
    }
}

/// Once a throw is noted as the rule asks, a second pass over the file asks for fewer such notes in
/// the function. The tracer is not named `throw`.
pub proof fn law_second_pass_wants_fewer_rollback_notes(
    src: Seq<char>,
    path: Seq<char>,
    a: ActorView,
    at: int,
    p0: int,
    c: CandidateView,
    new: Seq<char>,
)
    requires
        is_read(src, a, at),
        distinct(a.funcs),
        a.tracer != "throw"@,
        function(src, a, at).throws.contains(p0),
        rollback_note(function(src, a, at), a.tracer, p0, src) == Some(c),
        takes_at(
            src,
            a,
            at,
            line_start(src, function(src, a, at).body_open + 1 + p0) - a.open,
        ),
        is_applied(src, c, new),
    ensures
        detected(src, path).contains(c),
        asks(new, path, Rule::MoRollbackNote, c.fn_name) < asks(
            src,
            path,
            Rule::MoRollbackNote,
            c.fn_name,
        ),
{
    reveal_strlit(":rollback");
    reveal_strlit(":rollback\"");
    reveal_strlit(":rollback\");\n");
    reveal_strlit(");\n");
    let f = function(src, a, at);
    let body = body_of(f, src);
    let base = f.body_open + 1;
    let place = base + p0;
    let start = line_start(src, place);
    lemma_read(src, a, at);
    lemma_name_of(src, a, at);
    lemma_traps_of(src, a, at);
    lemma_words_in(body, mask(body), "throw"@, 0);
    let j0 = choose|j: int| 0 <= j < f.throws.len() && f.throws[j] == p0;
    assert(words_from(body, mask(body), "throw"@, 0)[j0] == p0);
    lemma_open_order(src, a, at);
    let x = note_text(lead_of(src, place), a.tracer, f.name, ":rollback"@);
    assert(":rollback"@ + seq!['"'] =~= ":rollback\""@);
    assert(":rollback\");\n"@ =~= ":rollback"@ + seq!['"'] + ");\n"@);
    lemma_note_parts(
        lead_of(src, place),
        a.tracer,
        f.name,
        ":rollback"@,
        ":rollback\");\n"@,
    );
    let (d, g) = lemma_put_note(
        src,
        path,
        a,
        at,
        place,
        ":rollback"@,
        c,
        new,
        Rule::MoRollbackNote,
    );
    lemma_func_asks(f, a, src, Rule::MoRollbackNote, f.name);
    lemma_func_asks(g, d, new, Rule::MoRollbackNote, f.name);
    lemma_noted_throws(f, g, a.tracer, src, new, body, x, p0);
    lemma_throw_listed(f, a.tracer, src, f.throws.len(), j0, c);
    lemma_in_parts(f, a, src, c);
    lemma_is_found(src, path, a, f, c);
}

} // verus!
