//! A function that was wrapped is not asked about again.

use vstd::prelude::*;
use vstd::utf8::*;

use crate::instrument::agent_js_rerun::lemma_splice_two;
use crate::instrument::edit::{edit_key, flat_all, flat_of, FlatView};
use crate::instrument::insertion::inserted;
use crate::instrument::motoko::actor::{actor_of, bound_name, ActorView};
use crate::instrument::motoko::funcs::{
    after_semis, func_at, lemma_after_semis, modified_by, shape_at, FuncView, Shape,
};
use crate::instrument::motoko::grown::{
    complete, grown, lemma_func_before, lemma_grown, lemma_modified_before, lemma_reads_order,
    lemma_semis_before, lemma_shape_before, lemma_shape_order, reads_to,
};
use crate::instrument::motoko::imports::{begins_in_code, import_of, indent_at, names_trace};
use crate::instrument::motoko::once::{
    is_name, law_wrapped_body_is_traced, lemma_indent,
};
use crate::instrument::motoko::rules::{body_of, exit_place, wrap_edits, wrap_method};
use crate::instrument::motoko::scan::{
    find_name, last_semi, lemma_find_name, lemma_mask_len, mask,
};
use crate::instrument::motoko::second_pass::{
    asks, distinct, function, has_grown, import_before, inside, is_applied, is_literal, is_of_body,
    is_plain, is_read, lemma_actor_body, lemma_actor_grows, lemma_bound_before, lemma_func_asks,
    lemma_functions_grow, lemma_holds_at, lemma_import_place, lemma_inside, lemma_line_before,
    lemma_name_before, lemma_name_of, lemma_part_of_part, lemma_plain_mask, lemma_read,
    lemma_second_pass, lemma_shape_grows, lemma_with_literal, no_braces, takes_at, tracer_before,
    with_literal,
};
use crate::instrument::{CandidateView, ReplacementView, Rule};
use crate::order::{slot, sorted};
use crate::text::{
    byte_at, is_ident_char, lemma_byte_at, lemma_line_end, line_end, line_text, next_line,
    skip_space,
};

verus! {

// ---------- What is read stays so ----------

proof fn lemma_reads_stay(
    s: Seq<char>,
    m: Seq<bool>,
    t: Seq<char>,
    l: Seq<bool>,
    q: int,
    n: int,
    i: int,
    at: int,
)
    requires
        grown(s, m, t, l, q, n),
        0 <= i,
        reads_to(s, m, i, at),
        shape_at(s, m, at) matches Some(h) && h.body_open < q,
    ensures
        reads_to(t, l, i, at),
    decreases s.len() - i,
{
    lemma_reads_order(s, m, i, at);
    lemma_shape_order(s, m, at);
    reveal_strlit("public");
    lemma_func_before(s, m, t, l, q, n, i);
    lemma_modified_before(s, m, t, l, q, n, "public"@, i, 0);
    if i < at {
        if !func_at(s, m, i) {
            lemma_reads_stay(s, m, t, l, q, n, i + 1, at);
        } else if !modified_by(s, m, "public"@, i, 0) {
            lemma_reads_stay(s, m, t, l, q, n, i + 4, at);
        } else {
            let g = shape_at(s, m, i)->0;
            lemma_shape_order(s, m, i);
            let next = after_semis(s, g.body_close + 1);
            lemma_after_semis(s, g.body_close + 1);
            lemma_reads_order(s, m, next, at);
            lemma_shape_before(s, m, t, l, q, n, i);
            lemma_semis_before(s, t, q, g.body_close + 1);
            lemma_reads_stay(s, m, t, l, q, n, next, at);
        }
    }
}

proof fn lemma_import_before_stays(
    s: Seq<char>,
    m: Seq<bool>,
    t: Seq<char>,
    l: Seq<bool>,
    q: int,
    n: int,
    i: int,
    k: int,
)
    requires
        grown(s, m, t, l, q, n),
        import_before(s, m, i, k),
        k <= q,
    ensures
        import_before(t, l, i, k),
    decreases s.len() - i,
{
    lemma_line_end(s, i);
    lemma_line_before(s, t, q, i);
    let e = line_end(s, i);
    let line = line_text(s, i);
    if i < e {
        assert(t[e - 1] == s[e - 1]);
        assert(t.subrange(i, e - 1) =~= s.subrange(i, e - 1));
    }
    assert(t.subrange(i, e) =~= s.subrange(i, e));
    assert(line_text(t, i) == line);
    if import_of(line) is Some {
        lemma_import_place(line);
        assert(l[i + skip_space(line, 0)] == m[i + skip_space(line, 0)]);
    }
    match import_of(line) {
        Some(imp) if names_trace(imp.path) && begins_in_code(m, line, i) => {},
        _ => {
            lemma_import_before_stays(s, m, t, l, q, n, next_line(s, i), k);
        },
    }
}

proof fn lemma_tracer_before_stays(
    s: Seq<char>,
    m: Seq<bool>,
    t: Seq<char>,
    l: Seq<bool>,
    q: int,
    n: int,
    p: Seq<char>,
    i: int,
    k: int,
)
    requires
        grown(s, m, t, l, q, n),
        tracer_before(s, m, p, i, k),
        k <= q,
        p.len() >= 3,
    ensures
        tracer_before(t, l, p, i, k),
    decreases s.len() - i,
{
    lemma_find_name(s, m, p, i);
    lemma_name_before(s, m, t, l, q, n, p, i);
    lemma_find_name(t, l, p, i);
    let at = find_name(s, m, p, i)->0;
    lemma_bound_before(s, m, t, l, q, n, at);
    if bound_name(s, m, at) is None {
        lemma_tracer_before_stays(s, m, t, l, q, n, p, at + 1, k);
    }
}

/// A function that is read is read still once a text was put into its body.
pub proof fn lemma_read_again(src: Seq<char>, a: ActorView, at: int, q: int, x: Seq<char>)
    requires
        is_read(src, a, at),
        takes_at(src, a, at, q),
        complete(x),
        no_braces(x),
    ensures
        ({
            let t = inserted(src, a.open + q, x);
            let b = inside(src, a);
            let h = shape_at(b, mask(b), at)->0;
            &&& actor_of(t) matches Some(c) && is_read(t, c, at) && c.open == a.open && c.tracer
                == a.tracer && inside(t, c) == inserted(b, q, x) && shape_at(
                inside(t, c),
                mask(inside(t, c)),
                at,
            ) == Some(Shape { body_close: h.body_close + x.len(), ..h })
        }),
{
    reveal_strlit(".Tracer(");
    let t = inserted(src, a.open + q, x);
    let b = inside(src, a);
    let h = shape_at(b, mask(b), at)->0;
    let n = x.len() as int;
    let grew = inserted(b, q, x);
    lemma_holds_at(src, a, at, q);
    lemma_actor_grows(src, a, at, q, x);
    let c = actor_of(t)->0;
    lemma_mask_len(b);
    lemma_shape_order(b, mask(b), at);
    lemma_grown(b, q, x);
    lemma_shape_grows(src, a, at, q, x);
    lemma_reads_stay(b, mask(b), grew, mask(grew), q, n, 0, at);
    lemma_file_grows(src, a, q, x);
    reveal(is_read);
    lemma_import_before_stays(src, mask(src), t, mask(t), a.open + q, n, 0, a.open);
    lemma_tracer_before_stays(
        b,
        mask(b),
        grew,
        mask(grew),
        q,
        n,
        a.alias + ".Tracer("@,
        0,
        at,
    );
}

proof fn lemma_file_grows(src: Seq<char>, a: ActorView, q: int, x: Seq<char>)
    requires
        actor_of(src) == Some(a),
        0 < q <= a.close - a.open,
        mask(inside(src, a))[q - 1],
        inside(src, a)[q - 1] != '/',
        complete(x),
    ensures
        ({
            let t = inserted(src, a.open + q, x);
            grown(src, mask(src), t, mask(t), a.open + q, x.len() as int)
        }),
{
    lemma_actor_body(src);
    lemma_mask_len(inside(src, a));
    lemma_inside(src, a.open, a.close, q);
    assert(src[a.open + q - 1] == inside(src, a)[q - 1]);
    lemma_grown(src, a.open + q, x);
}

// ---------- The wrap ----------

proof fn lemma_last_semi_at(s: Seq<char>, m: Seq<bool>, i: int, depth: int)
    ensures
        last_semi(s, m, i, depth) matches Some(k) ==> 0 <= k < i <= s.len() && m[k] && s[k] == ';',
    decreases i,
{
    if 0 < i <= s.len() {
        lemma_last_semi_at(s, m, i - 1, depth);
        lemma_last_semi_at(s, m, i - 1, depth + 1);
        lemma_last_semi_at(s, m, i - 1, depth - 1);
    }
}

/// Where the wrap goes in the body, behind code both times.
pub proof fn lemma_wrap_places(src: Seq<char>, a: ActorView, at: int)
    requires
        is_read(src, a, at),
    ensures
        ({
            let b = inside(src, a);
            let h = shape_at(b, mask(b), at)->0;
            let f = function(src, a, at);
            let q = exit_place(f, src) - a.open;
            &&& takes_at(src, a, at, h.body_open + 1)
            &&& takes_at(src, a, at, q)
            &&& f.body_open == a.open + h.body_open
            &&& h.body_open + 1 <= q
            &&& 0 <= a.open + q <= src.len()
            &&& 0 <= f.body_open
        }),
{
    let b = inside(src, a);
    let h = shape_at(b, mask(b), at)->0;
    let f = function(src, a, at);
    let body = body_of(f, src);
    lemma_read(src, a, at);
    lemma_mask_len(b);
    lemma_mask_len(body);
    lemma_shape_order(b, mask(b), at);
    lemma_part_of_part(src, a.open, a.close, h.body_open + 1, h.body_close);
    lemma_last_semi_at(body, mask(body), body.len() as int, 0);
    if let Some(k) = last_semi(body, mask(body), body.len() as int, 0) {
        lemma_inside(b, h.body_open + 1, h.body_close, k + 1);
        assert(b[h.body_open + 1 + k] == body[k]);
    }
}

/// The texts of the wrap.
pub proof fn lemma_wrap_texts(f: FuncView, tracer: Seq<char>, src: Seq<char>)
    requires
        is_name(tracer),
        is_name(f.name),
        0 <= f.body_open <= src.len(),
    ensures
        complete(wrap_edits(f, tracer, src)[0].text),
        no_braces(wrap_edits(f, tracer, src)[0].text),
        complete(wrap_edits(f, tracer, src)[1].text),
        no_braces(wrap_edits(f, tracer, src)[1].text),
{
    reveal_strlit("\n");
    reveal_strlit("  ");
    reveal_strlit("ignore ");
    reveal_strlit(".beginTrace(header);\n");
    reveal_strlit(".methodEntered(\"");
    reveal_strlit(".methodEntered(");
    reveal_strlit("\", ");
    reveal_strlit(", ");
    reveal_strlit(", []);");
    reveal_strlit("msg.caller");
    reveal_strlit("Principal.fromActor(self)");
    reveal_strlit(".methodExited(null);");
    let inner = indent_at(src, f.body_open) + "  "@;
    lemma_indent(src, f.body_open);
    let caller = if f.is_shared {
        "msg.caller"@
    } else {
        "Principal.fromActor(self)"@
    };
    lemma_plain_text("\n"@);
    lemma_plain_indent(src, f.body_open);
    lemma_plain_text("ignore "@);
    lemma_plain_name(tracer);
    lemma_plain_text(".beginTrace(header);\n"@);
    lemma_plain_text(".methodEntered("@);
    lemma_plain_text(", "@);
    lemma_plain_text(caller);
    lemma_plain_text(", []);"@);
    lemma_plain_text(".methodExited(null);"@);
    let a = "\n"@ + inner;
    let b = a + "ignore "@;
    let c = b + tracer;
    let d = c + ".beginTrace(header);\n"@;
    let e = d + inner;
    let g = e + tracer;
    let p = g + ".methodEntered("@;
    lemma_plain_add("\n"@, inner);
    lemma_plain_add(a, "ignore "@);
    lemma_plain_add(b, tracer);
    lemma_plain_add(c, ".beginTrace(header);\n"@);
    lemma_plain_add(d, inner);
    lemma_plain_add(e, tracer);
    lemma_plain_add(g, ".methodEntered("@);
    let z = ", "@ + caller + ", []);"@;
    lemma_plain_add(", "@, caller);
    lemma_plain_add(", "@ + caller, ", []);"@);
    lemma_literal_name(f.name);
    lemma_with_literal(p, f.name, z);
    let x = wrap_edits(f, tracer, src)[0].text;
    assert(x =~= with_literal(p, f.name, z));
    let y = a + tracer;
    lemma_plain_add(a, tracer);
    lemma_plain_add(y, ".methodExited(null);"@);
    let w = wrap_edits(f, tracer, src)[1].text;
    assert(w =~= y + ".methodExited(null);"@);
    lemma_plain_mask(w);
}

pub proof fn lemma_plain_text(x: Seq<char>)
    requires
        forall|k: int|
            0 <= k < x.len() ==> #[trigger] x[k] != '/' && x[k] != '"' && x[k] != '{' && x[k]
                != '}',
    ensures
        is_plain(x),
{
}

pub proof fn lemma_plain_name(x: Seq<char>)
    requires
        is_name(x),
    ensures
        is_plain(x),
{
    assert forall|k: int| 0 <= k < x.len() implies #[trigger] x[k] != '/' && x[k] != '"' && x[k]
        != '{' && x[k] != '}' by {
        assert(is_ident_char(x[k]));
    }
}

proof fn lemma_literal_name(x: Seq<char>)
    requires
        is_name(x),
    ensures
        is_literal(x),
{
    assert forall|k: int| 0 <= k < x.len() implies #[trigger] x[k] != '"' && x[k] != '\\' by {
        assert(is_ident_char(x[k]));
    }
}

pub proof fn lemma_plain_add(x: Seq<char>, y: Seq<char>)
    requires
        is_plain(x),
        is_plain(y),
    ensures
        is_plain(x + y),
{
}

proof fn lemma_plain_indent(src: Seq<char>, at: int)
    requires
        0 <= at <= src.len(),
    ensures
        is_plain(indent_at(src, at) + "  "@),
{
    reveal_strlit("  ");
    let indent = indent_at(src, at);
    lemma_indent(src, at);
    let x = indent + "  "@;
    assert forall|k: int| 0 <= k < x.len() implies #[trigger] x[k] != '/' && x[k] != '"' && x[k]
        != '{' && x[k] != '}' by {
        if k < indent.len() {
            assert(x[k] == indent[k]);
        } else {
            assert(x[k] == "  "@[k - indent.len()]);
        }
    }
}

/// The wrap is applied by its two insertions, the later one first.
proof fn lemma_applied_wrap(
    src: Seq<char>,
    c: CandidateView,
    new: Seq<char>,
    p: int,
    x: Seq<char>,
    q: int,
    y: Seq<char>,
)
    requires
        is_applied(src, c, new),
        0 <= p <= q <= src.len(),
        c.replacement matches ReplacementView::Multi(es) && es.len() == 2 && es[0].start == byte_at(
            src,
            p,
        ) && es[0].end == es[0].start && es[0].text == x && es[1].start == byte_at(src, q)
            && es[1].end == es[1].start && es[1].text == y,
    ensures
        new == inserted(inserted(src, q, y), p, x),
{
    let first = byte_at(src, p) as int;
    let second = byte_at(src, q) as int;
    let e = FlatView { rule: c.rule, start: first, end: first, text: x };
    let f = FlatView { rule: c.rule, start: second, end: second, text: y };
    assert(flat_of(c) =~= seq![e, f]);
    reveal_with_fuel(flat_all, 2);
    assert(flat_all(seq![c], 1) =~= seq![e, f]);
    lemma_byte_at(src, p, q);
    reveal_with_fuel(sorted, 3);
    reveal_with_fuel(slot, 3);
    let key = edit_key();
    assert(sorted(seq![e, f], key, 1) =~= seq![e]);
    assert(sorted(seq![e, f], key, 2) =~= seq![e, f]);
    lemma_splice_two(src, e, p, f, q);
    let done = src.subrange(0, p) + x + src.subrange(p, q) + y + src.subrange(q, src.len() as int);
    assert(done =~= inserted(inserted(src, q, y), p, x));
    encode_utf8_decode_utf8(new);
    encode_utf8_decode_utf8(done);
}

/// Once a function is wrapped as the rule asks, a second pass over the file asks for no wrap of it.
pub proof fn law_second_pass_wants_no_wrap(
    src: Seq<char>,
    path: Seq<char>,
    a: ActorView,
    at: int,
    c: CandidateView,
    new: Seq<char>,
)
    requires
        is_read(src, a, at),
        distinct(a.funcs),
        wrap_method(function(src, a, at), a, src) == Some(c),
        is_applied(src, c, new),
    ensures
        asks(src, path, Rule::MoWrapMethod, c.fn_name) == 1,
        asks(new, path, Rule::MoWrapMethod, c.fn_name) == 0,
{
    let b = inside(src, a);
    let h = shape_at(b, mask(b), at)->0;
    let f = function(src, a, at);
    let es = wrap_edits(f, a.tracer, src);
    let x = es[0].text;
    let y = es[1].text;
    let q = exit_place(f, src) - a.open;
    lemma_read(src, a, at);
    lemma_name_of(src, a, at);
    lemma_wrap_places(src, a, at);
    lemma_wrap_texts(f, a.tracer, src);
    lemma_applied_wrap(src, c, new, f.body_open + 1, x, a.open + q, y);
    let mid = inserted(src, a.open + q, y);
    lemma_read_again(src, a, at, q, y);
    let d = actor_of(mid)->0;
    lemma_still_distinct(src, a, at, q, y);
    let (r, first) = lemma_second_pass(src, path, a, at, q, y, Rule::MoWrapMethod);
    lemma_func_asks(f, a, src, Rule::MoWrapMethod, f.name);
    lemma_wrap_places(mid, d, at);
    let (z, g) = lemma_second_pass(mid, path, d, at, h.body_open + 1, x, Rule::MoWrapMethod);
    lemma_func_asks(g, z, new, Rule::MoWrapMethod, f.name);
    lemma_traced(mid, d, at, h.body_open + 1, x, z, g, f, src);
    lemma_names_same(src, a, at, q, y);
}

/// The functions of the actor are named as before.
pub proof fn lemma_still_distinct(src: Seq<char>, a: ActorView, at: int, q: int, x: Seq<char>)
    requires
        is_read(src, a, at),
        distinct(a.funcs),
        takes_at(src, a, at, q),
        complete(x),
        no_braces(x),
    ensures
        actor_of(inserted(src, a.open + q, x)) matches Some(c) && distinct(c.funcs),
{
    reveal(distinct);
    let b = inside(src, a);
    let h = shape_at(b, mask(b), at)->0;
    lemma_holds_at(src, a, at, q);
    lemma_shape_grows(src, a, at, q, x);
    let h2 = Shape { body_close: h.body_close + x.len(), ..h };
    let k = lemma_functions_grow(src, a, at, q, x, h2);
    let c = actor_of(inserted(src, a.open + q, x))->0;
    assert forall|i: int, j: int| 0 <= i < j < c.funcs.len() implies (#[trigger] c.funcs[i]).name
        != (#[trigger] c.funcs[j]).name by {
        assert(c.funcs[i].name == a.funcs[i].name && c.funcs[j].name == a.funcs[j].name);
        assert(a.funcs[i].name != a.funcs[j].name);
    }
}

/// The function is named as before.
pub proof fn lemma_names_same(src: Seq<char>, a: ActorView, at: int, q: int, x: Seq<char>)
    requires
        is_read(src, a, at),
        takes_at(src, a, at, q),
        complete(x),
        no_braces(x),
    ensures
        actor_of(inserted(src, a.open + q, x)) matches Some(c) && function(
            inserted(src, a.open + q, x),
            c,
            at,
        ).name == function(src, a, at).name,
{
    let b = inside(src, a);
    let h = shape_at(b, mask(b), at)->0;
    lemma_read(src, a, at);
    lemma_read_again(src, a, at, q, x);
    lemma_mask_len(b);
    lemma_shape_order(b, mask(b), at);
    assert(inserted(b, q, x).subrange(h.name_start, h.name_end) =~= b.subrange(
        h.name_start,
        h.name_end,
    ));
}

/// A function whose body begins with the wrap is traced.
proof fn lemma_traced(
    mid: Seq<char>,
    d: ActorView,
    at: int,
    q: int,
    x: Seq<char>,
    z: ActorView,
    g: FuncView,
    f: FuncView,
    src: Seq<char>,
)
    requires
        has_grown(mid, d, at, q, x, z, g),
        q == function(mid, d, at).body_open - d.open + 1,
        x == wrap_edits(f, d.tracer, src)[0].text,
        is_name(d.tracer),
        0 <= f.body_open <= src.len(),
    ensures
        g.has_begin_trace,
{
    reveal(has_grown);
    reveal(is_of_body);
    let rest = body_of(function(mid, d, at), mid);
    law_wrapped_body_is_traced(f, d.tracer, src, rest);
    assert(inserted(rest, 0, x) =~= x + rest);
}

} // verus!
