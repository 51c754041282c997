//! A function that got the header is not asked about again.

use vstd::prelude::*;
use vstd::utf8::*;

use crate::instrument::agent_js_rerun::lemma_part;
use crate::instrument::edit::{edit_key, flat_all, flat_of, spliced, FlatView};
use crate::instrument::insertion::inserted;
use crate::instrument::motoko::actor::{actor_of, ActorView};
use crate::instrument::motoko::funcs::{shape_at, FuncView, Shape};
use crate::instrument::motoko::grown::{
    complete, lemma_grown, lemma_params_open, lemma_shape_order, lemma_shape_params, no_brackets,
};
use crate::instrument::motoko::imports::{
    begins_in_code, import_of, names_trace, trace_import,
};
use crate::instrument::motoko::once::{is_name, law_wrapped_body_is_traced};
use crate::instrument::motoko::rules::{exit_place, wrap_edits, wrap_method_insert_header};
use crate::instrument::motoko::scan::{find_name, lemma_mask_len, mask};
use crate::instrument::motoko::second_pass::{
    asks, distinct, function, holds_at, import_before, inside, is_applied, is_of_body, is_plain,
    is_read, lemma_actor_grows, lemma_asks_of, lemma_func_asks, lemma_functions_grow,
    lemma_ident_chars, lemma_name_of, lemma_of_body, lemma_plain_mask, lemma_read,
    lemma_second_pass, names_in, no_braces, takes_at,
};
use crate::instrument::motoko::second_wrap::{
    lemma_names_same, lemma_plain_add, lemma_plain_name, lemma_plain_text, lemma_read_again,
    lemma_still_distinct, lemma_wrap_places, lemma_wrap_texts,
};
use crate::instrument::{CandidateView, ReplacementView, Rule};
use crate::order::{slot, sorted};
use crate::text::{
    byte_at, ident_end, is_ident_char, lemma_byte_at, lemma_encode_add, lemma_line_end, line_text,
    next_line, trim_start,
};

verus! {

/// Three insertions, in bytes and in characters.
proof fn lemma_splice_three(
    s: Seq<char>,
    e: FlatView,
    p: int,
    f: FlatView,
    q: int,
    g: FlatView,
    r: int,
)
    requires
        0 <= p <= q <= r <= s.len(),
        e.start == byte_at(s, p),
        e.end == e.start,
        f.start == byte_at(s, q),
        f.end == f.start,
        g.start == byte_at(s, r),
        g.end == g.start,
    ensures
        spliced(encode_utf8(s), seq![e, f, g], 0, 0) == encode_utf8(
            s.subrange(0, p) + e.text + s.subrange(p, q) + f.text + s.subrange(q, r) + g.text
                + s.subrange(r, s.len() as int),
        ),
{
    reveal_with_fuel(spliced, 4);
    lemma_part(s, 0, p);
    lemma_part(s, p, q);
    lemma_part(s, q, r);
    lemma_part(s, r, s.len() as int);
    lemma_byte_at(s, 0, p);
    lemma_byte_at(s, r, s.len() as int);
    let a = s.subrange(0, p);
    let b = s.subrange(p, q);
    let c = s.subrange(q, r);
    let d = s.subrange(r, s.len() as int);
    lemma_encode_add(a, e.text);
    lemma_encode_add(a + e.text, b);
    lemma_encode_add(a + e.text + b, f.text);
    lemma_encode_add(a + e.text + b + f.text, c);
    lemma_encode_add(a + e.text + b + f.text + c, g.text);
    lemma_encode_add(a + e.text + b + f.text + c + g.text, d);
    assert(spliced(encode_utf8(s), seq![e, f, g], 0, 0) =~= encode_utf8(a) + encode_utf8(e.text)
        + encode_utf8(b) + encode_utf8(f.text) + encode_utf8(c) + encode_utf8(g.text)
        + encode_utf8(d));
}

/// The edit is applied by its three insertions, the last one first.
proof fn lemma_applied_header(
    src: Seq<char>,
    c: CandidateView,
    new: Seq<char>,
    o: int,
    w: Seq<char>,
    p: int,
    x: Seq<char>,
    q: int,
    y: Seq<char>,
)
    requires
        is_applied(src, c, new),
        0 <= o < p <= q <= src.len(),
        c.replacement matches ReplacementView::Multi(es) && es.len() == 3 && es[0].start == byte_at(
            src,
            p,
        ) && es[0].end == es[0].start && es[0].text == x && es[1].start == byte_at(src, q)
            && es[1].end == es[1].start && es[1].text == y && es[2].start == byte_at(src, o)
            && es[2].end == es[2].start && es[2].text == w,
    ensures
        new == inserted(inserted(inserted(src, q, y), p, x), o, w),
{
    let rule = c.rule;
    let po = byte_at(src, o) as int;
    let pp = byte_at(src, p) as int;
    let pq = byte_at(src, q) as int;
    let d = FlatView { rule, start: po, end: po, text: w };
    let e = FlatView { rule, start: pp, end: pp, text: x };
    let f = FlatView { rule, start: pq, end: pq, text: y };
    assert(flat_of(c) =~= seq![e, f, d]);
    reveal_with_fuel(flat_all, 2);
    assert(flat_all(seq![c], 1) =~= seq![e, f, d]);
    lemma_byte_at(src, o, p);
    lemma_byte_at(src, p, q);
    lemma_sort_three(e, f, d);
    lemma_splice_three(src, d, o, e, p, f, q);
    let done = src.subrange(0, o) + w + src.subrange(o, p) + x + src.subrange(p, q) + y
        + src.subrange(q, src.len() as int);
    assert(done =~= inserted(inserted(inserted(src, q, y), p, x), o, w));
    encode_utf8_decode_utf8(new);
    encode_utf8_decode_utf8(done);
}

proof fn lemma_sort_three(e: FlatView, f: FlatView, d: FlatView)
    requires
        d.start < e.start <= f.start,
    ensures
        sorted(seq![e, f, d], edit_key(), 3) == seq![d, e, f],
{
    reveal_with_fuel(slot, 4);
    let es = seq![e, f, d];
    let key = edit_key();
    assert(sorted(es, key, 0) =~= Seq::<FlatView>::empty());
    assert(sorted(es, key, 1) =~= seq![e]);
    assert(sorted(es, key, 2) =~= seq![e, f]);
    assert(sorted(es, key, 3) =~= seq![d, e, f]);
}

proof fn lemma_alias(s: Seq<char>, m: Seq<bool>, i: int, n: int)
    requires
        import_before(s, m, i, n),
    ensures
        trace_import(s, m, i) matches Some(imp) && is_name(imp.alias),
    decreases s.len() - i,
{
    lemma_line_end(s, i);
    let line = line_text(s, i);
    match import_of(line) {
        Some(imp) if names_trace(imp.path) && begins_in_code(m, line, i) => {
            reveal_strlit("import ");
            let t = trim_start(line);
            let rest = t.subrange(7, t.len() as int);
            lemma_ident_chars(rest, 0);
            let a = ident_end(rest, 0);
            assert forall|k: int| 0 <= k < a implies is_ident_char(
                #[trigger] rest.subrange(0, a)[k],
            ) by {
                assert(is_ident_char(rest[k]));
            }
        },
        _ => {
            lemma_alias(s, m, next_line(s, i), n);
        },
    }
}

proof fn lemma_alias_of(src: Seq<char>, a: ActorView, at: int)
    requires
        is_read(src, a, at),
    ensures
        is_name(a.alias),
{
    reveal(is_read);
    lemma_alias(src, mask(src), 0, a.open);
}

/// The text that gives a function the header.
pub open spec fn header_text(f: FuncView, a: ActorView) -> Seq<char> {
    let param = "header : "@ + ("?"@ + a.alias + ".TraceHeader"@);
    if f.params_empty {
        param
    } else {
        param + ", "@
    }
}

proof fn lemma_header_text(f: FuncView, a: ActorView)
    requires
        is_name(a.alias),
    ensures
        complete(header_text(f, a)),
        no_braces(header_text(f, a)),
        is_plain(header_text(f, a)),
        forall|k: int|
            0 <= k < header_text(f, a).len() ==> #[trigger] header_text(f, a)[k] != '('
                && header_text(f, a)[k] != ')',
{
    reveal_strlit("header : ");
    reveal_strlit("?");
    reveal_strlit(".TraceHeader");
    reveal_strlit(", ");
    lemma_plain_text("header : "@);
    lemma_plain_text("?"@);
    lemma_plain_name(a.alias);
    lemma_plain_text(".TraceHeader"@);
    lemma_plain_text(", "@);
    lemma_plain_add("?"@, a.alias);
    let form = "?"@ + a.alias + ".TraceHeader"@;
    lemma_plain_add("?"@ + a.alias, ".TraceHeader"@);
    lemma_plain_add("header : "@, form);
    let param = "header : "@ + form;
    lemma_plain_add(param, ", "@);
    let w = header_text(f, a);
    lemma_plain_mask(w);
    assert forall|k: int| 0 <= k < w.len() implies #[trigger] w[k] != '(' && w[k] != ')' by {
        let n = "header : "@.len() as int;
        let e = n + 1 + a.alias.len();
        if k < n {
            assert(w[k] == "header : "@[k]);
        } else if k == n {
            assert(w[k] == '?');
        } else if k < e {
            assert(w[k] == a.alias[k - n - 1]);
            assert(is_ident_char(a.alias[k - n - 1]));
        } else if k < e + ".TraceHeader"@.len() {
            assert(w[k] == ".TraceHeader"@[k - e]);
        } else {
            assert(w[k] == ", "@[k - e - ".TraceHeader"@.len()]);
        }
    }
}

/// A function whose body begins with the wrap is traced.
proof fn lemma_wrapped(
    mid: Seq<char>,
    a: ActorView,
    d: ActorView,
    at: int,
    x: Seq<char>,
    f: FuncView,
    src: Seq<char>,
)
    requires
        is_read(mid, a, at),
        x == wrap_edits(f, a.tracer, src)[0].text,
        complete(x),
        no_braces(x),
        0 <= f.body_open <= src.len(),
        ({
            let b = inside(mid, a);
            let h = shape_at(b, mask(b), at)->0;
            let t = inserted(mid, a.open + h.body_open + 1, x);
            actor_of(t) == Some(d) && takes_at(mid, a, at, h.body_open + 1)
        }),
    ensures
        ({
            let b = inside(mid, a);
            let h = shape_at(b, mask(b), at)->0;
            let grew = inserted(b, h.body_open + 1, x);
            let body = grew.subrange(h.body_open + 1, h.body_close + x.len());
            find_name(body, mask(body), a.tracer + ".beginTrace("@, 0) is Some
        }),
{
    let b = inside(mid, a);
    let h = shape_at(b, mask(b), at)->0;
    lemma_read(mid, a, at);
    lemma_mask_len(b);
    lemma_shape_order(b, mask(b), at);
    let grew = inserted(b, h.body_open + 1, x);
    let rest = b.subrange(h.body_open + 1, h.body_close);
    assert(grew.subrange(h.body_open + 1, h.body_close + x.len()) =~= x + rest);
    law_wrapped_body_is_traced(f, a.tracer, src, rest);
}

/// A function that is traced wants no header, also once its parameters got one.
proof fn lemma_params_grow(
    src: Seq<char>,
    path: Seq<char>,
    a: ActorView,
    at: int,
    w: Seq<char>,
)
    requires
        is_read(src, a, at),
        distinct(a.funcs),
        complete(w),
        no_braces(w),
        forall|k: int| 0 <= k < w.len() ==> #[trigger] w[k] != '(' && w[k] != ')',
        ({
            let b = inside(src, a);
            let h = shape_at(b, mask(b), at)->0;
            let body = b.subrange(h.body_open + 1, h.body_close);
            find_name(body, mask(body), a.tracer + ".beginTrace("@, 0) is Some
        }),
    ensures
        ({
            let b = inside(src, a);
            let h = shape_at(b, mask(b), at)->0;
            let t = inserted(src, a.open + h.params_open, w);
            asks(t, path, Rule::MoWrapMethodInsertHeader, function(src, a, at).name) == 0
        }),
{
    let b = inside(src, a);
    let h = shape_at(b, mask(b), at)->0;
    let q = h.params_open;
    let n = w.len() as int;
    let t = inserted(src, a.open + q, w);
    let grew = inserted(b, q, w);
    lemma_read(src, a, at);
    lemma_mask_len(b);
    lemma_shape_order(b, mask(b), at);
    lemma_params_open(b, mask(b), at);
    assert(holds_at(src, a, at, q));
    lemma_actor_grows(src, a, at, q, w);
    lemma_grown(b, q, w);
    assert(no_brackets(grew, mask(grew), q, n, '(', ')')) by {
        assert forall|k: int| q <= k < q + n && mask(grew)[k] implies #[trigger] grew[k] != '('
            && grew[k] != ')' by {
            assert(grew[k] == w[k - q]);
        }
    }
    lemma_shape_params(b, mask(b), grew, mask(grew), q, n, at);
    let h2 = Shape {
        params_close: h.params_close + n,
        body_open: h.body_open + n,
        body_close: h.body_close + n,
        ..h
    };
    let k = lemma_functions_grow(src, a, at, q, w, h2);
    let c = actor_of(t)->0;
    lemma_asks_of(src, path, a, t, c, k, Rule::MoWrapMethodInsertHeader);
    let g = c.funcs[k];
    assert(grew.subrange(h.body_open + n + 1, h.body_close + n) =~= b.subrange(
        h.body_open + 1,
        h.body_close,
    ));
    lemma_of_body(grew, at, h2, a.open, names_in(t, c));
    assert(g.has_begin_trace) by {
        reveal(is_of_body);
    }
    assert(g.name == a.funcs[k].name);
    lemma_func_asks(g, c, t, Rule::MoWrapMethodInsertHeader, g.name);
}

/// Once a function is wrapped and gets the header as the rule asks, a second pass over the file
/// asks for no header of it.
pub proof fn law_second_pass_wants_no_header(
    src: Seq<char>,
    path: Seq<char>,
    a: ActorView,
    at: int,
    c: CandidateView,
    new: Seq<char>,
)
    requires
        is_read(src, a, at),
        distinct(a.funcs),
        wrap_method_insert_header(function(src, a, at), a, src) == Some(c),
        is_applied(src, c, new),
    ensures
        asks(src, path, Rule::MoWrapMethodInsertHeader, c.fn_name) == 1,
        asks(new, path, Rule::MoWrapMethodInsertHeader, c.fn_name) == 0,
{
    let b = inside(src, a);
    let h = shape_at(b, mask(b), at)->0;
    let f = function(src, a, at);
    let es = wrap_edits(f, a.tracer, src);
    let x = es[0].text;
    let y = es[1].text;
    let w = header_text(f, a);
    let q = exit_place(f, src) - a.open;
    lemma_read(src, a, at);
    lemma_name_of(src, a, at);
    lemma_alias_of(src, a, at);
    lemma_header_text(f, a);
    lemma_wrap_places(src, a, at);
    lemma_wrap_texts(f, a.tracer, src);
    lemma_mask_len(b);
    lemma_shape_order(b, mask(b), at);
    lemma_applied_header(
        src,
        c,
        new,
        a.open + h.params_open,
        w,
        f.body_open + 1,
        x,
        a.open + q,
        y,
    );
    let mid = inserted(src, a.open + q, y);
    lemma_read_again(src, a, at, q, y);
    lemma_still_distinct(src, a, at, q, y);
    lemma_names_same(src, a, at, q, y);
    let d = actor_of(mid)->0;
    let (r, first) = lemma_second_pass(src, path, a, at, q, y, Rule::MoWrapMethodInsertHeader);
    lemma_func_asks(f, a, src, Rule::MoWrapMethodInsertHeader, f.name);
    lemma_wrap_places(mid, d, at);
    let p = h.body_open + 1;
    let late = inserted(mid, d.open + p, x);
    lemma_read_again(mid, d, at, p, x);
    lemma_still_distinct(mid, d, at, p, x);
    lemma_names_same(mid, d, at, p, x);
    let z = actor_of(late)->0;
    lemma_wrapped(mid, d, z, at, x, f, src);
    lemma_params_grow(late, path, z, at, w);
}

} // verus!
