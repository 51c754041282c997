//! How a Motoko text is read once something is put into it.

use vstd::prelude::*;

use crate::instrument::insertion::inserted;
use crate::instrument::motoko::funcs::{
    after_semis, body_from, brace_before_semi, closer, func_at, func_view, funcs_from,
    is_prefix_char, is_type_prefix, lemma_after_semis, lemma_body_from, lemma_brace,
    lemma_ident_end, lemma_shape_at, modified_by, shape_at, FuncView, Names, Shape,
};
use crate::instrument::motoko::once::{agree, lemma_mask_same};
use crate::instrument::motoko::scan::{
    block_end, closes_from, code_match, lemma_mask_len, lemma_matching, lemma_skip_end,
    lemma_skip_gap, mask, mask_from, matching, skip_end, skip_gap, string_end, word_at,
};
use crate::text::{ident_end, is_ident_char, line_end};

verus! {

// ---------- The mask ----------

proof fn lemma_block_shift(a: Seq<char>, b: Seq<char>, i: int, depth: nat)
    requires
        0 <= i,
    ensures
        block_end(a + b, a.len() + i, depth) == a.len() + block_end(b, i, depth),
    decreases b.len() - i,
{
    let s = a + b;
    let k = a.len() + i;
    if i < b.len() && depth > 0 {
        assert(s[k] == b[i]);
        if i + 1 < b.len() {
            assert(s[k + 1] == b[i + 1]);
        }
        if i + 1 < b.len() && b[i] == '/' && b[i + 1] == '*' {
            lemma_block_shift(a, b, i + 2, depth + 1);
        } else if i + 1 < b.len() && b[i] == '*' && b[i + 1] == '/' {
            lemma_block_shift(a, b, i + 2, (depth - 1) as nat);
        } else {
            lemma_block_shift(a, b, i + 1, depth);
        }
    }
}

pub proof fn lemma_string_shift(a: Seq<char>, b: Seq<char>, i: int)
    requires
        0 <= i,
    ensures
        string_end(a + b, a.len() + i) == a.len() + string_end(b, i),
    decreases b.len() - i,
{
    let s = a + b;
    if i < b.len() {
        assert(s[a.len() + i] == b[i]);
        if b[i] == '"' {
        } else if b[i] == '\\' && i + 1 < b.len() {
            lemma_string_shift(a, b, i + 2);
        } else {
            lemma_string_shift(a, b, i + 1);
        }
    }
}

proof fn lemma_line_shift(a: Seq<char>, b: Seq<char>, i: int)
    requires
        0 <= i,
    ensures
        line_end(a + b, a.len() + i) == a.len() + line_end(b, i),
    decreases b.len() - i,
{
    if i < b.len() {
        assert((a + b)[a.len() + i] == b[i]);
        if b[i] != '\n' {
            lemma_line_shift(a, b, i + 1);
        }
    }
}

/// A text is read from a place on as if it began there.
pub proof fn lemma_mask_shift(a: Seq<char>, b: Seq<char>, i: int)
    requires
        0 <= i,
    ensures
        mask_from(a + b, a.len() + i) == mask_from(b, i),
    decreases b.len() - i,
{
    let s = a + b;
    let k = a.len() + i;
    if i < b.len() {
        assert(s[k] == b[i]);
        if i + 1 < b.len() {
            assert(s[k + 1] == b[i + 1]);
        }
        lemma_line_shift(a, b, i);
        lemma_block_shift(a, b, i + 2, 1);
        lemma_string_shift(a, b, i + 1);
        lemma_skip_end(b, i);
        match skip_end(b, i) {
            Some(e) => {
                assert(skip_end(s, k) == Some(a.len() + e));
                lemma_mask_shift(a, b, e);
                assert(Seq::new((a.len() + e - k) as nat, |x: int| false) =~= Seq::new(
                    (e - i) as nat,
                    |x: int| false,
                ));
            },
            None => {
                assert(skip_end(s, k) is None);
                lemma_mask_shift(a, b, i + 1);
            },
        }
    }
}

/// The text is read to its end: it ends in code, and not with a `/`.
pub open spec fn complete(x: Seq<char>) -> bool {
    x.len() > 0 && mask(x)[x.len() - 1] && x[x.len() - 1] != '/'
}

/// What stands behind a complete text is read as if it stood alone.
pub proof fn lemma_complete(x: Seq<char>, y: Seq<char>)
    requires
        complete(x),
    ensures
        mask(x + y) == mask(x) + mask(y),
{
    let n = x.len() as int;
    lemma_mask_len(x);
    assert(agree(x, x + y, n));
    lemma_mask_same(x, x + y, 0, n);
    lemma_mask_shift(x, y, 0);
    assert(mask_from(x, 0).subrange(0, n) =~= mask(x));
}

/// A text whose start is complete is read as its start and then the rest.
pub proof fn lemma_complete_start(s: Seq<char>, q: int)
    requires
        0 < q <= s.len(),
        mask(s)[q - 1],
        s[q - 1] != '/',
    ensures
        complete(s.subrange(0, q)),
        mask(s) == mask(s.subrange(0, q)) + mask(s.subrange(q, s.len() as int)),
{
    let a = s.subrange(0, q);
    let b = s.subrange(q, s.len() as int);
    lemma_mask_len(s);
    lemma_mask_len(a);
    assert(agree(s, a, q));
    lemma_mask_same(s, a, 0, q);
    assert(mask_from(a, q) =~= Seq::<bool>::empty());
    assert(mask(a) =~= mask(s).subrange(0, q));
    assert(mask(a)[q - 1] == mask(s)[q - 1]);
    lemma_complete(a, b);
    assert(s =~= a + b);
}

/// `t` is `s` with `n` characters put in at `q`, and what stood there before is read as before.
pub open spec fn grown(
    s: Seq<char>,
    m: Seq<bool>,
    t: Seq<char>,
    l: Seq<bool>,
    q: int,
    n: int,
) -> bool {
    &&& 0 <= q <= s.len()
    &&& 0 <= n
    &&& m.len() == s.len()
    &&& t.len() == s.len() + n
    &&& l.len() == t.len()
    &&& forall|x: int| 0 <= x < q ==> #[trigger] t[x] == s[x]
    &&& forall|x: int| 0 <= x < q ==> #[trigger] l[x] == m[x]
    &&& forall|x: int| q + n <= x < t.len() ==> #[trigger] t[x] == s[x - n]
    &&& forall|x: int| q + n <= x < t.len() ==> #[trigger] l[x] == m[x - n]
}

/// A complete text that is put in behind code leaves what stood there as it was.
pub proof fn lemma_grown(s: Seq<char>, q: int, x: Seq<char>)
    requires
        0 < q <= s.len(),
        mask(s)[q - 1],
        s[q - 1] != '/',
        complete(x),
    ensures
        grown(s, mask(s), inserted(s, q, x), mask(inserted(s, q, x)), q, x.len() as int),
        forall|k: int|
            q <= k < q + x.len() ==> #[trigger] mask(inserted(s, q, x))[k] == mask(x)[k - q],
        forall|k: int| q <= k < q + x.len() ==> #[trigger] inserted(s, q, x)[k] == x[k - q],
{
    let a = s.subrange(0, q);
    let b = s.subrange(q, s.len() as int);
    lemma_complete_start(s, q);
    lemma_mask_len(s);
    lemma_mask_len(a);
    lemma_mask_len(b);
    lemma_mask_len(x);
    lemma_complete(x, b);
    lemma_complete(a, x + b);
    assert(inserted(s, q, x) =~= a + (x + b));
    lemma_mask_len(inserted(s, q, x));
}

// ---------- Reading forward, before the insertion ----------

pub proof fn lemma_gap_before(
    s: Seq<char>,
    m: Seq<bool>,
    t: Seq<char>,
    l: Seq<bool>,
    q: int,
    n: int,
    i: int,
)
    requires
        grown(s, m, t, l, q, n),
        0 <= i,
        skip_gap(s, m, i) < q,
    ensures
        skip_gap(t, l, i) == skip_gap(s, m, i),
    decreases s.len() - i,
{
    lemma_skip_gap(s, m, i);
    assert(t[i] == s[i] && l[i] == m[i]);
    if !m[i] || crate::text::is_ascii_space(s[i]) {
        lemma_gap_before(s, m, t, l, q, n, i + 1);
    }
}

pub proof fn lemma_ident_before(s: Seq<char>, t: Seq<char>, q: int, i: int)
    requires
        0 <= i,
        q <= s.len(),
        q <= t.len(),
        forall|x: int| 0 <= x < q ==> #[trigger] t[x] == s[x],
        ident_end(s, i) < q,
    ensures
        ident_end(t, i) == ident_end(s, i),
        i <= ident_end(s, i),
    decreases q - i,
{
    if i < s.len() && is_ident_char(s[i]) {
        lemma_ident_end(s, i);
        assert(t[i] == s[i]);
        lemma_ident_before(s, t, q, i + 1);
    } else {
        assert(t[i] == s[i]);
    }
}

pub proof fn lemma_closes_in(
    s: Seq<char>,
    m: Seq<bool>,
    open: char,
    close: char,
    i: int,
    depth: int,
)
    ensures
        closes_from(s, m, open, close, i, depth) matches Some(k) ==> 0 <= i <= k < s.len() && m[k]
            && s[k] == close,
    decreases s.len() - i,
{
    if 0 <= i < s.len() {
        if m[i] && s[i] == open {
            lemma_closes_in(s, m, open, close, i + 1, depth + 1);
        } else if m[i] && s[i] == close {
            if depth != 1 {
                lemma_closes_in(s, m, open, close, i + 1, depth - 1);
            }
        } else {
            lemma_closes_in(s, m, open, close, i + 1, depth);
        }
    }
}

proof fn lemma_closes_before(
    s: Seq<char>,
    m: Seq<bool>,
    t: Seq<char>,
    l: Seq<bool>,
    q: int,
    n: int,
    open: char,
    close: char,
    i: int,
    depth: int,
)
    requires
        grown(s, m, t, l, q, n),
        closes_from(s, m, open, close, i, depth) matches Some(k) && k < q,
    ensures
        closes_from(t, l, open, close, i, depth) == closes_from(s, m, open, close, i, depth),
    decreases s.len() - i,
{
    lemma_closes_in(s, m, open, close, i, depth);
    assert(t[i] == s[i] && l[i] == m[i]);
    if m[i] && s[i] == open {
        lemma_closes_before(s, m, t, l, q, n, open, close, i + 1, depth + 1);
    } else if m[i] && s[i] == close {
        if depth != 1 {
            lemma_closes_before(s, m, t, l, q, n, open, close, i + 1, depth - 1);
        }
    } else {
        lemma_closes_before(s, m, t, l, q, n, open, close, i + 1, depth);
    }
}

/// What was put in holds neither bracket in code.
pub open spec fn no_brackets(
    t: Seq<char>,
    l: Seq<bool>,
    q: int,
    n: int,
    open: char,
    close: char,
) -> bool {
    forall|x: int| q <= x < q + n && l[x] ==> #[trigger] t[x] != open && t[x] != close
}

/// A bracket that closes behind the insertion closes there still.
pub proof fn lemma_closes_over(
    s: Seq<char>,
    m: Seq<bool>,
    t: Seq<char>,
    l: Seq<bool>,
    q: int,
    n: int,
    open: char,
    close: char,
    i: int,
    depth: int,
)
    requires
        grown(s, m, t, l, q, n),
        0 <= i <= q,
        no_brackets(t, l, q, n, open, close),
        closes_from(s, m, open, close, i, depth) matches Some(k) && q <= k,
    ensures
        closes_from(t, l, open, close, i, depth) == Some(
            closes_from(s, m, open, close, i, depth)->0 + n,
        ),
    decreases q - i,
{
    if i < q {
        assert(t[i] == s[i] && l[i] == m[i]);
        if m[i] && s[i] == open {
            lemma_closes_over(s, m, t, l, q, n, open, close, i + 1, depth + 1);
        } else if m[i] && s[i] == close {
            if depth != 1 {
                lemma_closes_over(s, m, t, l, q, n, open, close, i + 1, depth - 1);
            }
        } else {
            lemma_closes_over(s, m, t, l, q, n, open, close, i + 1, depth);
        }
    } else {
        lemma_closes_in(s, m, open, close, i, depth);
        lemma_closes_pass(t, l, q, n, open, close, q, depth);
        lemma_closes_after(s, m, t, l, q, n, open, close, q, depth);
    }
}

proof fn lemma_closes_pass(
    t: Seq<char>,
    l: Seq<bool>,
    q: int,
    n: int,
    open: char,
    close: char,
    i: int,
    depth: int,
)
    requires
        0 <= q <= i <= q + n <= t.len(),
        no_brackets(t, l, q, n, open, close),
    ensures
        closes_from(t, l, open, close, i, depth) == closes_from(
            t,
            l,
            open,
            close,
            q + n,
            depth,
        ),
    decreases q + n - i,
{
    if i < q + n {
        assert(l[i] ==> t[i] != open && t[i] != close);
        lemma_closes_pass(t, l, q, n, open, close, i + 1, depth);
    }
}

// ---------- Reading forward, behind the insertion ----------

pub open spec fn shifted(k: Option<int>, n: int) -> Option<int> {
    match k {
        Some(k) => Some(k + n),
        None => None,
    }
}

pub proof fn lemma_closes_after(
    s: Seq<char>,
    m: Seq<bool>,
    t: Seq<char>,
    l: Seq<bool>,
    q: int,
    n: int,
    open: char,
    close: char,
    i: int,
    depth: int,
)
    requires
        grown(s, m, t, l, q, n),
        q <= i,
    ensures
        closes_from(t, l, open, close, i + n, depth) == shifted(
            closes_from(s, m, open, close, i, depth),
            n,
        ),
    decreases s.len() - i,
{
    if i < s.len() {
        assert(t[i + n] == s[i] && l[i + n] == m[i]);
        if m[i] && s[i] == open {
            lemma_closes_after(s, m, t, l, q, n, open, close, i + 1, depth + 1);
        } else if m[i] && s[i] == close {
            if depth != 1 {
                lemma_closes_after(s, m, t, l, q, n, open, close, i + 1, depth - 1);
            }
        } else {
            lemma_closes_after(s, m, t, l, q, n, open, close, i + 1, depth);
        }
    }
}

proof fn lemma_matching_after(
    s: Seq<char>,
    m: Seq<bool>,
    t: Seq<char>,
    l: Seq<bool>,
    q: int,
    n: int,
    open: char,
    close: char,
    i: int,
)
    requires
        grown(s, m, t, l, q, n),
        q <= i,
    ensures
        matching(t, l, open, close, i + n) == shifted(matching(s, m, open, close, i), n),
{
    lemma_closes_after(s, m, t, l, q, n, open, close, i, 0);
    if i < s.len() {
        assert(t[i + n] == s[i]);
    }
}

proof fn lemma_gap_after(
    s: Seq<char>,
    m: Seq<bool>,
    t: Seq<char>,
    l: Seq<bool>,
    q: int,
    n: int,
    i: int,
)
    requires
        grown(s, m, t, l, q, n),
        q <= i,
    ensures
        skip_gap(t, l, i + n) == skip_gap(s, m, i) + n,
    decreases s.len() - i,
{
    if i < s.len() {
        assert(t[i + n] == s[i] && l[i + n] == m[i]);
        if !m[i] || crate::text::is_ascii_space(s[i]) {
            lemma_gap_after(s, m, t, l, q, n, i + 1);
        }
    }
}

proof fn lemma_ident_after(
    s: Seq<char>,
    m: Seq<bool>,
    t: Seq<char>,
    l: Seq<bool>,
    q: int,
    n: int,
    i: int,
)
    requires
        grown(s, m, t, l, q, n),
        q <= i,
    ensures
        ident_end(t, i + n) == ident_end(s, i) + n,
        i <= ident_end(s, i),
    decreases s.len() - i,
{
    if i < s.len() {
        assert(t[i + n] == s[i]);
        if is_ident_char(s[i]) {
            lemma_ident_after(s, m, t, l, q, n, i + 1);
        }
    }
}

proof fn lemma_semis_after(
    s: Seq<char>,
    m: Seq<bool>,
    t: Seq<char>,
    l: Seq<bool>,
    q: int,
    n: int,
    i: int,
)
    requires
        grown(s, m, t, l, q, n),
        q <= i,
    ensures
        after_semis(t, i + n) == after_semis(s, i) + n,
        i <= after_semis(s, i),
    decreases s.len() - i,
{
    if i < s.len() {
        assert(t[i + n] == s[i]);
        if s[i] == ';' || s[i] == ' ' {
            lemma_semis_after(s, m, t, l, q, n, i + 1);
        }
    }
}

proof fn lemma_brace_after(
    s: Seq<char>,
    m: Seq<bool>,
    t: Seq<char>,
    l: Seq<bool>,
    q: int,
    n: int,
    i: int,
)
    requires
        grown(s, m, t, l, q, n),
        q <= i,
    ensures
        brace_before_semi(t, l, i + n) == shifted(brace_before_semi(s, m, i), n),
    decreases s.len() - i,
{
    if i < s.len() {
        assert(t[i + n] == s[i] && l[i + n] == m[i]);
        lemma_brace_after(s, m, t, l, q, n, i + 1);
    }
}

proof fn lemma_body_after(
    s: Seq<char>,
    m: Seq<bool>,
    t: Seq<char>,
    l: Seq<bool>,
    q: int,
    n: int,
    i: int,
    wants: bool,
)
    requires
        grown(s, m, t, l, q, n),
        q < i,
    ensures
        body_from(t, l, i + n, wants) == shifted(body_from(s, m, i, wants), n),
    decreases s.len() - i,
{
    if i < s.len() {
        assert(t[i + n] == s[i] && l[i + n] == m[i]);
        assert(t[i + n - 1] == s[i - 1]);
        if !m[i] || crate::text::is_ascii_space(s[i]) {
            lemma_body_after(s, m, t, l, q, n, i + 1, wants);
        } else if is_ident_char(s[i]) {
            lemma_ident_end(s, i);
            lemma_ident_after(s, m, t, l, q, n, i);
            let e = ident_end(s, i);
            assert(t.subrange(i + n, e + n) =~= s.subrange(i, e));
            lemma_body_after(s, m, t, l, q, n, e, is_type_prefix(s.subrange(i, e)));
        } else if s[i] == '{' && !wants {
        } else if s[i] == '{' || s[i] == '(' || s[i] == '[' {
            lemma_matching(s, m, s[i], closer(s[i]), i);
            lemma_matching_after(s, m, t, l, q, n, s[i], closer(s[i]), i);
            if let Some(k) = matching(s, m, s[i], closer(s[i]), i) {
                lemma_body_after(s, m, t, l, q, n, k + 1, false);
            }
        } else if s[i] == ';' {
        } else if s[i] == '=' {
            lemma_brace_after(s, m, t, l, q, n, i + 1);
        } else if s[i] == '>' {
            lemma_body_after(s, m, t, l, q, n, i + 1, s[i - 1] == '-');
        } else {
            lemma_body_after(s, m, t, l, q, n, i + 1, true);
            lemma_body_after(s, m, t, l, q, n, i + 1, wants);
        }
    }
}

/// A shape, `n` further on.
pub open spec fn moved_shape(h: Shape, n: int) -> Shape {
    Shape {
        name_start: h.name_start + n,
        name_end: h.name_end + n,
        params_open: h.params_open + n,
        params_close: h.params_close + n,
        body_open: h.body_open + n,
        body_close: h.body_close + n,
    }
}

pub proof fn lemma_shape_after(
    s: Seq<char>,
    m: Seq<bool>,
    t: Seq<char>,
    l: Seq<bool>,
    q: int,
    n: int,
    i: int,
)
    requires
        grown(s, m, t, l, q, n),
        q <= i,
    ensures
        shape_at(t, l, i + n) == match shape_at(s, m, i) {
            Some(h) => Some(moved_shape(h, n)),
            None => None,
        },
{
    lemma_gap_after(s, m, t, l, q, n, i + 4);
    let a = skip_gap(s, m, i + 4);
    lemma_skip_gap(s, m, i + 4);
    lemma_ident_after(s, m, t, l, q, n, a);
    let e = ident_end(s, a);
    lemma_gap_after(s, m, t, l, q, n, e);
    let p = skip_gap(s, m, e);
    lemma_skip_gap(s, m, e);
    if p < s.len() {
        assert(t[p + n] == s[p]);
    }
    lemma_matching(s, m, '(', ')', p);
    lemma_matching_after(s, m, t, l, q, n, '(', ')', p);
    if let Some(r) = matching(s, m, '(', ')', p) {
        lemma_body_after(s, m, t, l, q, n, r + 1, false);
        lemma_body_from(s, m, r + 1, false);
        if let Some(open) = body_from(s, m, r + 1, false) {
            lemma_matching_after(s, m, t, l, q, n, '{', '}', open);
        }
    }
}

// ---------- Reading backward ----------

pub proof fn lemma_word_before(
    s: Seq<char>,
    m: Seq<bool>,
    t: Seq<char>,
    l: Seq<bool>,
    q: int,
    n: int,
    i: int,
    w: Seq<char>,
)
    requires
        grown(s, m, t, l, q, n),
        0 <= i,
        i + w.len() < q,
    ensures
        word_at(t, l, i, w) == word_at(s, m, i, w),
{
    assert(t.subrange(i, i + w.len()) =~= s.subrange(i, i + w.len()));
    assert(t[i + w.len()] == s[i + w.len()]);
    if i > 0 {
        assert(t[i - 1] == s[i - 1]);
    }
    if code_match(s, m, i, w) {
        assert forall|k: int| i <= k < i + w.len() implies #[trigger] l[k] by {
            assert(l[k] == m[k]);
            assert(m[k]);
        }
    }
    if code_match(t, l, i, w) {
        assert forall|k: int| i <= k < i + w.len() implies #[trigger] m[k] by {
            assert(l[k] == m[k]);
        }
    }
}

pub proof fn lemma_word_after(
    s: Seq<char>,
    m: Seq<bool>,
    t: Seq<char>,
    l: Seq<bool>,
    q: int,
    n: int,
    i: int,
    w: Seq<char>,
)
    requires
        grown(s, m, t, l, q, n),
        q < i,
    ensures
        word_at(t, l, i + n, w) == word_at(s, m, i, w),
{
    if i + w.len() <= s.len() {
        assert(t.subrange(i + n, i + n + w.len()) =~= s.subrange(i, i + w.len()));
        assert(t[i + n - 1] == s[i - 1]);
        if i + w.len() < s.len() {
            assert(t[i + n + w.len()] == s[i + w.len()]);
        }
        if code_match(s, m, i, w) {
            assert forall|k: int| i + n <= k < i + n + w.len() implies #[trigger] l[k] by {
                assert(l[k] == m[k - n]);
                assert(m[k - n]);
            }
        }
        if code_match(t, l, i + n, w) {
            assert forall|k: int| i <= k < i + w.len() implies #[trigger] m[k] by {
                assert(l[k + n] == m[k]);
                assert(l[k + n]);
            }
        }
    }
}

pub proof fn lemma_modified_before(
    s: Seq<char>,
    m: Seq<bool>,
    t: Seq<char>,
    l: Seq<bool>,
    q: int,
    n: int,
    w: Seq<char>,
    i: int,
    depth: int,
)
    requires
        grown(s, m, t, l, q, n),
        i + w.len() <= q,
    ensures
        modified_by(t, l, w, i, depth) == modified_by(s, m, w, i, depth),
    decreases i,
{
    if i > 0 {
        assert(t[i - 1] == s[i - 1] && l[i - 1] == m[i - 1]);
        lemma_word_before(s, m, t, l, q, n, i - 1, w);
        lemma_modified_before(s, m, t, l, q, n, w, i - 1, depth);
        lemma_modified_before(s, m, t, l, q, n, w, i - 1, depth + 1);
        lemma_modified_before(s, m, t, l, q, n, w, i - 1, depth - 1);
    }
}

/// Behind the insertion, what modifies a function is read back to where other code ends.
pub proof fn lemma_modified_after(
    s: Seq<char>,
    m: Seq<bool>,
    t: Seq<char>,
    l: Seq<bool>,
    q: int,
    n: int,
    w: Seq<char>,
    i: int,
    depth: int,
    p: int,
)
    requires
        grown(s, m, t, l, q, n),
        q <= p < i,
        p < s.len(),
        m[p],
        !is_prefix_char(s[p]),
    ensures
        modified_by(t, l, w, i + n, depth) == modified_by(s, m, w, i, depth),
    decreases i,
{
    if i <= s.len() {
        assert(t[i + n - 1] == s[i - 1] && l[i + n - 1] == m[i - 1]);
        if i - 1 > p {
            lemma_word_after(s, m, t, l, q, n, i - 1, w);
            lemma_modified_after(s, m, t, l, q, n, w, i - 1, depth, p);
            lemma_modified_after(s, m, t, l, q, n, w, i - 1, depth + 1, p);
            lemma_modified_after(s, m, t, l, q, n, w, i - 1, depth - 1, p);
        }
    }
}

pub proof fn lemma_func_before(
    s: Seq<char>,
    m: Seq<bool>,
    t: Seq<char>,
    l: Seq<bool>,
    q: int,
    n: int,
    i: int,
)
    requires
        grown(s, m, t, l, q, n),
        0 <= i,
        i + 4 < q,
    ensures
        func_at(t, l, i) == func_at(s, m, i),
{
    reveal_strlit("func");
    assert(t.subrange(i, i + 4) =~= s.subrange(i, i + 4));
    assert(t[i + 4] == s[i + 4]);
    assert(l[i] == m[i]);
    if i > 0 {
        assert(t[i - 1] == s[i - 1]);
    }
}

pub proof fn lemma_func_after(
    s: Seq<char>,
    m: Seq<bool>,
    t: Seq<char>,
    l: Seq<bool>,
    q: int,
    n: int,
    i: int,
)
    requires
        grown(s, m, t, l, q, n),
        q < i,
        i + 4 <= s.len(),
    ensures
        func_at(t, l, i + n) == func_at(s, m, i),
{
    reveal_strlit("func");
    assert(t.subrange(i + n, i + n + 4) =~= s.subrange(i, i + 4));
    assert(l[i + n] == m[i]);
    assert(t[i + n - 1] == s[i - 1]);
    if i + 4 < s.len() {
        assert(t[i + n + 4] == s[i + 4]);
    }
}

// ---------- A function ----------

proof fn lemma_brace_before(
    s: Seq<char>,
    m: Seq<bool>,
    t: Seq<char>,
    l: Seq<bool>,
    q: int,
    n: int,
    i: int,
)
    requires
        grown(s, m, t, l, q, n),
        0 <= i,
        brace_before_semi(s, m, i) matches Some(k) && k < q,
    ensures
        brace_before_semi(t, l, i) == brace_before_semi(s, m, i),
    decreases s.len() - i,
{
    lemma_brace(s, m, i);
    assert(t[i] == s[i] && l[i] == m[i]);
    if !(m[i] && s[i] == '{') {
        lemma_brace_before(s, m, t, l, q, n, i + 1);
    }
}

proof fn lemma_body_before(
    s: Seq<char>,
    m: Seq<bool>,
    t: Seq<char>,
    l: Seq<bool>,
    q: int,
    n: int,
    i: int,
    wants: bool,
)
    requires
        grown(s, m, t, l, q, n),
        0 <= i,
        body_from(s, m, i, wants) matches Some(k) && k < q,
    ensures
        body_from(t, l, i, wants) == body_from(s, m, i, wants),
    decreases s.len() - i,
{
    lemma_body_from(s, m, i, wants);
    assert(t[i] == s[i] && l[i] == m[i]);
    if i > 0 {
        assert(t[i - 1] == s[i - 1]);
    }
    if !m[i] || crate::text::is_ascii_space(s[i]) {
        lemma_body_before(s, m, t, l, q, n, i + 1, wants);
    } else if is_ident_char(s[i]) {
        lemma_ident_end(s, i);
        let e = ident_end(s, i);
        lemma_body_from(s, m, e, is_type_prefix(s.subrange(i, e)));
        lemma_ident_before(s, t, q, i);
        assert(t.subrange(i, e) =~= s.subrange(i, e));
        lemma_body_before(s, m, t, l, q, n, e, is_type_prefix(s.subrange(i, e)));
    } else if s[i] == '{' && !wants {
    } else if s[i] == '{' || s[i] == '(' || s[i] == '[' {
        lemma_matching(s, m, s[i], closer(s[i]), i);
        let k = matching(s, m, s[i], closer(s[i]), i)->0;
        lemma_body_from(s, m, k + 1, false);
        lemma_closes_before(s, m, t, l, q, n, s[i], closer(s[i]), i, 0);
        lemma_body_before(s, m, t, l, q, n, k + 1, false);
    } else if s[i] == ';' {
    } else if s[i] == '=' {
        lemma_brace_before(s, m, t, l, q, n, i + 1);
    } else if s[i] == '>' {
        lemma_body_before(s, m, t, l, q, n, i + 1, i > 0 && s[i - 1] == '-');
    } else if s[i] == ':' || s[i] == '?' || s[i] == '.' || s[i] == ',' || s[i] == '<' {
        lemma_body_before(s, m, t, l, q, n, i + 1, true);
    } else {
        lemma_body_before(s, m, t, l, q, n, i + 1, wants);
    }
}

/// The order of the parts of a function.
pub proof fn lemma_shape_order(s: Seq<char>, m: Seq<bool>, i: int)
    requires
        0 <= i,
    ensures
        shape_at(s, m, i) matches Some(h) ==> i + 4 <= h.name_start < h.name_end < h.params_open
            <= h.params_close < h.body_open < h.body_close < s.len() && m[h.body_open]
            && s[h.body_open] == '{' && m[h.body_close] && s[h.body_close] == '}',
{
    let a = skip_gap(s, m, i + 4);
    let e = ident_end(s, a);
    let p = skip_gap(s, m, e);
    lemma_skip_gap(s, m, i + 4);
    lemma_skip_gap(s, m, e);
    if shape_at(s, m, i) is Some {
        let h = shape_at(s, m, i)->0;
        lemma_closes_in(s, m, '(', ')', p, 0);
        lemma_body_from(s, m, h.params_close + 1, false);
        lemma_closes_in(s, m, '{', '}', h.body_open, 0);
        lemma_body_open(s, m, h.params_close + 1, false);
    }
}

/// A body opens with a `{` in code.
proof fn lemma_body_open(s: Seq<char>, m: Seq<bool>, i: int, wants: bool)
    ensures
        body_from(s, m, i, wants) matches Some(k) ==> m[k] && s[k] == '{',
    decreases s.len() - i,
{
    if 0 <= i < s.len() {
        if !m[i] || crate::text::is_ascii_space(s[i]) {
            lemma_body_open(s, m, i + 1, wants);
        } else if is_ident_char(s[i]) {
            lemma_ident_end(s, i);
            let e = ident_end(s, i);
            lemma_body_open(s, m, e, is_type_prefix(s.subrange(i, e)));
        } else if s[i] == '{' && !wants {
        } else if s[i] == '{' || s[i] == '(' || s[i] == '[' {
            lemma_matching(s, m, s[i], closer(s[i]), i);
            if let Some(k) = matching(s, m, s[i], closer(s[i]), i) {
                lemma_body_open(s, m, k + 1, false);
            }
        } else if s[i] == ';' {
        } else if s[i] == '=' {
            lemma_brace_open(s, m, i + 1);
        } else if s[i] == '>' {
            lemma_body_open(s, m, i + 1, i > 0 && s[i - 1] == '-');
        } else {
            lemma_body_open(s, m, i + 1, true);
            lemma_body_open(s, m, i + 1, wants);
        }
    }
}

proof fn lemma_brace_open(s: Seq<char>, m: Seq<bool>, i: int)
    ensures
        brace_before_semi(s, m, i) matches Some(k) ==> m[k] && s[k] == '{',
    decreases s.len() - i,
{
    if 0 <= i < s.len() && !(m[i] && s[i] == '{') && !(m[i] && s[i] == ';') {
        lemma_brace_open(s, m, i + 1);
    }
}

/// What a function is read as, up to where its body opens, before the insertion.
proof fn lemma_header_before(
    s: Seq<char>,
    m: Seq<bool>,
    t: Seq<char>,
    l: Seq<bool>,
    q: int,
    n: int,
    i: int,
)
    requires
        grown(s, m, t, l, q, n),
        0 <= i,
        shape_at(s, m, i) matches Some(h) && h.body_open < q,
    ensures
        ({
            let h = shape_at(s, m, i)->0;
            shape_at(t, l, i) == match matching(t, l, '{', '}', h.body_open) {
                Some(close) => Some(Shape { body_close: close, ..h }),
                None => None,
            }
        }),
{
    let h = shape_at(s, m, i)->0;
    lemma_shape_order(s, m, i);
    lemma_gap_before(s, m, t, l, q, n, i + 4);
    lemma_ident_before(s, t, q, h.name_start);
    lemma_gap_before(s, m, t, l, q, n, h.name_end);
    let p = h.params_open - 1;
    assert(t[p] == s[p]);
    lemma_closes_before(s, m, t, l, q, n, '(', ')', p, 0);
    lemma_body_before(s, m, t, l, q, n, h.params_close + 1, false);
}

/// A function that ends before the insertion is read as before.
pub proof fn lemma_shape_before(
    s: Seq<char>,
    m: Seq<bool>,
    t: Seq<char>,
    l: Seq<bool>,
    q: int,
    n: int,
    i: int,
)
    requires
        grown(s, m, t, l, q, n),
        0 <= i,
        shape_at(s, m, i) matches Some(h) && h.body_close < q,
    ensures
        shape_at(t, l, i) == shape_at(s, m, i),
{
    let h = shape_at(s, m, i)->0;
    lemma_shape_order(s, m, i);
    lemma_header_before(s, m, t, l, q, n, i);
    assert(t[h.body_open] == s[h.body_open]);
    lemma_closes_before(s, m, t, l, q, n, '{', '}', h.body_open, 0);
}

/// A function whose body holds the insertion ends as much later.
pub proof fn lemma_shape_over(
    s: Seq<char>,
    m: Seq<bool>,
    t: Seq<char>,
    l: Seq<bool>,
    q: int,
    n: int,
    i: int,
)
    requires
        grown(s, m, t, l, q, n),
        0 <= i,
        shape_at(s, m, i) matches Some(h) && h.body_open < q <= h.body_close,
        no_brackets(t, l, q, n, '{', '}'),
    ensures
        ({
            let h = shape_at(s, m, i)->0;
            shape_at(t, l, i) == Some(Shape { body_close: h.body_close + n, ..h })
        }),
{
    let h = shape_at(s, m, i)->0;
    lemma_shape_order(s, m, i);
    lemma_header_before(s, m, t, l, q, n, i);
    assert(t[h.body_open] == s[h.body_open]);
    lemma_closes_over(s, m, t, l, q, n, '{', '}', h.body_open, 0);
}

/// A function whose parameters begin with the insertion has all that follows as much later.
pub proof fn lemma_shape_params(
    s: Seq<char>,
    m: Seq<bool>,
    t: Seq<char>,
    l: Seq<bool>,
    q: int,
    n: int,
    i: int,
)
    requires
        grown(s, m, t, l, q, n),
        0 <= i,
        shape_at(s, m, i) matches Some(h) && h.params_open == q,
        no_brackets(t, l, q, n, '(', ')'),
    ensures
        ({
            let h = shape_at(s, m, i)->0;
            shape_at(t, l, i) == Some(
                Shape {
                    params_close: h.params_close + n,
                    body_open: h.body_open + n,
                    body_close: h.body_close + n,
                    ..h
                },
            )
        }),
{
    let h = shape_at(s, m, i)->0;
    let p = q - 1;
    lemma_shape_order(s, m, i);
    lemma_gap_before(s, m, t, l, q, n, i + 4);
    lemma_ident_before(s, t, q, h.name_start);
    lemma_gap_before(s, m, t, l, q, n, h.name_end);
    assert(t[p] == s[p]);
    lemma_closes_over(s, m, t, l, q, n, '(', ')', p, 0);
    lemma_body_after(s, m, t, l, q, n, h.params_close + 1, false);
    lemma_matching_after(s, m, t, l, q, n, '{', '}', h.body_open);
}

/// The parameters of a function open with a `(` in code.
pub proof fn lemma_params_open(s: Seq<char>, m: Seq<bool>, i: int)
    requires
        0 <= i,
    ensures
        shape_at(s, m, i) matches Some(h) ==> m[h.params_open - 1] && s[h.params_open - 1] == '(',
{
    lemma_shape_order(s, m, i);
    if shape_at(s, m, i) is Some {
        let h = shape_at(s, m, i)->0;
        lemma_gap_code(s, m, h.name_end);
    }
}

proof fn lemma_gap_code(s: Seq<char>, m: Seq<bool>, i: int)
    requires
        0 <= i,
    ensures
        skip_gap(s, m, i) < s.len() ==> m[skip_gap(s, m, i)],
    decreases s.len() - i,
{
    if i < s.len() && (!m[i] || crate::text::is_ascii_space(s[i])) {
        lemma_gap_code(s, m, i + 1);
    }
}

// ---------- The functions ----------

/// The function, `n` further on.
pub open spec fn moved_func(f: FuncView, n: int) -> FuncView {
    FuncView {
        body_open: f.body_open + n,
        body_close: f.body_close + n,
        params_open: f.params_open + n,
        ..f
    }
}

/// The functions are the same but for the assignments in them.
pub open spec fn alike(f: FuncView, g: FuncView) -> bool {
    g == FuncView { writes: g.writes, ..f }
}

/// The names are the same but for the variables.
pub open spec fn same_names(a: Names, b: Names) -> bool {
    a.alias == b.alias && a.tracer == b.tracer
}

/// A list of functions that moved, with one more at its start.
proof fn lemma_moved_front(
    x: FuncView,
    y: FuncView,
    rest: Seq<FuncView>,
    later: Seq<FuncView>,
    n: int,
)
    requires
        alike(moved_func(x, n), y),
        rest.len() == later.len(),
        forall|k: int| 0 <= k < rest.len() ==> alike(moved_func(rest[k], n), #[trigger] later[k]),
    ensures
        ({
            let a = seq![x] + rest;
            let b = seq![y] + later;
            a.len() == b.len() && forall|k: int|
                0 <= k < a.len() ==> alike(moved_func(a[k], n), #[trigger] b[k])
        }),
{
    let a = seq![x] + rest;
    let b = seq![y] + later;
    assert forall|k: int| 0 <= k < a.len() implies alike(moved_func(a[k], n), #[trigger] b[k]) by {
        if k > 0 {
            assert(a[k] == rest[k - 1]);
            assert(b[k] == later[k - 1]);
        }
    }
}

/// Where the search goes on behind a function.
proof fn lemma_next_after(s: Seq<char>, t: Seq<char>, q: int, n: int, i: int, h: Shape)
    requires
        grown(s, mask(s), t, mask(t), q, n),
        q <= i,
        shape_at(s, mask(s), i) == Some(h),
    ensures
        after_semis(t, h.body_close + n + 1) == after_semis(s, h.body_close + 1) + n,
        i < after_semis(s, h.body_close + 1) <= s.len(),
{
    lemma_shape_order(s, mask(s), i);
    lemma_semis_after(s, mask(s), t, mask(t), q, n, h.body_close + 1);
    lemma_after_semis(s, h.body_close + 1);
}

/// The functions behind the insertion move with it.
proof fn lemma_funcs_after(
    s: Seq<char>,
    t: Seq<char>,
    q: int,
    n: int,
    i: int,
    p: int,
    offset: int,
    names: Names,
    others: Names,
)
    requires
        grown(s, mask(s), t, mask(t), q, n),
        same_names(names, others),
        q <= p < i,
        p < s.len(),
        mask(s)[p],
        !is_prefix_char(s[p]),
    ensures
        ({
            let a = funcs_from(s, mask(s), i, offset, names);
            let b = funcs_from(t, mask(t), i + n, offset, others);
            a.len() == b.len() && forall|k: int|
                0 <= k < a.len() ==> alike(moved_func(a[k], n), #[trigger] b[k])
        }),
    decreases s.len() - i,
{
    let m = mask(s);
    let l = mask(t);
    if i + 4 <= s.len() {
        lemma_func_after(s, m, t, l, q, n, i);
        if !func_at(s, m, i) {
            lemma_funcs_after(s, t, q, n, i + 1, p, offset, names, others);
        } else {
            lemma_modified_after(s, m, t, l, q, n, "public"@, i, 0, p);
            if !modified_by(s, m, "public"@, i, 0) {
                lemma_funcs_after(s, t, q, n, i + 4, p, offset, names, others);
            } else {
                lemma_shape_after(s, m, t, l, q, n, i);
                match shape_at(s, m, i) {
                    Some(h) => {
                        lemma_next_after(s, t, q, n, i, h);
                        let next = after_semis(s, h.body_close + 1);
                        lemma_funcs_after(s, t, q, n, next, p, offset, names, others);
                        lemma_func_moves(s, t, q, n, i, p, h, offset, names, others);
                        lemma_moved_front(
                            func_view(s, i, h, offset, names),
                            func_view(t, i + n, moved_shape(h, n), offset, others),
                            funcs_from(s, m, next, offset, names),
                            funcs_from(t, l, next + n, offset, others),
                            n,
                        );
                    },
                    None => {
                        lemma_funcs_after(s, t, q, n, i + 4, p, offset, names, others);
                    },
                }
            }
        }
    }
}

proof fn lemma_func_moves(
    s: Seq<char>,
    t: Seq<char>,
    q: int,
    n: int,
    i: int,
    p: int,
    h: Shape,
    offset: int,
    names: Names,
    others: Names,
)
    requires
        grown(s, mask(s), t, mask(t), q, n),
        same_names(names, others),
        q <= p < i,
        p < s.len(),
        mask(s)[p],
        !is_prefix_char(s[p]),
        shape_at(s, mask(s), i) == Some(h),
    ensures
        alike(
            moved_func(func_view(s, i, h, offset, names), n),
            func_view(t, i + n, moved_shape(h, n), offset, others),
        ),
{
    let m = mask(s);
    let l = mask(t);
    lemma_shape_order(s, m, i);
    lemma_modified_after(s, m, t, l, q, n, "query"@, i, 0, p);
    lemma_modified_after(s, m, t, l, q, n, "shared"@, i, 0, p);
    assert(t.subrange(h.name_start + n, h.name_end + n) =~= s.subrange(h.name_start, h.name_end));
    assert(t.subrange(h.params_open + n, h.params_close + n) =~= s.subrange(
        h.params_open,
        h.params_close,
    ));
    assert(t.subrange(h.body_open + n + 1, h.body_close + n) =~= s.subrange(
        h.body_open + 1,
        h.body_close,
    ));
}

/// A function before the insertion stays.
proof fn lemma_func_stays(
    s: Seq<char>,
    t: Seq<char>,
    q: int,
    n: int,
    i: int,
    h: Shape,
    offset: int,
    names: Names,
    others: Names,
)
    requires
        grown(s, mask(s), t, mask(t), q, n),
        same_names(names, others),
        0 <= i,
        shape_at(s, mask(s), i) == Some(h),
        h.body_close < q,
    ensures
        alike(func_view(s, i, h, offset, names), func_view(t, i, h, offset, others)),
{
    let m = mask(s);
    let l = mask(t);
    lemma_shape_order(s, m, i);
    reveal_strlit("query");
    reveal_strlit("shared");
    lemma_modified_before(s, m, t, l, q, n, "query"@, i, 0);
    lemma_modified_before(s, m, t, l, q, n, "shared"@, i, 0);
    assert(t.subrange(h.name_start, h.name_end) =~= s.subrange(h.name_start, h.name_end));
    assert(t.subrange(h.params_open, h.params_close) =~= s.subrange(h.params_open, h.params_close));
    assert(t.subrange(h.body_open + 1, h.body_close) =~= s.subrange(h.body_open + 1, h.body_close));
}

/// From `i` on the function whose keyword stands at `at` is reached, and each public function
/// before it has a body.
pub open spec fn reads_to(s: Seq<char>, m: Seq<bool>, i: int, at: int) -> bool
    decreases s.len() - i,
{
    if i < 0 || i >= at || i + 4 > s.len() {
        i == at && 0 <= at && at + 4 <= s.len() && func_at(s, m, at) && modified_by(
            s,
            m,
            "public"@,
            at,
            0,
        )
    } else if !func_at(s, m, i) {
        reads_to(s, m, i + 1, at)
    } else if !modified_by(s, m, "public"@, i, 0) {
        reads_to(s, m, i + 4, at)
    } else {
        match shape_at(s, m, i) {
            Some(h) => {
                proof {
                    lemma_shape_at(s, m, i);
                    lemma_after_semis(s, h.body_close + 1);
                }
                reads_to(s, m, after_semis(s, h.body_close + 1), at)
            },
            None => false,
        }
    }
}

/// The function that something was put into, and those behind it.
proof fn lemma_funcs_here(
    s: Seq<char>,
    t: Seq<char>,
    q: int,
    n: int,
    at: int,
    offset: int,
    names: Names,
    others: Names,
    h2: Shape,
)
    requires
        grown(s, mask(s), t, mask(t), q, n),
        same_names(names, others),
        0 <= at,
        at + 4 <= s.len(),
        func_at(s, mask(s), at),
        modified_by(s, mask(s), "public"@, at, 0),
        shape_at(s, mask(s), at) matches Some(h) && h.params_open <= q <= h.body_close
            && h2.body_close == h.body_close + n && h2.name_start == h.name_start && h2.name_end
            == h.name_end,
        shape_at(t, mask(t), at) == Some(h2),
    ensures
        ({
            let h = shape_at(s, mask(s), at)->0;
            let a = funcs_from(s, mask(s), at, offset, names);
            let b = funcs_from(t, mask(t), at, offset, others);
            let g = func_view(t, at, h2, offset, others);
            &&& 0 < a.len()
            &&& a.len() == b.len()
            &&& a[0] == func_view(s, at, h, offset, names)
            &&& b[0] == g
            &&& g.name == a[0].name
            &&& forall|j: int| 0 < j < a.len() ==> alike(moved_func(a[j], n), #[trigger] b[j])
        }),
{
    let m = mask(s);
    let l = mask(t);
    let h = shape_at(s, m, at)->0;
    let a = funcs_from(s, m, at, offset, names);
    let b = funcs_from(t, l, at, offset, others);
    lemma_shape_order(s, m, at);
    reveal_strlit("public");
    lemma_func_before(s, m, t, l, q, n, at);
    lemma_modified_before(s, m, t, l, q, n, "public"@, at, 0);
    let close = h.body_close;
    assert(t.subrange(h.name_start, h.name_end) =~= s.subrange(h.name_start, h.name_end));
    lemma_semis_after(s, m, t, l, q, n, close + 1);
    let next = after_semis(s, close + 1);
    lemma_funcs_after(s, t, q, n, next, close, offset, names, others);
    let rest = funcs_from(s, m, next, offset, names);
    let later = funcs_from(t, l, next + n, offset, others);
    assert forall|j: int| 0 < j < a.len() implies alike(moved_func(a[j], n), #[trigger] b[j]) by {
        assert(a[j] == rest[j - 1]);
        assert(b[j] == later[j - 1]);
    }
}

/// A list of functions with one more at its start.
proof fn lemma_funcs_front(
    x: FuncView,
    y: FuncView,
    rest: Seq<FuncView>,
    later: Seq<FuncView>,
    k: int,
    n: int,
)
    requires
        alike(x, y),
        0 <= k < rest.len(),
        rest.len() == later.len(),
        forall|j: int| 0 <= j < k ==> alike(rest[j], #[trigger] later[j]),
        forall|j: int| k < j < rest.len() ==> alike(moved_func(rest[j], n), #[trigger] later[j]),
    ensures
        ({
            let a = seq![x] + rest;
            let b = seq![y] + later;
            &&& forall|j: int| 0 <= j < k + 1 ==> alike(a[j], #[trigger] b[j])
            &&& forall|j: int| k + 1 < j < a.len() ==> alike(moved_func(a[j], n), #[trigger] b[j])
            &&& a[k + 1] == rest[k]
            &&& b[k + 1] == later[k]
        }),
{
    let a = seq![x] + rest;
    let b = seq![y] + later;
    assert forall|j: int| 0 <= j < k + 1 implies alike(a[j], #[trigger] b[j]) by {
        if j > 0 {
            assert(a[j] == rest[j - 1]);
            assert(b[j] == later[j - 1]);
        }
    }
    assert forall|j: int| k + 1 < j < a.len() implies alike(
        moved_func(a[j], n),
        #[trigger] b[j],
    ) by {
        assert(a[j] == rest[j - 1]);
        assert(b[j] == later[j - 1]);
    }
}

/// Once something is put into the parameters or the body of a function, that function ends as much
/// later, those before it stay, and those behind it move.
pub proof fn lemma_funcs_grow(
    s: Seq<char>,
    t: Seq<char>,
    q: int,
    n: int,
    i: int,
    at: int,
    offset: int,
    names: Names,
    others: Names,
    h2: Shape,
) -> (k: int)
    requires
        grown(s, mask(s), t, mask(t), q, n),
        same_names(names, others),
        0 <= i <= at,
        reads_to(s, mask(s), i, at),
        shape_at(s, mask(s), at) matches Some(h) && h.params_open <= q <= h.body_close
            && h2.body_close == h.body_close + n && h2.name_start == h.name_start && h2.name_end
            == h.name_end,
        shape_at(t, mask(t), at) == Some(h2),
    ensures
        ({
            let h = shape_at(s, mask(s), at)->0;
            let a = funcs_from(s, mask(s), i, offset, names);
            let b = funcs_from(t, mask(t), i, offset, others);
            let g = func_view(t, at, h2, offset, others);
            &&& 0 <= k < a.len()
            &&& a.len() == b.len()
            &&& a[k] == func_view(s, at, h, offset, names)
            &&& b[k] == g
            &&& g.name == a[k].name
            &&& forall|j: int| 0 <= j < k ==> alike(a[j], #[trigger] b[j])
            &&& forall|j: int| k < j < a.len() ==> alike(moved_func(a[j], n), #[trigger] b[j])
        }),
    decreases s.len() - i,
{
    let m = mask(s);
    let l = mask(t);
    let h = shape_at(s, m, at)->0;
    let a = funcs_from(s, m, i, offset, names);
    let b = funcs_from(t, l, i, offset, others);
    lemma_shape_order(s, m, at);
    reveal_strlit("public");
    lemma_func_before(s, m, t, l, q, n, i);
    lemma_modified_before(s, m, t, l, q, n, "public"@, i, 0);
    if i == at {
        lemma_funcs_here(s, t, q, n, at, offset, names, others, h2);
        0
    } else if !func_at(s, m, i) {
        lemma_funcs_grow(s, t, q, n, i + 1, at, offset, names, others, h2)
    } else if !modified_by(s, m, "public"@, i, 0) {
        assert(reads_to(s, m, i + 4, at));
        lemma_reads_order(s, m, i + 4, at);
        lemma_funcs_grow(s, t, q, n, i + 4, at, offset, names, others, h2)
    } else {
        let g = shape_at(s, m, i)->0;
        lemma_shape_order(s, m, i);
        let next = after_semis(s, g.body_close + 1);
        lemma_reads_order(s, m, next, at);
        lemma_after_semis(s, g.body_close + 1);
        lemma_shape_before(s, m, t, l, q, n, i);
        lemma_semis_before(s, t, q, g.body_close + 1);
        lemma_func_stays(s, t, q, n, i, g, offset, names, others);
        let k = lemma_funcs_grow(s, t, q, n, next, at, offset, names, others, h2);
        let rest = funcs_from(s, m, next, offset, names);
        let later = funcs_from(t, l, next, offset, others);
        lemma_funcs_front(
            func_view(s, i, g, offset, names),
            func_view(t, i, g, offset, others),
            rest,
            later,
            k,
            n,
        );
        k + 1
    }
}

pub proof fn lemma_reads_order(s: Seq<char>, m: Seq<bool>, i: int, at: int)
    requires
        reads_to(s, m, i, at),
    ensures
        i <= at,
{
}

pub proof fn lemma_semis_before(s: Seq<char>, t: Seq<char>, q: int, i: int)
    requires
        0 <= i,
        q <= s.len(),
        q <= t.len(),
        forall|x: int| 0 <= x < q ==> #[trigger] t[x] == s[x],
        after_semis(s, i) < q,
    ensures
        after_semis(t, i) == after_semis(s, i),
    decreases q - i,
{
    if i < s.len() && (s[i] == ';' || s[i] == ' ') {
        lemma_after_semis(s, i + 1);
        assert(t[i] == s[i]);
        lemma_semis_before(s, t, q, i + 1);
    } else if i < q {
        assert(t[i] == s[i]);
    }
}

} // verus!
