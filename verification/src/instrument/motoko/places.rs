//! Where in a Motoko actor the places stand that the rules look at.

use vstd::prelude::*;
use vstd::string::*;

use crate::instrument::motoko::body::{
    actor_vars, declares, name_start, snapshot_near, statement_end, throws, traps, traps_from,
    var_name, vars_from, words_from, write_at, writes, writes_from, StatementEnd, WriteView,
};
use crate::instrument::motoko::funcs::{
    body_from, is_type_prefix, lemma_ident_end, after_semis, func_at, func_view, funcs_from,
    lemma_after_semis, lemma_shape_at, modified_by, public_funcs, shape_at, FuncView, Names,
};
use crate::instrument::motoko::scan::{
    block_end, code_end, code_match, skip_end, string_end, find_code, find_name, lemma_find_code,
    lemma_find_name, lemma_matching, mask, matching, name_match, word_at,
};
use crate::instrument::motoko::grown::lemma_mask_shift;
use crate::text::{
    back_space, ident_end, is_ascii_space, is_ident_char, is_space, line_end, skip_space,
    starts_with, trim_start,
};

verus! {

// ---------- Functions ----------

/// The function whose `func` stands at `i` is one that is read, or stands in one that is.
spec fn is_read(s: Seq<char>, m: Seq<bool>, i: int, at: int, offset: int, names: Names) -> bool {
    exists|k: int|
        i <= k <= at && #[trigger] shape_at(s, m, k) is Some && at <= shape_at(s, m, k)->0.body_close
            && funcs_from(s, m, i, offset, names).contains(
            func_view(s, k, shape_at(s, m, k)->0, offset, names),
        )
}

proof fn lemma_no_func_inside(s: Seq<char>, m: Seq<bool>, i: int, at: int)
    requires
        func_at(s, m, i),
        func_at(s, m, at),
        i < at,
    ensures
        at >= i + 4,
{
    reveal_strlit("func");
    assert(s.subrange(i, i + 4)[0] == s[i]);
    assert(s.subrange(i, i + 4)[1] == s[i + 1]);
    assert(s.subrange(i, i + 4)[2] == s[i + 2]);
    assert(s.subrange(i, i + 4)[3] == s[i + 3]);
    assert(s.subrange(at, at + 4)[0] == s[at]);
    assert(s[at] == 'f');
    assert(s[i + 1] == 'u' && s[i + 2] == 'n' && s[i + 3] == 'c');
}

proof fn lemma_blanks_between(s: Seq<char>, i: int)
    requires
        0 <= i,
    ensures
        forall|k: int| i <= k < after_semis(s, i) ==> #[trigger] s[k] == ';' || s[k] == ' ',
        i <= after_semis(s, i),
    decreases s.len() - i,
{
    if 0 <= i < s.len() && (s[i] == ';' || s[i] == ' ') {
        lemma_blanks_between(s, i + 1);
    }
}

proof fn lemma_is_read(s: Seq<char>, m: Seq<bool>, i: int, at: int, offset: int, names: Names)
    requires
        0 <= i <= at,
        func_at(s, m, at),
        modified_by(s, m, "public"@, at, 0),
        shape_at(s, m, at) is Some,
    ensures
        is_read(s, m, i, at, offset, names),
    decreases s.len() - i,
{
    reveal_strlit("func");
    assert(i + 4 <= s.len());
    let here = funcs_from(s, m, i, offset, names);
    if !func_at(s, m, i) {
        lemma_is_read(s, m, i + 1, at, offset, names);
        lemma_read_later(s, m, i, i + 1, at, offset, names);
    } else if !modified_by(s, m, "public"@, i, 0) || shape_at(s, m, i) is None {
        lemma_no_func_inside(s, m, i, at);
        lemma_is_read(s, m, i + 4, at, offset, names);
        lemma_read_later(s, m, i, i + 4, at, offset, names);
    } else {
        let h = shape_at(s, m, i)->0;
        lemma_shape_at(s, m, i);
        lemma_after_semis(s, h.body_close + 1);
        let f = func_view(s, i, h, offset, names);
        let next = after_semis(s, h.body_close + 1);
        let rest = funcs_from(s, m, next, offset, names);
        assert(here == seq![f] + rest);
        if at <= h.body_close {
            assert(here[0] == f);
            assert(shape_at(s, m, i) is Some);
        } else {
            lemma_blanks_between(s, h.body_close + 1);
            assert(s.subrange(at, at + 4)[0] == s[at]);
            assert(s[at] == 'f');
            assert(at >= next);
            lemma_is_read(s, m, next, at, offset, names);
            let k = choose|k: int|
                next <= k <= at && #[trigger] shape_at(s, m, k) is Some && at <= shape_at(
                    s,
                    m,
                    k,
                )->0.body_close && rest.contains(
                    func_view(s, k, shape_at(s, m, k)->0, offset, names),
                );
            let g = func_view(s, k, shape_at(s, m, k)->0, offset, names);
            let x = choose|x: int| 0 <= x < rest.len() && rest[x] == g;
            assert(here[x + 1] == g);
        }
    }
}

proof fn lemma_read_later(
    s: Seq<char>,
    m: Seq<bool>,
    i: int,
    j: int,
    at: int,
    offset: int,
    names: Names,
)
    requires
        i <= j,
        is_read(s, m, j, at, offset, names),
        funcs_from(s, m, i, offset, names) == funcs_from(s, m, j, offset, names),
    ensures
        is_read(s, m, i, at, offset, names),
{
    let k = choose|k: int|
        j <= k <= at && #[trigger] shape_at(s, m, k) is Some && at <= shape_at(s, m, k)->0.body_close
            && funcs_from(s, m, j, offset, names).contains(
            func_view(s, k, shape_at(s, m, k)->0, offset, names),
        );
    assert(shape_at(s, m, k) is Some);
}

/// No public function is passed over: each one that has a name, parameters and a body is read, or
/// stands in the body of one that is. The result is where the `func` of that one stands.
pub proof fn law_public_functions_are_read(
    s: Seq<char>,
    at: int,
    offset: int,
    names: Names,
) -> (k: int)
    requires
        0 <= at,
        func_at(s, mask(s), at),
        modified_by(s, mask(s), "public"@, at, 0),
        shape_at(s, mask(s), at) is Some,
    ensures
        0 <= k <= at,
        shape_at(s, mask(s), k) is Some,
        at <= shape_at(s, mask(s), k)->0.body_close,
        public_funcs(s, offset, names).contains(
            func_view(s, k, shape_at(s, mask(s), k)->0, offset, names),
        ),
{
    let m = mask(s);
    lemma_is_read(s, m, 0, at, offset, names);
    let k = choose|k: int|
        0 <= k <= at && #[trigger] shape_at(s, m, k) is Some && at <= shape_at(s, m, k)->0.body_close
            && funcs_from(s, m, 0, offset, names).contains(
            func_view(s, k, shape_at(s, m, k)->0, offset, names),
        );
    k
}

proof fn lemma_read_is_public(
    s: Seq<char>,
    m: Seq<bool>,
    i: int,
    offset: int,
    names: Names,
    f: FuncView,
) -> (k: int)
    requires
        funcs_from(s, m, i, offset, names).contains(f),
    ensures
        i <= k,
        func_at(s, m, k),
        modified_by(s, m, "public"@, k, 0),
        shape_at(s, m, k) is Some,
        f == func_view(s, k, shape_at(s, m, k)->0, offset, names),
    decreases s.len() - i,
{
    if !func_at(s, m, i) {
        lemma_read_is_public(s, m, i + 1, offset, names, f)
    } else if !modified_by(s, m, "public"@, i, 0) || shape_at(s, m, i) is None {
        lemma_read_is_public(s, m, i + 4, offset, names, f)
    } else {
        let h = shape_at(s, m, i)->0;
        lemma_shape_at(s, m, i);
        lemma_after_semis(s, h.body_close + 1);
        let next = after_semis(s, h.body_close + 1);
        let own = func_view(s, i, h, offset, names);
        let rest = funcs_from(s, m, next, offset, names);
        let all = seq![own] + rest;
        if f == own {
            i
        } else {
            let x = choose|x: int| 0 <= x < all.len() && all[x] == f;
            assert(rest[x - 1] == f);
            lemma_read_is_public(s, m, next, offset, names, f)
        }
    }
}

/// What is read as a public function is one: its `func` stands in code, and `public` leads to it.
pub proof fn law_only_public_functions_are_read(
    s: Seq<char>,
    offset: int,
    names: Names,
    f: FuncView,
) -> (k: int)
    requires
        public_funcs(s, offset, names).contains(f),
    ensures
        0 <= k,
        k + 4 <= s.len(),
        s.subrange(k, k + 4) == "func"@,
        mask(s)[k],
        modified_by(s, mask(s), "public"@, k, 0),
        shape_at(s, mask(s), k) is Some,
        f == func_view(s, k, shape_at(s, mask(s), k)->0, offset, names),
{
    reveal_strlit("func");
    lemma_read_is_public(s, mask(s), 0, offset, names, f)
}

// ---------- Throws and traps ----------

proof fn lemma_words(s: Seq<char>, m: Seq<bool>, w: Seq<char>, i: int, at: int)
    requires
        0 <= i,
    ensures
        words_from(s, m, w, i).contains(at) <==> i <= at < s.len() && word_at(s, m, at, w),
    decreases s.len() - i,
{
    if i < s.len() {
        lemma_words(s, m, w, i + 1, at);
        let rest = words_from(s, m, w, i + 1);
        if word_at(s, m, i, w) {
            let all = seq![i] + rest;
            if rest.contains(at) {
                let x = choose|x: int| 0 <= x < rest.len() && rest[x] == at;
                assert(all[x + 1] == at);
            }
            assert(all[0] == i);
            if all.contains(at) && at != i {
                let x = choose|x: int| 0 <= x < all.len() && all[x] == at;
                assert(rest[x - 1] == at);
            }
        }
    }
}

/// The throws of a body are the places where the word `throw` stands in code, and no others.
pub proof fn law_throws(body: Seq<char>, at: int)
    ensures
        throws(body).contains(at) <==> {
            &&& 0 <= at
            &&& at + 5 <= body.len()
            &&& body.subrange(at, at + 5) == "throw"@
            &&& forall|k: int| at <= k < at + 5 ==> #[trigger] mask(body)[k]
            &&& at > 0 ==> !is_ident_char(body[at - 1])
            &&& at + 5 < body.len() ==> !is_ident_char(body[at + 5])
        },
{
    reveal_strlit("throw");
    lemma_words(body, mask(body), "throw"@, 0, at);
}

/// `Debug.trap` is called at `at`, in code.
pub open spec fn traps_at(body: Seq<char>, m: Seq<bool>, at: int) -> bool {
    &&& 0 <= at
    &&& at + 10 <= body.len()
    &&& body.subrange(at, at + 10) == "Debug.trap"@
    &&& forall|k: int| at <= k < at + 10 ==> #[trigger] m[k]
    &&& at > 0 ==> !is_ident_char(body[at - 1])
    &&& exists|e: int|
        at + 10 <= e < body.len() && #[trigger] body[e] == '(' && forall|k: int|
            at + 10 <= k < e ==> is_space(#[trigger] body[k])
}

proof fn lemma_skip(s: Seq<char>, i: int)
    requires
        0 <= i <= s.len(),
    ensures
        i <= skip_space(s, i) <= s.len(),
        forall|k: int| i <= k < skip_space(s, i) ==> is_space(#[trigger] s[k]),
        skip_space(s, i) < s.len() ==> !is_space(s[skip_space(s, i)]),
    decreases s.len() - i,
{
    if i < s.len() && is_space(s[i]) {
        lemma_skip(s, i + 1);
    }
}

proof fn lemma_bracket_follows(s: Seq<char>, next: int)
    requires
        0 <= next <= s.len(),
    ensures
        starts_with(trim_start(s.subrange(next, s.len() as int)), "("@) <==> exists|e: int|
            next <= e < s.len() && #[trigger] s[e] == '(' && forall|k: int|
                next <= k < e ==> is_space(#[trigger] s[k]),
{
    reveal_strlit("(");
    let t = s.subrange(next, s.len() as int);
    lemma_skip(t, 0);
    let n = skip_space(t, 0);
    let u = trim_start(t);
    assert(u =~= t.subrange(n, t.len() as int));
    if starts_with(u, "("@) {
        assert(u.subrange(0, 1)[0] == u[0]);
        assert(u[0] == '(');
        assert(s[next + n] == '(');
        assert forall|k: int| next <= k < next + n implies is_space(#[trigger] s[k]) by {
            assert(t[k - next] == s[k]);
        }
    }
    if exists|e: int|
        next <= e < s.len() && #[trigger] s[e] == '(' && forall|k: int|
            next <= k < e ==> is_space(#[trigger] s[k]) {
        let e = choose|e: int|
            next <= e < s.len() && #[trigger] s[e] == '(' && forall|k: int|
                next <= k < e ==> is_space(#[trigger] s[k]);
        if next + n < e {
            assert(is_space(s[next + n]));
            assert(t[n] == s[next + n]);
        }
        if next + n > e {
            assert(t[e - next] == s[e]);
            assert(is_space(t[e - next]));
            assert(!is_space('('));
        }
        assert(u[0] == t[n]);
        assert(u.subrange(0, 1) =~= "("@);
    }
}

proof fn lemma_between_names(s: Seq<char>, m: Seq<bool>, p: Seq<char>, i: int, at: int)
    requires
        0 <= i <= at,
        name_match(s, m, at, p),
    ensures
        find_name(s, m, p, i) matches Some(k) && k <= at,
    decreases at - i,
{
    if !name_match(s, m, i, p) {
        lemma_between_names(s, m, p, i + 1, at);
    }
}

proof fn lemma_traps(s: Seq<char>, m: Seq<bool>, i: int, at: int)
    requires
        0 <= i,
    ensures
        traps_from(s, m, i).contains(at) <==> i <= at && traps_at(s, m, at),
    decreases s.len() - i,
{
    let p = "Debug.trap"@;
    reveal_strlit("Debug.trap");
    let name = name_match(s, m, at, p);
    assert(p[0] == 'D');
    assert(is_ident_char('D'));
    if i <= at && traps_at(s, m, at) {
        assert(name_match(s, m, at, p));
        lemma_between_names(s, m, p, i, at);
    }
    match find_name(s, m, p, i) {
        Some(k) => {
            lemma_find_name(s, m, p, i);
            let next = k + 10;
            let rest = traps_from(s, m, next);
            lemma_traps(s, m, next, at);
            lemma_bracket_follows(s, next);
            if k < at < next && traps_at(s, m, at) {
                assert(s.subrange(at, at + 10)[0] == s[at]);
                assert(s.subrange(k, k + 10)[at - k] == s[at]);
                assert(p[at - k] != 'D');
            }
            assert(starts_with(trim_start(s.subrange(next, s.len() as int)), "("@) <==> traps_at(
                s,
                m,
                k,
            ));
            let all = seq![k] + rest;
            assert(all[0] == k);
            if rest.contains(at) {
                let x = choose|x: int| 0 <= x < rest.len() && rest[x] == at;
                assert(all[x + 1] == at);
            }
            if all.contains(at) && at != k {
                let x = choose|x: int| 0 <= x < all.len() && all[x] == at;
                assert(rest[x - 1] == at);
            }
        },
        None => {},
    }
}

/// The traps of a body are the places where `Debug.trap` is called in code, and no others.
pub proof fn law_traps(body: Seq<char>, at: int)
    ensures
        traps(body).contains(at) <==> traps_at(body, mask(body), at),
{
    lemma_traps(body, mask(body), 0, at);
}

// ---------- Assignments ----------

proof fn lemma_between_codes(s: Seq<char>, m: Seq<bool>, p: Seq<char>, i: int, at: int)
    requires
        0 <= i <= at,
        p.len() > 0,
        code_match(s, m, at, p),
    ensures
        find_code(s, m, p, i) matches Some(k) && k <= at,
    decreases at - i,
{
    if !code_match(s, m, i, p) {
        lemma_between_codes(s, m, p, i + 1, at);
    }
}

proof fn lemma_writes(s: Seq<char>, m: Seq<bool>, vars: Seq<Seq<char>>, i: int, at: int)
    requires
        0 <= i <= at,
        code_match(s, m, at, ":="@),
        write_at(s, m, vars, at) is Some,
    ensures
        writes_from(s, m, vars, i).contains(write_at(s, m, vars, at)->0),
    decreases s.len() - i,
{
    let p = ":="@;
    reveal_strlit(":=");
    lemma_between_codes(s, m, p, i, at);
    lemma_find_code(s, m, p, i);
    let k = find_code(s, m, p, i)->0;
    let w = write_at(s, m, vars, at)->0;
    let rest = writes_from(s, m, vars, k + 2);
    if k == at {
        assert((seq![w] + rest)[0] == w);
    } else {
        if at == k + 1 {
            assert(s.subrange(k, k + 2)[1] == s[at]);
            assert(s.subrange(at, at + 2)[0] == s[at]);
        }
        lemma_writes(s, m, vars, k + 2, at);
        let x = choose|x: int| 0 <= x < rest.len() && rest[x] == w;
        if let Some(v) = write_at(s, m, vars, k) {
            assert((seq![v] + rest)[x + 1] == w);
        }
    }
}

proof fn lemma_statement_end(s: Seq<char>, m: Seq<bool>, i: int, q: int)
    requires
        0 <= i <= q < s.len(),
        m[q],
        s[q] == ';',
        forall|k: int|
            i <= k < q && m[k] ==> {
                let c = #[trigger] s[k];
                c != ';' && c != '(' && c != ')' && c != '{' && c != '}' && c != '[' && c != ']'
            },
    ensures
        statement_end(s, m, i, 0) == Some(StatementEnd { at: q + 1, closed: true }),
    decreases q - i,
{
    if i < q {
        assert(s[i] == s[i]);
        lemma_statement_end(s, m, i + 1, q);
    }
}

proof fn lemma_back(s: Seq<char>, e: int, n: int)
    requires
        0 < e <= n <= s.len(),
        !is_space(s[e - 1]),
        forall|k: int| e <= k < n ==> is_space(#[trigger] s[k]),
    ensures
        back_space(s, n) == e,
    decreases n,
{
    if n > e {
        assert(is_space(s[n - 1]));
        lemma_back(s, e, n - 1);
    }
}

proof fn lemma_name_start(s: Seq<char>, b: int, e: int)
    requires
        0 <= b <= e <= s.len(),
        b > 0 ==> !is_ident_char(s[b - 1]),
        forall|k: int| b <= k < e ==> is_ident_char(#[trigger] s[k]),
    ensures
        name_start(s, e) == b,
    decreases e,
{
    if e > b {
        assert(is_ident_char(s[e - 1]));
        lemma_name_start(s, b, e - 1);
    }
}

/// A `var` that declares `name` stands in code before `end`.
pub open spec fn is_hidden(s: Seq<char>, name: Seq<char>, end: int) -> bool {
    exists|k: int|
        0 <= k < end && #[trigger] word_at(s, mask(s), k, "var"@) && var_name(s, mask(s), k) == name
}

proof fn lemma_declares(s: Seq<char>, m: Seq<bool>, name: Seq<char>, i: int, end: int)
    ensures
        declares(s, m, name, i, end) <==> exists|k: int|
            i <= k < end && #[trigger] word_at(s, m, k, "var"@) && var_name(s, m, k) == name,
    decreases end - i,
{
    if i < end {
        lemma_declares(s, m, name, i + 1, end);
        if word_at(s, m, i, "var"@) && var_name(s, m, i) == name {
            assert(i <= i < end && word_at(s, m, i, "var"@));
        }
    }
}

/// An assignment to a variable of the actor is read, where it assigns the variable by its name
/// alone, no `var` of the body hides that name, the statement ends at a `;` with no brackets before
/// it, and no snapshot follows. `b` and `e` are where the name begins and ends, `at` is where the
/// `:=` stands and `q` the `;`.
pub proof fn law_assignment_is_read(
    body: Seq<char>,
    vars: Seq<Seq<char>>,
    b: int,
    e: int,
    at: int,
    q: int,
)
    requires
        0 <= b < e <= at,
        at + 2 <= q < body.len(),
        body.subrange(at, at + 2) == ":="@,
        mask(body)[at],
        mask(body)[at + 1],
        forall|k: int| b <= k < e ==> is_ident_char(#[trigger] body[k]),
        b > 0 ==> !is_ident_char(body[b - 1]),
        forall|k: int| e <= k < at ==> is_space(#[trigger] body[k]),
        vars.contains(body.subrange(b, e)),
        code_end(body, mask(body), b) > 0 ==> body[code_end(body, mask(body), b) - 1] != '.',
        !is_hidden(body, body.subrange(b, e), b),
        mask(body)[q],
        body[q] == ';',
        forall|k: int|
            at + 2 <= k < q && mask(body)[k] ==> {
                let c = #[trigger] body[k];
                c != ';' && c != '(' && c != ')' && c != '{' && c != '}' && c != '[' && c != ']'
            },
        !snapshot_near(body, q + 1),
    ensures
        writes(body, vars).contains(
            WriteView { name: body.subrange(b, e), start: b, end: q + 1, closed: true },
        ),
{
    let m = mask(body);
    reveal_strlit(":=");
    assert(is_ident_char(body[e - 1]));
    lemma_back(body, e, at);
    lemma_name_start(body, b, e);
    lemma_declares(body, m, body.subrange(b, e), 0, b);
    lemma_statement_end(body, m, at + 2, q);
    lemma_writes(body, m, vars, 0, at);
}

/// The braces that are open at `j`, in code, less those that close.
pub open spec fn braces(s: Seq<char>, m: Seq<bool>, j: int) -> int
    decreases j,
{
    if j <= 0 {
        0
    } else {
        braces(s, m, j - 1) + (if m[j - 1] && s[j - 1] == '{' {
            1int
        } else if m[j - 1] && s[j - 1] == '}' {
            -1
        } else {
            0
        })
    }
}

proof fn lemma_vars(s: Seq<char>, m: Seq<bool>, i: int, name: Seq<char>)
    requires
        0 <= i,
    ensures
        vars_from(s, m, i, braces(s, m, i)).contains(name) <==> exists|k: int|
            i <= k < s.len() && #[trigger] word_at(s, m, k, "var"@) && braces(s, m, k) == 0
                && var_name(s, m, k) == name,
    decreases s.len() - i,
{
    reveal_strlit("var");
    if i < s.len() {
        lemma_vars(s, m, i + 1, name);
        let depth = braces(s, m, i);
        let rest = vars_from(s, m, i + 1, braces(s, m, i + 1));
        if word_at(s, m, i, "var"@) {
            assert(s.subrange(i, i + 3)[0] == s[i]);
            assert(s[i] == 'v');
        }
        if depth == 0 && word_at(s, m, i, "var"@) {
            let own = var_name(s, m, i);
            let all = seq![own] + rest;
            assert(vars_from(s, m, i, depth) == all);
            assert(all[0] == own);
            if rest.contains(name) {
                let x = choose|x: int| 0 <= x < rest.len() && rest[x] == name;
                assert(all[x + 1] == name);
            }
            if all.contains(name) && own != name {
                let x = choose|x: int| 0 <= x < all.len() && all[x] == name;
                assert(rest[x - 1] == name);
            }
            assert(own == name ==> word_at(s, m, i, "var"@) && braces(s, m, i) == 0 && var_name(
                s,
                m,
                i,
            ) == name);
        } else {
            assert(vars_from(s, m, i, depth) == rest);
        }
    }
}

/// The variables of an actor are those that its body declares outside braces, and no others.
pub proof fn law_actor_vars(body: Seq<char>, name: Seq<char>)
    ensures
        actor_vars(body).contains(name) <==> exists|k: int|
            0 <= k < body.len() && #[trigger] word_at(body, mask(body), k, "var"@) && braces(
                body,
                mask(body),
                k,
            ) == 0 && var_name(body, mask(body), k) == name,
{
    lemma_vars(body, mask(body), 0, name);
}

// ---------- Code, comments and strings ----------

/// As many characters that are no code.
pub open spec fn no_code(n: nat) -> Seq<bool> {
    Seq::new(n, |k: int| false)
}

proof fn lemma_passed(x: Seq<char>, t: Seq<char>)
    requires
        x.len() > 0,
        skip_end(x + t, 0) == Some(x.len() as int),
    ensures
        mask(x + t) == no_code(x.len()) + mask(t),
{
    lemma_mask_shift(x, t, 0);
    assert(mask(x + t) =~= no_code(x.len()) + mask(t));
}

/// A character that begins no comment and no string literal is code, and what follows it is code or
/// not as it would be by itself.
pub proof fn law_plain_character_is_code(c: char, t: Seq<char>)
    requires
        c != '"',
        c == '/' && t.len() > 0 ==> t[0] != '/' && t[0] != '*',
    ensures
        mask(seq![c] + t) == seq![true] + mask(t),
{
    let s = seq![c] + t;
    if t.len() > 0 {
        assert(s[1] == t[0]);
    }
    lemma_mask_shift(seq![c], t, 0);
}

/// A comment up to the end of its line is no code; the line feed behind it is.
pub proof fn law_line_comment_is_no_code(x: Seq<char>, t: Seq<char>)
    requires
        x.len() >= 2,
        x[0] == '/',
        x[1] == '/',
        forall|k: int| 0 <= k < x.len() ==> #[trigger] x[k] != '\n',
        t.len() > 0 ==> t[0] == '\n',
    ensures
        mask(x + t) == no_code(x.len()) + mask(t),
{
    let s = x + t;
    assert(s[0] == '/' && s[1] == '/');
    lemma_line_of(s, 0, x.len() as int);
    lemma_passed(x, t);
}

proof fn lemma_line_of(s: Seq<char>, i: int, e: int)
    requires
        0 <= i <= e <= s.len(),
        forall|k: int| i <= k < e ==> #[trigger] s[k] != '\n',
        e < s.len() ==> s[e] == '\n',
    ensures
        line_end(s, i) == e,
    decreases e - i,
{
    if i < e {
        assert(s[i] != '\n');
        lemma_line_of(s, i + 1, e);
    }
}

/// The inside of a string literal: characters that are no quotes, and any behind a backslash.
pub open spec fn inside_string(x: Seq<char>, i: int) -> bool
    decreases x.len() + 1 - i,
{
    if i < 0 || i >= x.len() {
        i == x.len()
    } else if x[i] == '\\' {
        inside_string(x, i + 2)
    } else {
        x[i] != '"' && inside_string(x, i + 1)
    }
}

proof fn lemma_string_of(s: Seq<char>, x: Seq<char>, i: int)
    requires
        0 <= i <= x.len(),
        inside_string(x, i),
        s.len() > x.len() + 1,
        forall|k: int| 0 <= k < x.len() ==> s[k + 1] == #[trigger] x[k],
        s[x.len() as int + 1] == '"',
    ensures
        string_end(s, i + 1) == x.len() + 2,
    decreases x.len() - i,
{
    if i < x.len() {
        assert(s[i + 1] == x[i]);
        if x[i] == '\\' {
            assert(inside_string(x, i + 2));
            assert(i + 2 <= x.len());
            lemma_string_of(s, x, i + 2);
        } else {
            lemma_string_of(s, x, i + 1);
        }
    }
}

/// A string literal is no code, its quotes included.
pub proof fn law_string_is_no_code(x: Seq<char>, t: Seq<char>)
    requires
        inside_string(x, 0),
    ensures
        mask(seq!['"'] + x + seq!['"'] + t) == no_code(x.len() + 2) + mask(t),
{
    let lit = seq!['"'] + x + seq!['"'];
    let s = lit + t;
    assert(s[0] == '"');
    assert forall|k: int| 0 <= k < x.len() implies s[k + 1] == #[trigger] x[k] by {}
    lemma_string_of(s, x, 0);
    lemma_passed(lit, t);
}

/// A text with no `/` and no `*`.
pub open spec fn no_marks(x: Seq<char>) -> bool {
    forall|k: int| 0 <= k < x.len() ==> #[trigger] x[k] != '/' && x[k] != '*'
}

proof fn lemma_block_over(s: Seq<char>, i: int, j: int, depth: nat)
    requires
        0 <= i <= j <= s.len(),
        depth > 0,
        forall|k: int| i <= k < j ==> #[trigger] s[k] != '/' && s[k] != '*',
    ensures
        block_end(s, i, depth) == block_end(s, j, depth),
    decreases j - i,
{
    if i < j {
        assert(s[i] != '/' && s[i] != '*');
        lemma_block_over(s, i + 1, j, depth);
    }
}

/// A block comment is no code, its marks included.
pub proof fn law_block_comment_is_no_code(x: Seq<char>, t: Seq<char>)
    requires
        no_marks(x),
    ensures
        mask(seq!['/', '*'] + x + seq!['*', '/'] + t) == no_code(x.len() + 4) + mask(t),
{
    let c = seq!['/', '*'] + x + seq!['*', '/'];
    let s = c + t;
    let n = x.len() as int;
    assert(s[0] == '/' && s[1] == '*' && s[n + 2] == '*' && s[n + 3] == '/');
    assert forall|k: int| 2 <= k < n + 2 implies #[trigger] s[k] != '/' && s[k] != '*' by {
        assert(s[k] == x[k - 2]);
    }
    lemma_block_over(s, 2, n + 2, 1);
    assert(block_end(s, n + 2, 1) == block_end(s, n + 4, 0));
    lemma_passed(c, t);
}

/// A block comment ends where as many marks close as open: one in it does not end it.
pub proof fn law_block_comments_nest(x: Seq<char>, y: Seq<char>, z: Seq<char>, t: Seq<char>)
    requires
        no_marks(x),
        no_marks(y),
        no_marks(z),
    ensures
        mask(
            seq!['/', '*'] + x + seq!['/', '*'] + y + seq!['*', '/'] + z + seq!['*', '/'] + t,
        ) == no_code(x.len() + y.len() + z.len() + 8) + mask(t),
{
    let c = seq!['/', '*'] + x + seq!['/', '*'] + y + seq!['*', '/'] + z + seq!['*', '/'];
    let s = c + t;
    let a = 2 + x.len() as int;
    let b = a + 2 + y.len();
    let d = b + 2 + z.len();
    assert(s[0] == '/' && s[1] == '*' && s[a] == '/' && s[a + 1] == '*');
    assert(s[b] == '*' && s[b + 1] == '/' && s[d] == '*' && s[d + 1] == '/');
    assert forall|k: int| 2 <= k < a implies #[trigger] s[k] != '/' && s[k] != '*' by {
        assert(s[k] == x[k - 2]);
    }
    assert forall|k: int| a + 2 <= k < b implies #[trigger] s[k] != '/' && s[k] != '*' by {
        assert(s[k] == y[k - a - 2]);
    }
    assert forall|k: int| b + 2 <= k < d implies #[trigger] s[k] != '/' && s[k] != '*' by {
        assert(s[k] == z[k - b - 2]);
    }
    lemma_block_over(s, 2, a, 1);
    lemma_block_over(s, a + 2, b, 2);
    lemma_block_over(s, b + 2, d, 1);
    assert(block_end(s, a, 1) == block_end(s, a + 2, 2));
    assert(block_end(s, b, 2) == block_end(s, b + 2, 1));
    assert(block_end(s, d, 1) == block_end(s, d + 2, 0));
    lemma_passed(c, t);
}

// ---------- Where a body opens ----------

proof fn lemma_word_ends(s: Seq<char>, i: int, e: int)
    requires
        0 <= i <= e < s.len(),
        forall|x: int| i <= x < e ==> is_ident_char(#[trigger] s[x]),
        !is_ident_char(s[e]),
    ensures
        ident_end(s, i) == e,
    decreases e - i,
{
    if i < e {
        assert(is_ident_char(s[i]));
        lemma_word_ends(s, i + 1, e);
    }
}

proof fn lemma_word_within(s: Seq<char>, i: int, b: int)
    requires
        0 <= i < b <= s.len(),
        !is_ident_char(s[b - 1]),
    ensures
        ident_end(s, i) < b,
        i <= ident_end(s, i),
    decreases b - i,
{
    if is_ident_char(s[i]) {
        assert(i + 1 < b);
        lemma_word_within(s, i + 1, b);
    }
}

proof fn lemma_brace_follows(s: Seq<char>, m: Seq<bool>, i: int, open: int)
    requires
        0 <= i <= open < s.len(),
        s[open] == '{',
        m[open],
        forall|x: int| i <= x < open ==> !m[x] || is_ascii_space(#[trigger] s[x]),
    ensures
        body_from(s, m, i, false) == Some(open),
    decreases open - i,
{
    if i < open {
        assert(!m[i] || is_ascii_space(s[i]));
        lemma_brace_follows(s, m, i + 1, open);
    } else {
        assert(!is_ascii_space('{') && !is_ident_char('{'));
    }
}

proof fn lemma_body_opens(
    s: Seq<char>,
    m: Seq<bool>,
    i: int,
    b: int,
    e: int,
    open: int,
    wants: bool,
)
    requires
        0 <= i <= b < e <= open < s.len(),
        s[open] == '{',
        m[open],
        forall|x: int|
            i <= x < b && m[x] ==> is_ascii_space(#[trigger] s[x]) || is_ident_char(s[x]) || s[x]
                == ':' || s[x] == '.' || s[x] == '?',
        i < b ==> !is_ident_char(s[b - 1]),
        forall|x: int| b <= x < e ==> is_ident_char(#[trigger] s[x]),
        m[b],
        !is_ident_char(s[e]),
        forall|x: int| e <= x < open ==> !m[x] || is_ascii_space(#[trigger] s[x]),
        !is_type_word(s.subrange(b, e)),
    ensures
        body_from(s, m, i, wants) == Some(open),
    decreases b - i,
{
    if i < b {
        let c = s[i];
        if !m[i] || is_ascii_space(c) {
            lemma_body_opens(s, m, i + 1, b, e, open, wants);
        } else if is_ident_char(c) {
            lemma_word_within(s, i, b);
            lemma_ident_end(s, i);
            let k = ident_end(s, i);
            lemma_body_opens(s, m, k, b, e, open, is_type_prefix(s.subrange(i, k)));
        } else {
            lemma_body_opens(s, m, i + 1, b, e, open, true);
        }
    } else {
        assert(is_ident_char(s[b]) && m[b]);
        assert(!is_ascii_space(s[b]));
        lemma_word_ends(s, b, e);
        lemma_ident_end(s, b);
        lemma_brace_follows(s, m, e, open);
    }
}

/// A word that the text of a type goes on behind.
pub open spec fn is_type_word(w: Seq<char>) -> bool {
    w == "async"@ || w == "actor"@ || w == "object"@ || w == "module"@ || w == "shared"@ || w
        == "query"@ || w == "and"@ || w == "or"@
}

/// Behind a type of names, such as `: async Nat`, the next brace opens the body; `b` and `e` are
/// where the last name of the type begins and ends.
pub proof fn law_body_opens_behind_its_type(s: Seq<char>, i: int, b: int, e: int, open: int)
    requires
        0 <= i < b < e <= open < s.len(),
        s[open] == '{',
        mask(s)[open],
        forall|x: int|
            i <= x < b && mask(s)[x] ==> is_ascii_space(#[trigger] s[x]) || is_ident_char(s[x])
                || s[x] == ':' || s[x] == '.' || s[x] == '?',
        !is_ident_char(s[b - 1]),
        forall|x: int| b <= x < e ==> is_ident_char(#[trigger] s[x]),
        mask(s)[b],
        !is_ident_char(s[e]),
        forall|x: int| e <= x < open ==> !mask(s)[x] || is_ascii_space(#[trigger] s[x]),
        !is_type_word(s.subrange(b, e)),
    ensures
        body_from(s, mask(s), i, false) == Some(open),
{
    lemma_body_opens(s, mask(s), i, b, e, open, false);
}

/// Where no type is given, the next brace opens the body.
pub proof fn law_body_opens_behind_the_parameters(s: Seq<char>, i: int, open: int)
    requires
        0 <= i <= open < s.len(),
        s[open] == '{',
        mask(s)[open],
        forall|x: int| i <= x < open ==> !mask(s)[x] || is_ascii_space(#[trigger] s[x]),
    ensures
        body_from(s, mask(s), i, false) == Some(open),
{
    lemma_brace_follows(s, mask(s), i, open);
}

/// A brace where a type is to follow opens a type: the body is looked for behind the brace that
/// matches it.
pub proof fn law_braces_of_a_type(s: Seq<char>, i: int, k: int)
    requires
        0 <= i < s.len(),
        s[i] == '{',
        mask(s)[i],
        matching(s, mask(s), '{', '}', i) == Some(k),
    ensures
        body_from(s, mask(s), i, true) == body_from(s, mask(s), k + 1, false),
{
    assert(!is_ascii_space('{') && !is_ident_char('{'));
    lemma_matching(s, mask(s), '{', '}', i);
}

proof fn lemma_writes_only(
    s: Seq<char>,
    m: Seq<bool>,
    vars: Seq<Seq<char>>,
    i: int,
    w: WriteView,
) -> (at: int)
    requires
        0 <= i,
        writes_from(s, m, vars, i).contains(w),
    ensures
        i <= at,
        code_match(s, m, at, ":="@),
        write_at(s, m, vars, at) == Some(w),
    decreases s.len() - i,
{
    reveal_strlit(":=");
    let p = ":="@;
    lemma_find_code(s, m, p, i);
    let k = find_code(s, m, p, i)->0;
    let rest = writes_from(s, m, vars, k + 2);
    if write_at(s, m, vars, k) == Some(w) {
        k
    } else {
        let all = writes_from(s, m, vars, i);
        let x = choose|x: int| 0 <= x < all.len() && all[x] == w;
        if let Some(v) = write_at(s, m, vars, k) {
            assert(all == seq![v] + rest);
            assert(rest[x - 1] == w);
        } else {
            assert(rest[x] == w);
        }
        lemma_writes_only(s, m, vars, k + 2, w)
    }
}

/// What is read as an assignment is one, in code, to a variable of the actor that no `var` before it
/// hides, and no snapshot follows it.
pub proof fn law_only_assignments_are_read(
    body: Seq<char>,
    vars: Seq<Seq<char>>,
    w: WriteView,
) -> (at: int)
    requires
        writes(body, vars).contains(w),
    ensures
        0 <= at,
        at + 2 <= body.len(),
        body.subrange(at, at + 2) == ":="@,
        mask(body)[at],
        vars.contains(w.name),
        w.name == body.subrange(w.start, back_space(body, at)),
        !is_hidden(body, w.name, w.start),
        !snapshot_near(body, w.end),
{
    reveal_strlit(":=");
    let at = lemma_writes_only(body, mask(body), vars, 0, w);
    lemma_declares(body, mask(body), w.name, 0, w.start);
    at
}

} // verus!
