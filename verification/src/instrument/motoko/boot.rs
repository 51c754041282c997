//! How an actor, its tracer and its imports are read, and what an actor without
//! a tracer is given.

use vstd::prelude::*;
use vstd::string::*;

use crate::instrument::gather::listed;
use crate::instrument::motoko::actor::{
    actor_body, actor_of, bound_name, let_before, tracer_field, ActorView,
};
use crate::instrument::motoko::funcs::{
    func_view, first_comma, header_first, Names, Shape,
};
use crate::instrument::motoko::imports::{
    base_start, begins_in_code, import_of, imports_end, imports_end_from, indent_at, is_import,
    names_trace, trace_import, ImportView,
};
use crate::instrument::motoko::rules::{bootstrap, first_level, trace_path, ups};
use crate::instrument::motoko::scan::{
    closes_from, code_char, code_end, find_name, find_word, lemma_find_name, mask, matching,
    name_match, skip_gap, word_at,
};
use crate::instrument::motoko::{detected, found};
use crate::instrument::{candidate_key, CandidateView, EditView, ReplacementView};
use crate::order::law_sorted;
use crate::text::{
    byte_at, contains, ends_with, find, lemma_back_space, lemma_find, lemma_skip_space, trim,
    find_char, ident_end, is_ident_char, lemma_line_end, line_text, next_line, quoted, skip_space,
    starts_with, trim_start,
};

verus! {

// ---------- Names and brackets ----------

/// `p` stands in the code of `s` at `k`, and begins there where it begins with a name.
pub open spec fn stands(s: Seq<char>, p: Seq<char>, k: int) -> bool {
    &&& 0 <= k
    &&& k + p.len() <= s.len()
    &&& s.subrange(k, k + p.len()) == p
    &&& forall|x: int| k <= x < k + p.len() ==> #[trigger] mask(s)[x]
    &&& k > 0 && is_ident_char(p[0]) ==> !is_ident_char(s[k - 1])
}

proof fn lemma_first_name(s: Seq<char>, m: Seq<bool>, p: Seq<char>, i: int, k: int)
    requires
        0 <= i <= k,
        name_match(s, m, k, p),
        forall|j: int| i <= j < k ==> !#[trigger] name_match(s, m, j, p),
    ensures
        find_name(s, m, p, i) == Some(k),
    decreases k - i,
{
    if i < k {
        assert(!name_match(s, m, i, p));
        lemma_first_name(s, m, p, i + 1, k);
    }
}

proof fn lemma_name_seen(s: Seq<char>, m: Seq<bool>, p: Seq<char>, i: int, k: int)
    requires
        0 <= i <= k,
        name_match(s, m, k, p),
    ensures
        find_name(s, m, p, i) is Some,
    decreases k - i,
{
    if i < k && !name_match(s, m, i, p) {
        lemma_name_seen(s, m, p, i + 1, k);
    }
}

proof fn lemma_seen(s: Seq<char>, p: Seq<char>)
    requires
        p.len() > 0,
    ensures
        find_name(s, mask(s), p, 0) is Some <==> exists|k: int| #[trigger] stands(s, p, k),
{
    let m = mask(s);
    lemma_find_name(s, m, p, 0);
    if let Some(k) = find_name(s, m, p, 0) {
        assert(stands(s, p, k));
    }
    if exists|k: int| #[trigger] stands(s, p, k) {
        let k = choose|k: int| #[trigger] stands(s, p, k);
        lemma_name_seen(s, m, p, 0, k);
    }
}

/// A trace begins in a function where its body calls `beginTrace` of the tracer in code, and its
/// entry is recorded where it calls `methodEntered`; what comments and strings hold does not count,
/// nor does a longer name.
pub proof fn law_tracing_is_seen(s: Seq<char>, i: int, h: Shape, offset: int, names: Names)
    ensures
        ({
            let f = func_view(s, i, h, offset, names);
            let body = s.subrange(h.body_open + 1, h.body_close);
            &&& f.has_begin_trace <==> exists|k: int| #[trigger]
                stands(body, names.tracer + ".beginTrace("@, k)
            &&& f.has_method_entered <==> exists|k: int| #[trigger]
                stands(body, names.tracer + ".methodEntered("@, k)
        }),
{
    reveal_strlit(".beginTrace(");
    reveal_strlit(".methodEntered(");
    let body = s.subrange(h.body_open + 1, h.body_close);
    lemma_seen(body, names.tracer + ".beginTrace("@);
    lemma_seen(body, names.tracer + ".methodEntered("@);
}

/// How many brackets are open behind `j`, of those from `at` on, in code.
pub open spec fn open_brackets(
    s: Seq<char>,
    m: Seq<bool>,
    open: char,
    close: char,
    at: int,
    j: int,
) -> int
    decreases j - at,
{
    if j <= at {
        0
    } else {
        open_brackets(s, m, open, close, at, j - 1) + if m[j - 1] && s[j - 1] == open {
            1int
        } else if m[j - 1] && s[j - 1] == close {
            -1
        } else {
            0
        }
    }
}

proof fn lemma_closes_at(
    s: Seq<char>,
    m: Seq<bool>,
    open: char,
    close: char,
    at: int,
    i: int,
    q: int,
)
    requires
        0 <= at <= i <= q < s.len(),
        open != close,
        m[q],
        s[q] == close,
        open_brackets(s, m, open, close, at, q) == 1,
        forall|j: int|
            at <= j < q && m[j] && #[trigger] s[j] == close ==> open_brackets(
                s,
                m,
                open,
                close,
                at,
                j,
            ) != 1,
    ensures
        closes_from(s, m, open, close, i, open_brackets(s, m, open, close, at, i)) == Some(q),
    decreases q - i,
{
    if i < q {
        lemma_closes_at(s, m, open, close, at, i + 1, q);
        if m[i] && s[i] == close {
            assert(open_brackets(s, m, open, close, at, i) != 1);
        }
    }
}

/// A bracket is matched by the one that closes as many as were opened since, in code; brackets in
/// comments and strings do not count.
pub proof fn law_matching_bracket(
    s: Seq<char>,
    open: char,
    close: char,
    at: int,
    q: int,
)
    requires
        0 <= at < q < s.len(),
        open != close,
        s[at] == open,
        mask(s)[at],
        s[q] == close,
        mask(s)[q],
        open_brackets(s, mask(s), open, close, at, q) == 1,
        forall|j: int|
            at < j < q && mask(s)[j] && #[trigger] s[j] == close ==> open_brackets(
                s,
                mask(s),
                open,
                close,
                at,
                j,
            ) != 1,
    ensures
        matching(s, mask(s), open, close, at) == Some(q),
{
    lemma_closes_at(s, mask(s), open, close, at, at, q);
}

// ---------- The actor ----------

proof fn lemma_word_found(s: Seq<char>, m: Seq<bool>, w: Seq<char>, i: int, k: int)
    requires
        0 <= i <= k < s.len(),
        word_at(s, m, k, w),
        forall|j: int| i <= j < k ==> !#[trigger] word_at(s, m, j, w),
    ensures
        find_word(s, m, w, i) == Some(k),
    decreases k - i,
{
    if i < k {
        assert(!word_at(s, m, i, w));
        lemma_word_found(s, m, w, i + 1, k);
    }
}

proof fn lemma_code_char_found(s: Seq<char>, m: Seq<bool>, c: char, i: int, k: int)
    requires
        0 <= i <= k < s.len(),
        m[k],
        s[k] == c,
        forall|j: int| i <= j < k && m[j] ==> #[trigger] s[j] != c,
    ensures
        code_char(s, m, c, i) == Some(k),
    decreases k - i,
{
    if i < k {
        assert(m[i] ==> s[i] != c);
        lemma_code_char_found(s, m, c, i + 1, k);
    }
}

/// The actor of a file is the first that its code names: its inside is what stands between the next
/// brace and the one that matches it.
pub proof fn law_first_actor_is_read(s: Seq<char>, k: int, open: int, close: int)
    requires
        0 <= k,
        k + 5 <= open < close < s.len(),
        word_at(s, mask(s), k, "actor"@),
        forall|j: int| 0 <= j < k ==> !#[trigger] word_at(s, mask(s), j, "actor"@),
        s[open] == '{',
        mask(s)[open],
        forall|j: int| k + 5 <= j < open && mask(s)[j] ==> #[trigger] s[j] != '{',
        matching(s, mask(s), '{', '}', open) == Some(close),
    ensures
        actor_body(s) == Some((open + 1, close)),
        actor_of(s) matches Some(a) && a.open == open + 1 && a.close == close,
{
    reveal_strlit("actor");
    lemma_word_found(s, mask(s), "actor"@, 0, k);
    lemma_code_char_found(s, mask(s), '{', k + 5, open);
}

/// A file whose code names no actor has none, and nothing is asked for in it.
pub proof fn law_no_actor(s: Seq<char>, path: Seq<char>)
    requires
        forall|j: int| 0 <= j < s.len() ==> !#[trigger] word_at(s, mask(s), j, "actor"@),
    ensures
        actor_of(s) is None,
        detected(s, path).len() == 0,
{
    lemma_no_word(s, mask(s), "actor"@, 0);
}

proof fn lemma_no_word(s: Seq<char>, m: Seq<bool>, w: Seq<char>, i: int)
    requires
        0 <= i,
        forall|j: int| 0 <= j < s.len() ==> !#[trigger] word_at(s, m, j, w),
    ensures
        find_word(s, m, w, i) is None,
    decreases s.len() - i,
{
    if i < s.len() {
        assert(!word_at(s, m, i, w));
        lemma_no_word(s, m, w, i + 1);
    }
}

// ---------- The tracer ----------

proof fn lemma_let_found(s: Seq<char>, m: Seq<bool>, i: int, k: int)
    requires
        0 <= k < i <= s.len(),
        word_at(s, m, k, "let"@),
        forall|x: int| k < x < i ==> !#[trigger] word_at(s, m, x, "let"@),
        forall|x: int|
            k <= x < i ==> #[trigger] s[x] != ';' && s[x] != '{' && s[x] != '}' && s[x] != '=',
    ensures
        let_before(s, m, i) == Some(k),
    decreases i - k,
{
    assert(s[i - 1] != ';');
    if k < i - 1 {
        assert(!word_at(s, m, i - 1, "let"@));
        lemma_let_found(s, m, i - 1, k);
    }
}

proof fn lemma_ident_is(s: Seq<char>, i: int, e: int)
    requires
        0 <= i <= e < s.len(),
        forall|x: int| i <= x < e ==> is_ident_char(#[trigger] s[x]),
        !is_ident_char(s[e]),
    ensures
        ident_end(s, i) == e,
    decreases e - i,
{
    if i < e {
        assert(is_ident_char(s[i]));
        lemma_ident_is(s, i + 1, e);
    }
}

/// The tracer goes by the name that the first `let <name> = <alias>.Tracer(` of the actor's code
/// binds, whatever that name is. `k` is where the `let` stands.
#[verifier::rlimit(30)]
pub proof fn law_tracer_goes_by_its_name(
    s: Seq<char>,
    alias: Seq<char>,
    name: Seq<char>,
    k: int,
)
    requires
        name.len() > 0,
        name != "let"@,
        forall|x: int| 0 <= x < name.len() ==> is_ident_char(#[trigger] name[x]),
        0 <= k,
        k + name.len() + alias.len() + 15 <= s.len(),
        s.subrange(k, k + name.len() + alias.len() + 15) == "let "@ + name + " = "@ + alias
            + ".Tracer("@,
        forall|x: int|
            k <= x < k + name.len() + alias.len() + 15 ==> #[trigger] mask(s)[x],
        k > 0 ==> !is_ident_char(s[k - 1]),
        forall|j: int|
            0 <= j < k + name.len() + 7 ==> !#[trigger] name_match(
                s,
                mask(s),
                j,
                alias + ".Tracer("@,
            ),
    ensures
        tracer_field(s, alias) == Some(name),
{
    reveal_strlit("let ");
    reveal_strlit("let");
    reveal_strlit(" = ");
    reveal_strlit(".Tracer(");
    let m = mask(s);
    let p = alias + ".Tracer("@;
    let n = name.len() as int;
    let w = s.subrange(k, k + n + alias.len() + 15);
    let text = "let "@ + name + " = "@ + alias + ".Tracer("@;
    assert forall|x: int| 0 <= x < 4 implies #[trigger] s[k + x] == "let "@[x] by {
        assert(w[x] == s[k + x]);
        assert(text[x] == "let "@[x]);
    }
    assert forall|x: int| 0 <= x < n implies #[trigger] s[k + 4 + x] == name[x] by {
        assert(w[4 + x] == s[k + 4 + x]);
        assert(text[4 + x] == name[x]);
    }
    assert forall|x: int| 0 <= x < 3 implies #[trigger] s[k + 4 + n + x] == " = "@[x] by {
        assert(w[4 + n + x] == s[k + 4 + n + x]);
        assert(text[4 + n + x] == " = "@[x]);
    }
    assert(s[k + 0] == 'l' && s[k + 1] == 'e' && s[k + 2] == 't' && s[k + 3] == ' ');
    assert(s[k + 4 + n + 0] == ' ');
    assert(s[k + 4 + n + 1] == '=');
    assert(s[k + 4 + n + 2] == ' ');
    let at = k + n + 7;
    assert(s.subrange(at, at + p.len()) =~= p) by {
        assert(w.subrange(n + 7, w.len() as int) =~= s.subrange(at, at + p.len()));
        assert(text.subrange(n + 7, text.len() as int) =~= p);
    }
    assert(m[at]);
    assert forall|x: int| at <= x < at + p.len() implies #[trigger] m[x] by {}
    assert(name_match(s, m, at, p));
    lemma_first_name(s, m, p, 0, at);
    let eq = k + n + 5;
    reveal_with_fuel(code_end, 3);
    assert(m[eq] && m[eq + 1]);
    assert(code_end(s, m, at) == eq + 1);
    assert(s.subrange(k, k + 3) =~= "let"@);
    assert(word_at(s, m, k, "let"@)) by {
        assert(m[k] && m[k + 1] && m[k + 2]);
    }
    assert forall|x: int| k < x < eq implies !#[trigger] word_at(s, m, x, "let"@) by {
        if word_at(s, m, x, "let"@) {
            let t = s.subrange(x, x + 3);
            assert(t[0] == s[x] && t[1] == s[x + 1] && t[2] == s[x + 2]);
            if x < k + 4 {
                assert(s[k + (x - k)] == s[x]);
            } else if x < k + 4 + n {
                if x > k + 4 {
                    assert(s[k + 4 + (x - 1 - k - 4)] == name[x - 1 - k - 4]);
                } else {
                    assert(s[k + 4 + 0] == name[0]);
                    if n > 3 {
                        assert(s[k + 4 + 3] == name[3]);
                    } else if n < 3 {
                        assert(s[k + 4 + n] == ' ');
                    } else {
                        assert(s[k + 4 + 1] == name[1] && s[k + 4 + 2] == name[2]);
                        assert(name =~= "let"@);
                    }
                }
            }
        }
    }
    assert forall|x: int| k <= x < eq implies #[trigger] s[x] != ';' && s[x] != '{' && s[x] != '}'
        && s[x] != '=' by {
        if x < k + 4 {
            assert(s[k + (x - k)] == s[x]);
        } else if x < k + 4 + n {
            assert(s[k + 4 + (x - k - 4)] == name[x - k - 4]);
        }
    }
    lemma_let_found(s, m, eq, k);
    assert(s[k + 4 + 0] == name[0]);
    reveal_with_fuel(skip_gap, 3);
    assert(m[k + 3] && m[k + 4] && m[k + 4 + n]);
    assert(skip_gap(s, m, k + 3) == k + 4);
    assert forall|x: int| k + 4 <= x < k + 4 + n implies is_ident_char(#[trigger] s[x]) by {
        assert(s[k + 4 + (x - k - 4)] == name[x - k - 4]);
    }
    lemma_ident_is(s, k + 4, k + 4 + n);
    assert(skip_gap(s, m, k + 4 + n) == eq);
    let own = s.subrange(k + 4, k + 4 + n);
    assert forall|x: int| 0 <= x < n implies #[trigger] own[x] == name[x] by {
        assert(s[k + 4 + x] == name[x]);
    }
    assert(own =~= name);
    assert(bound_name(s, m, at) == Some(name));
}

// ---------- Imports ----------

proof fn lemma_quote(s: Seq<char>, i: int, k: int)
    requires
        0 <= i <= k < s.len(),
        s[k] == '"',
        forall|j: int| i <= j < k ==> #[trigger] s[j] != '"',
    ensures
        find_char(s, '"', i) == Some(k),
    decreases k - i,
{
    if i < k {
        assert(s[i] != '"');
        lemma_quote(s, i + 1, k);
    }
}

/// A line `import <alias> "<path>"` imports the path under the alias.
pub proof fn law_import_is_read(alias: Seq<char>, path: Seq<char>, rest: Seq<char>)
    requires
        alias.len() > 0,
        forall|x: int| 0 <= x < alias.len() ==> is_ident_char(#[trigger] alias[x]),
        forall|x: int| 0 <= x < path.len() ==> #[trigger] path[x] != '"',
    ensures
        import_of("import "@ + alias + " \""@ + path + "\""@ + rest) == Some(
            ImportView { alias, path },
        ),
{
    reveal_strlit("import ");
    reveal_strlit(" \"");
    reveal_strlit("\"");
    let line = "import "@ + alias + " \""@ + path + "\""@ + rest;
    assert(line[0] == 'i');
    assert(skip_space(line, 0) == 0);
    assert(trim_start(line) =~= line);
    assert(line.subrange(0, 7) =~= "import "@);
    let t = line.subrange(7, line.len() as int);
    let n = alias.len() as int;
    let m = path.len() as int;
    assert(t =~= alias + " \""@ + path + "\""@ + rest);
    assert forall|x: int| 0 <= x < n implies is_ident_char(#[trigger] t[x]) by {
        assert(t[x] == alias[x]);
    }
    assert(t[n] == ' ' && t[n + 1] == '"' && t[n + 2 + m] == '"');
    lemma_ident_is(t, 0, n);
    lemma_quote(t, n, n + 1);
    assert forall|j: int| n + 2 <= j < n + 2 + m implies #[trigger] t[j] != '"' by {
        assert(t[j] == path[j - n - 2]);
    }
    lemma_quote(t, n + 2, n + 2 + m);
    assert(quoted(t, n) == Some((n + 2, n + 2 + m)));
    assert(t.subrange(0, n) =~= alias);
    assert(t.subrange(n + 2, n + 2 + m) =~= path);
}

proof fn lemma_base(path: Seq<char>, b: int, n: int)
    requires
        0 <= b <= n <= path.len(),
        b > 0 ==> path[b - 1] == '/' || path[b - 1] == '\\',
        forall|x: int| b <= x < n ==> #[trigger] path[x] != '/' && path[x] != '\\',
    ensures
        base_start(path, n) == b,
    decreases n,
{
    if b < n {
        assert(path[n - 1] != '/' && path[n - 1] != '\\');
        lemma_base(path, b, n - 1);
    }
}

/// A path names the module where what stands behind its last slash, at `b`, is `Trace` or
/// `Trace.mo`, and only there.
pub proof fn law_trace_module(path: Seq<char>, b: int)
    requires
        0 <= b <= path.len(),
        b > 0 ==> path[b - 1] == '/' || path[b - 1] == '\\',
        forall|x: int| b <= x < path.len() ==> #[trigger] path[x] != '/' && path[x] != '\\',
    ensures
        names_trace(path) <==> path.subrange(b, path.len() as int) == "Trace"@ || path.subrange(
            b,
            path.len() as int,
        ) == "Trace.mo"@,
{
    reveal_strlit("Trace");
    reveal_strlit("Trace.mo");
    reveal_strlit(".mo");
    lemma_base(path, b, path.len() as int);
    let t = path.subrange(b, path.len() as int);
    let n = t.len() as int;
    if ends_with(t, ".mo"@) {
        assert(t =~= t.subrange(0, n - 3) + ".mo"@) by {
            assert(t.subrange(n - 3, n) == ".mo"@);
            assert(t =~= t.subrange(0, n - 3) + t.subrange(n - 3, n));
        }
        assert("Trace.mo"@ =~= "Trace"@ + ".mo"@);
        if t == "Trace"@ {
            assert(t.subrange(n - 3, n)[0] == t[n - 3]);
        }
        if t == "Trace.mo"@ {
            assert(t.subrange(0, n - 3) =~= "Trace"@);
        }
    } else if t == "Trace.mo"@ {
        assert(t.subrange(n - 3, n) =~= ".mo"@);
    }
}

/// The first line that imports the module decides its alias; lines before it that do not are passed
/// over.
pub proof fn law_first_import_decides(s: Seq<char>, m: Seq<bool>, i: int, imp: ImportView)
    requires
        0 <= i < s.len(),
    ensures
        import_of(line_text(s, i)) == Some(imp) && names_trace(imp.path) && m[i + skip_space(
            line_text(s, i),
            0,
        )] ==> trace_import(s, m, i) == Some(imp),
        import_of(line_text(s, i)) is None || !names_trace(import_of(line_text(s, i))->0.path)
            ==> trace_import(s, m, i) == trace_import(s, m, next_line(s, i)),
{
}

/// A line that begins at `j` in code with `import`, behind white space.
pub open spec fn imports_at(s: Seq<char>, m: Seq<bool>, j: int) -> bool {
    let line = s.subrange(j, next_line(s, j));
    &&& 0 <= j < s.len()
    &&& j > 0 ==> s[j - 1] == '\n'
    &&& starts_with(trim_start(line), "import "@)
    &&& m[j + skip_space(line, 0)]
}

proof fn lemma_imports_end(s: Seq<char>, m: Seq<bool>, i: int, last: int, j: int)
    requires
        0 <= last <= i <= s.len(),
        i > 0 && i < s.len() ==> s[i - 1] == '\n',
        last > 0 ==> exists|k: int| #[trigger] imports_at(s, m, k) && last == next_line(s, k),
    ensures
        last <= imports_end_from(s, m, i, last) <= s.len(),
        i <= j && imports_at(s, m, j) ==> j < imports_end_from(s, m, i, last),
        imports_end_from(s, m, i, last) > 0 ==> exists|k: int| #[trigger]
            imports_at(s, m, k) && imports_end_from(s, m, i, last) == next_line(s, k),
    decreases s.len() - i,
{
    if i < s.len() {
        lemma_line_end(s, i);
        let next = next_line(s, i);
        let line = s.subrange(i, next);
        let now = if is_import(line) && begins_in_code(m, line, i) {
            next
        } else {
            last
        };
        if is_import(line) && begins_in_code(m, line, i) {
            assert(imports_at(s, m, i));
        }
        lemma_imports_end(s, m, next, now, j);
        if i < j < next && imports_at(s, m, j) {
            assert(s[j - 1] != '\n');
        }
    }
}

/// An import goes behind the last line that imports something, directly, and first where none does.
pub proof fn law_import_goes_behind_the_others(s: Seq<char>, j: int)
    ensures
        imports_at(s, mask(s), j) ==> j < imports_end(s),
        imports_end(s) == 0 || exists|k: int| #[trigger]
            imports_at(s, mask(s), k) && imports_end(s) == next_line(s, k),
{
    lemma_imports_end(s, mask(s), 0, 0, j);
}

// ---------- What an actor is given ----------

/// An actor with public functions and no tracer is given one: the field goes first in it, made by
/// the module under its alias. The import is added where there is none, and the drain behind all
/// else where there is none.
pub proof fn law_actor_is_given_a_tracer(
    src: Seq<char>,
    path: Seq<char>,
    a: ActorView,
) -> (r: (CandidateView, Seq<EditView>, Seq<char>))
    requires
        actor_of(src) == Some(a),
        !a.has_tracer,
        a.funcs.len() > 0,
    ensures
        detected(src, path).contains(r.0),
        r.0.rule is MoBootstrap,
        r.0.warning is Some,
        r.0.replacement == ReplacementView::Multi(r.1),
        r.1.len() == 1 + (if a.has_import {
            0int
        } else {
            1
        }) + (if a.has_drain {
            0int
        } else {
            1
        }),
        r.1.contains(
            EditView {
                start: byte_at(src, a.open) as int,
                end: byte_at(src, a.open) as int,
                text: "\n"@ + (r.2 + "  "@) + "transient let tracer = "@ + a.alias
                    + ".Tracer(Principal.fromActor(self));"@,
            },
        ),
        !a.has_import ==> r.1[0] == (EditView {
            start: byte_at(src, imports_end(src)) as int,
            end: byte_at(src, imports_end(src)) as int,
            text: "import Trace \""@ + path + "\";\n"@,
        }),
        !a.has_drain ==> r.1.last().end == byte_at(src, a.close) && r.1.last().text == "\n\n"@ + (r.2
            + "  "@) + "public query func __debug_drain() : async Blob { tracer.drain() };\n"@
            + r.2,
{
    broadcast use vstd::seq_lib::group_to_multiset_ensures;

    let c = bootstrap(a, src, path)->0;
    let es = c.replacement->Multi_0;
    let all = found(src, path);
    assert(listed(bootstrap(a, src, path))[0] == c);
    assert(all[0] == c);
    law_sorted(all, candidate_key(), all.len());
    assert(all.subrange(0, all.len() as int) =~= all);
    assert(all.to_multiset().count(c) > 0);
    let outer = indent_at(src, a.open);
    let field = EditView {
        start: byte_at(src, a.open) as int,
        end: byte_at(src, a.open) as int,
        text: "\n"@ + (outer + "  "@) + "transient let tracer = "@ + a.alias
            + ".Tracer(Principal.fromActor(self));"@,
    };
    if a.has_import {
        assert(es[0] == field);
    } else {
        assert(es[1] == field);
    }
    (c, es, outer)
}

proof fn lemma_level(found: Seq<bool>, i: int, n: int)
    requires
        0 <= i <= n,
        n < found.len() ==> n <= 10 ==> found[n],
        forall|j: int| i <= j < n && j < found.len() ==> !#[trigger] found[j],
    ensures
        n < found.len() && n <= 10 ==> first_level(found, i) == Some(n),
        n >= found.len() || n > 10 ==> first_level(found, i) is None,
    decreases n - i,
{
    if i < n && i < found.len() && i <= 10 {
        assert(!found[i]);
        lemma_level(found, i + 1, n);
    }
}

/// The module is imported from the nearest directory at or above the file's that has it, up to ten
/// levels above: by one `../` for each level. `n` is how many; where none has it, the path says
/// that it is to be mended.
pub proof fn law_nearest_module_is_imported(found: Seq<bool>, n: int)
    requires
        0 <= n,
        n < found.len() ==> n <= 10 ==> found[n],
        forall|j: int| 0 <= j < n && j < found.len() ==> !#[trigger] found[j],
    ensures
        n < found.len() && n <= 10 ==> trace_path(true, found) == ups(n as nat)
            + "motoko/src/Trace"@,
        n >= found.len() || n > 10 ==> trace_path(true, found)
            == "../motoko/src/Trace /* TODO: fix import path */"@,
        ups(0).len() == 0,
        ups((n + 1) as nat) == ups(n as nat) + "../"@,
{
    lemma_level(found, 0, n);
}

// ---------- The header ----------

proof fn lemma_no_comma(s: Seq<char>, m: Seq<bool>, i: int, e: int)
    requires
        0 <= i <= e <= s.len(),
        forall|j: int|
            i <= j < e && m[j] ==> {
                let c = #[trigger] s[j];
                c != ',' && c != '(' && c != ')' && c != '{' && c != '}' && c != '[' && c != ']'
            },
        e < s.len() ==> m[e] && s[e] == ',',
    ensures
        first_comma(s, m, i, 0, 0, 0) == e,
    decreases e - i,
{
    if i < e {
        assert(s[i] == s[i]);
        lemma_no_comma(s, m, i + 1, e);
    }
}

/// Only the first parameter counts as the header: where it names no header type before the comma at
/// `e`, the function takes none, whatever the others are.
pub proof fn law_header_is_the_first_parameter(params: Seq<char>, alias: Seq<char>, e: int)
    requires
        0 <= e <= params.len(),
        forall|j: int|
            0 <= j < e && mask(params)[j] ==> {
                let c = #[trigger] params[j];
                c != ',' && c != '(' && c != ')' && c != '{' && c != '}' && c != '[' && c != ']'
            },
        e < params.len() ==> mask(params)[e] && params[e] == ',',
        forall|j: int| 0 <= j < e ==> #[trigger] params[j] != '?',
    ensures
        !header_first(params, alias),
{
    reveal_strlit("?");
    reveal_strlit("?TraceHeader");
    reveal_strlit("?Trace.TraceHeader");
    reveal_strlit(".TraceHeader");
    lemma_no_comma(params, mask(params), 0, e);
    let x = params.subrange(0, e);
    lemma_no_mark(x, "?"@ + alias + ".TraceHeader"@);
    lemma_no_mark(x, "?TraceHeader"@);
    lemma_no_mark(x, "?Trace.TraceHeader"@);
}

proof fn lemma_no_mark(x: Seq<char>, p: Seq<char>)
    requires
        p.len() > 0,
        p[0] == '?',
        forall|j: int| 0 <= j < x.len() ==> #[trigger] x[j] != '?',
    ensures
        !contains(trim(x), p),
{
    let a = skip_space(x, 0);
    lemma_skip_space(x, 0);
    let t = trim_start(x);
    assert forall|j: int| 0 <= j < t.len() implies #[trigger] t[j] != '?' by {
        assert(t[j] == x[j + a]);
    }
    lemma_back_space(t, t.len() as int);
    let u = trim(x);
    assert forall|j: int| 0 <= j < u.len() implies #[trigger] u[j] != '?' by {
        assert(u[j] == t[j]);
    }
    lemma_find(u, p, 0);
    if let Some(k) = find(u, p, 0) {
        assert(u.subrange(k, k + p.len())[0] == u[k]);
    }
}

} // verus!
