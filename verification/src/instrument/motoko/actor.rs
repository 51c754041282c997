//! What there is to trace in a Motoko actor: its body, its tracer field, its
//! public functions, and what these do.

use vstd::prelude::*;
use vstd::string::*;

use crate::instrument::motoko::body::{actor_vars, find_actor_vars};
use crate::instrument::motoko::funcs::{
    find_public_funcs, funcs_view, public_funcs, FuncView, Names, PubFunc,
};
use crate::instrument::motoko::imports::{
    find_trace_import, has_import_line, import_line_from, trace_import,
};
use crate::instrument::motoko::scan::{
    after_gap, code_char, code_end, code_mask, end_of_code, find_name, find_code_char,
    find_name_in_code, find_matching, find_word, find_word_in_code, lemma_find_name, mask, matching,
    skip_gap, word_at, word_in_code,
};
use crate::text::{blen, ident_end, ident_run, lemma_byte_at, lemma_encode_add, slice, string_of};

verus! {

// ---------- The actor's body ----------

/// The inside of the first actor: after its `{`, up to the matching `}`.
pub open spec fn actor_body(s: Seq<char>) -> Option<(int, int)> {
    let m = mask(s);
    match find_word(s, m, "actor"@, 0) {
        Some(at) => match code_char(s, m, '{', at + 5) {
            Some(open) => match matching(s, m, '{', '}', open) {
                Some(close) => Some((open + 1, close)),
                None => None,
            },
            None => None,
        },
        None => None,
    }
}

/// The inside of the first actor: after its `{`, up to the matching `}`.
pub fn find_actor_body(s: &[char]) -> (r: Option<(usize, usize)>)
    ensures
        match r {
            Some((a, b)) => actor_body(s@) == Some((a as int, b as int)) && 0 < a <= b < s@.len(),
            None => actor_body(s@) is None,
        },
{
    let m = code_mask(s);
    proof {
        reveal_strlit("actor");
    }
    match find_word_in_code(s, m.as_slice(), "actor") {
        Some(at) => match find_code_char(s, m.as_slice(), '{', at + 5) {
            Some(open) => match find_matching(s, m.as_slice(), '{', '}', open) {
                Some(close) => Some((open + 1, close)),
                None => None,
            },
            None => None,
        },
        None => None,
    }
}

// ---------- The tracer field ----------

/// The nearest `let` in code before `i`, with no end of a statement, brace or `=` between.
pub open spec fn let_before(s: Seq<char>, m: Seq<bool>, i: int) -> Option<int>
    decreases i,
{
    if i <= 0 || i > s.len() {
        None
    } else if m[i - 1] && (s[i - 1] == ';' || s[i - 1] == '{' || s[i - 1] == '}' || s[i - 1]
        == '=') {
        None
    } else if word_at(s, m, i - 1, "let"@) {
        Some(i - 1)
    } else {
        let_before(s, m, i - 1)
    }
}

/// The name that `let <name> =`, perhaps with a type, binds to what stands at `at`.
pub open spec fn bound_name(s: Seq<char>, m: Seq<bool>, at: int) -> Option<Seq<char>> {
    let eq = code_end(s, m, at) - 1;
    if eq < 0 || s[eq] != '=' {
        None
    } else {
        match let_before(s, m, eq) {
            Some(k) => {
                let a = skip_gap(s, m, k + 3);
                let b = ident_end(s, a);
                let p = skip_gap(s, m, b);
                if a < b && p <= eq && (p == eq || s[p] == ':') {
                    Some(s.subrange(a, b))
                } else {
                    None
                }
            },
            None => None,
        }
    }
}

/// The name that the first `let <name> = <alias>.Tracer(` from `i` on binds.
pub open spec fn tracer_from(s: Seq<char>, m: Seq<bool>, p: Seq<char>, i: int) -> Option<Seq<char>>
    decreases s.len() - i,
{
    match find_name(s, m, p, i) {
        Some(at) => {
            proof {
                lemma_find_name(s, m, p, i);
            }
            match bound_name(s, m, at) {
                Some(name) => Some(name),
                None => tracer_from(s, m, p, at + 1),
            }
        },
        None => None,
    }
}

/// The name that the actor's tracer is bound to by `let <name> = <alias>.Tracer(`.
pub open spec fn tracer_field(body: Seq<char>, alias: Seq<char>) -> Option<Seq<char>> {
    tracer_from(body, mask(body), alias + ".Tracer("@, 0)
}

fn find_let_before(s: &[char], m: &[bool], at: usize) -> (r: Option<usize>)
    requires
        m@.len() == s@.len(),
        at <= s@.len(),
    ensures
        match r {
            Some(k) => let_before(s@, m@, at as int) == Some(k as int) && k + 3 <= s@.len(),
            None => let_before(s@, m@, at as int) is None,
        },
{
    proof {
        reveal_strlit("let");
    }
    let mut i: usize = at;
    while i > 0
        invariant
            "let"@.len() == 3,
            m@.len() == s@.len(),
            i <= at <= s@.len(),
            let_before(s@, m@, at as int) == let_before(s@, m@, i as int),
        decreases i,
    {
        let c = s[i - 1];
        if m[i - 1] && (c == ';' || c == '{' || c == '}' || c == '=') {
            return None;
        }
        if word_in_code(s, m, i - 1, "let") {
            return Some(i - 1);
        }
        i -= 1;
    }
    None
}

fn name_before(s: &[char], m: &[bool], at: usize) -> (r: Option<String>)
    requires
        m@.len() == s@.len(),
        at <= s@.len(),
    ensures
        match r {
            Some(t) => bound_name(s@, m@, at as int) == Some(t@),
            None => bound_name(s@, m@, at as int) is None,
        },
{
    let e = end_of_code(s, m, at);
    if e == 0 || s[e - 1] != '=' {
        return None;
    }
    match find_let_before(s, m, e - 1) {
        Some(k) => {
            let a = after_gap(s, m, k + 3);
            let b = ident_run(s, a);
            let p = after_gap(s, m, b);
            if a < b && p <= e - 1 && (p == e - 1 || s[p] == ':') {
                Some(string_of(slice(s, a, b)))
            } else {
                None
            }
        },
        None => None,
    }
}

/// The name that the actor's tracer is bound to by `let <name> = <alias>.Tracer(`.
pub fn find_tracer_field(body: &[char], alias: &str) -> (r: Option<String>)
    ensures
        match r {
            Some(t) => tracer_field(body@, alias@) == Some(t@),
            None => tracer_field(body@, alias@) is None,
        },
{
    let m = code_mask(body);
    let n: usize = body.len();
    let mut pat = String::from_str(alias);
    pat.append(".Tracer(");
    let mut i: usize = 0;
    loop
        invariant
            n == body@.len(),
            m@ == mask(body@),
            m@.len() == body@.len(),
            pat@ == alias@ + ".Tracer("@,
            i <= n,
            tracer_field(body@, alias@) == tracer_from(body@, m@, pat@, i as int),
        decreases n - i,
    {
        match find_name_in_code(body, m.as_slice(), pat.as_str(), i) {
            Some(at) => {
                if let Some(name) = name_before(body, m.as_slice(), at) {
                    return Some(name);
                }
                i = at + 1;
            },
            None => {
                return None;
            },
        }
    }
}

// ---------- The actor ----------

/// What there is to trace in an actor. Positions are those of characters in the file.
pub struct ActorInfo {
    /// The position after the actor's `{`.
    pub open: usize,
    /// The position of the actor's `}`.
    pub close: usize,
    /// The name that the `Trace` module is imported under, or `Trace`.
    pub alias: String,
    pub has_import: bool,
    pub has_tracer: bool,
    /// The name of the tracer, or `tracer`.
    pub tracer: String,
    pub has_drain: bool,
    /// The public functions, in the order in which they stand.
    pub funcs: Vec<PubFunc>,
}

/// What there is to trace in an actor, as a mathematical value.
pub struct ActorView {
    pub open: int,
    pub close: int,
    pub alias: Seq<char>,
    pub has_import: bool,
    pub has_tracer: bool,
    pub tracer: Seq<char>,
    pub has_drain: bool,
    pub funcs: Seq<FuncView>,
}

impl View for ActorInfo {
    type V = ActorView;

    open spec fn view(&self) -> ActorView {
        ActorView {
            open: self.open as int,
            close: self.close as int,
            alias: self.alias@,
            has_import: self.has_import,
            has_tracer: self.has_tracer,
            tracer: self.tracer@,
            has_drain: self.has_drain,
            funcs: funcs_view(self.funcs@),
        }
    }
}

/// The name that the `Trace` module is imported under, or `Trace`.
pub open spec fn trace_alias(src: Seq<char>) -> Seq<char> {
    match trace_import(src, mask(src), 0) {
        Some(imp) => imp.alias,
        None => "Trace"@,
    }
}

/// The file imports the `Trace` module.
pub open spec fn has_trace_import(src: Seq<char>) -> bool {
    match trace_import(src, mask(src), 0) {
        Some(imp) => import_line_from(src, mask(src), imp, 0),
        None => false,
    }
}

/// The name of the tracer in the actor body `body`, or `tracer`.
pub open spec fn tracer_name(body: Seq<char>, alias: Seq<char>) -> Seq<char> {
    match tracer_field(body, alias) {
        Some(t) => t,
        None => "tracer"@,
    }
}

/// What there is to trace in the first actor of a file.
pub open spec fn actor_of(src: Seq<char>) -> Option<ActorView> {
    match actor_body(src) {
        Some((open, close)) => {
            let body = src.subrange(open, close);
            let alias = trace_alias(src);
            let tracer = tracer_name(body, alias);
            Some(
                ActorView {
                    open,
                    close,
                    alias,
                    has_import: has_trace_import(src),
                    has_tracer: tracer_field(body, alias) is Some,
                    tracer,
                    has_drain: find_word(body, mask(body), "func __debug_drain"@, 0) is Some,
                    funcs: public_funcs(
                        body,
                        open,
                        Names { alias, tracer, vars: actor_vars(body) },
                    ),
                },
            )
        },
        None => None,
    }
}

/// What there is to trace in the first actor of a file.
pub fn parse(src: &[char]) -> (r: Option<ActorInfo>)
    requires
        blen(src@) <= usize::MAX,
    ensures
        match r {
            Some(a) => actor_of(src@) == Some(a@) && 0 < a.open <= a.close < src@.len() && forall|
                k: int,
            |
                0 <= k < a.funcs@.len() ==> (#[trigger] a.funcs@[k]).within(a.close as int)
                    && a.open <= a.funcs@[k].body_close && src@[a.funcs@[k].body_close as int]
                    == '}',
            None => actor_of(src@) is None,
        },
{
    let len: usize = src.len();
    match find_actor_body(src) {
        Some((open, close)) => {
            let body = slice(src, open, close);
            proof {
                lemma_byte_at(src@, open as int, close as int);
                lemma_encode_add(src@.subrange(0, open as int), body@);
                assert(src@.subrange(0, open as int) + body@ =~= src@.subrange(0, close as int));
            }
            let (alias, has_import) = match find_trace_import(src) {
                Some(imp) => {
                    let has = has_import_line(src, &imp);
                    (imp.alias, has)
                },
                None => (String::from_str("Trace"), false),
            };
            let (tracer, has_tracer) = match find_tracer_field(body, alias.as_str()) {
                Some(t) => (t, true),
                None => (String::from_str("tracer"), false),
            };
            let m = code_mask(body);
            let vars = find_actor_vars(body, m.as_slice());
            let funcs = find_public_funcs(body, open, alias.as_str(), tracer.as_str(), &vars);
            let has_drain = find_word_in_code(body, m.as_slice(), "func __debug_drain").is_some();
            Some(
                ActorInfo { open, close, alias, has_import, has_tracer, tracer, has_drain, funcs },
            )
        },
        None => None,
    }
}

} // verus!
