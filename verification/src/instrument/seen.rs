//! What the rules for Rust see in a file: places, names, containers, and what a
//! closure calls.

use vstd::prelude::*;
use vstd::string::*;

use crate::instrument::detect::{
    containers, declares_static, end_of, params_place, start_of, text_of, with_call, lead,
    line_below, notes, position, statics_from,
};
use crate::instrument::found::{block_with, expr_with};
use crate::instrument::mentions::{
    macro_in, macro_in_any, macro_in_arms, macro_in_body, macro_in_stmt, macro_in_stmts, method_in,
    method_in_any, method_in_arms, method_in_body, method_in_stmt, method_in_stmts, name_in_token,
    name_in_tokens,
};
use crate::instrument::parse::{items_bind, use_binds, uses_bind};
use crate::instrument::syntax::{
    Body, Entry, ExprKind, Expression, File, Function, Imported, MatchArm, Place, Statement,
    StmtKind, Token,
};
use crate::text::{
    find, find_char, is_space, lemma_find, lemma_line_end, lemma_line_start, line_end, line_start,
    match_at, quoted, skip_space,
};

verus! {

// ---------- Places ----------

/// How many line feeds stand before position `p`.
pub open spec fn feeds(s: Seq<char>, p: int) -> int
    decreases p,
{
    if p <= 0 {
        0
    } else {
        feeds(s, p - 1) + if s[p - 1] == '\n' {
            1int
        } else {
            0
        }
    }
}

proof fn lemma_feeds(s: Seq<char>, i: int, j: int)
    requires
        0 <= i <= j <= s.len(),
    ensures
        feeds(s, i) <= feeds(s, j),
        (forall|k: int| i <= k < j ==> #[trigger] s[k] != '\n') ==> feeds(s, i) == feeds(s, j),
    decreases j - i,
{
    if i < j {
        lemma_feeds(s, i, j - 1);
        if forall|k: int| i <= k < j ==> #[trigger] s[k] != '\n' {
            assert(s[j - 1] != '\n');
        }
    }
}

proof fn lemma_lines_below(s: Seq<char>, i: int, q: int)
    requires
        0 <= i <= q <= s.len(),
        q > 0 ==> s[q - 1] == '\n',
    ensures
        i > 0 && s[i - 1] != '\n' || line_below(s, i, (feeds(s, q) - feeds(s, i)) as nat) == Some(
            q,
        ),
    decreases q - i,
{
    if i == 0 || s[i - 1] == '\n' {
        lemma_feeds(s, i, q);
        if i < q {
            lemma_line_end(s, i);
            let e = line_end(s, i);
            assert(e <= q - 1) by {
                if e > q - 1 {
                    assert(s[q - 1] != '\n');
                }
            }
            lemma_feeds(s, i, e);
            assert(feeds(s, e + 1) == feeds(s, i) + 1);
            lemma_feeds(s, e + 1, q);
            lemma_lines_below(s, e + 1, q);
        }
    }
}

/// A line, which counts from one, and a column give the position that they are those of: as many
/// line feeds stand before it as lines, and as many characters of its own line as columns.
pub proof fn law_line_and_column(s: Seq<char>, p: int)
    requires
        0 <= p <= s.len(),
    ensures
        position(s, feeds(s, p) + 1, p - line_start(s, p)) == p,
{
    let q = line_start(s, p);
    lemma_line_start(s, p);
    lemma_feeds(s, 0, p);
    lemma_feeds(s, q, p);
    lemma_feeds(s, 0, q);
    lemma_lines_below(s, 0, q);
    lemma_line_end(s, q);
    let e = line_end(s, q);
    assert(p <= e) by {
        if e < p {
            assert(s[e] == '\n');
            assert(s[e] != '\n');
        }
    }
}

proof fn lemma_skipped(s: Seq<char>, i: int, e: int)
    requires
        0 <= i <= e <= s.len(),
        forall|k: int| i <= k < e ==> is_space(#[trigger] s[k]),
        e < s.len() ==> !is_space(s[e]),
    ensures
        skip_space(s, i) == e,
    decreases e - i,
{
    if i < e {
        assert(is_space(s[i]));
        lemma_skipped(s, i + 1, e);
    }
}

/// What leads to a place is the white space that its line begins with, up to the place.
pub proof fn law_lead(s: Seq<char>, q: int, e: int, at: int)
    requires
        0 <= q <= e <= at <= s.len(),
        q > 0 ==> s[q - 1] == '\n',
        forall|k: int| q <= k < at ==> #[trigger] s[k] != '\n',
        forall|k: int| q <= k < e ==> is_space(#[trigger] s[k]),
        e < at ==> !is_space(s[e]),
    ensures
        line_start(s, at) == q,
        lead(s, at) == s.subrange(q, e),
{
    lemma_line_start(s, at);
    let l = line_start(s, at);
    if l < q {
        assert(s[q - 1] != '\n');
    }
    if l > q {
        assert(s[l - 1] != '\n');
    }
    let own = s.subrange(q, at);
    assert forall|k: int| 0 <= k < e - q implies is_space(#[trigger] own[k]) by {
        assert(own[k] == s[q + k]);
    }
    if e < at {
        assert(own[e - q] == s[e]);
    }
    lemma_skipped(own, 0, e - q);
    assert(lead(s, at) =~= s.subrange(q, e));
}

proof fn lemma_first_char(s: Seq<char>, c: char, i: int, k: int)
    requires
        0 <= i <= k < s.len(),
        s[k] == c,
        forall|j: int| i <= j < k ==> #[trigger] s[j] != c,
    ensures
        find_char(s, c, i) == Some(k),
    decreases k - i,
{
    if i < k {
        assert(s[i] != c);
        lemma_first_char(s, c, i + 1, k);
    }
}

/// A line that holds no call of `trace_event!` notes nothing. One that calls it with a text, and
/// holds no such call before, notes what that text ends in, and nothing else.
pub proof fn law_line_notes(line: Seq<char>, suffix: Seq<char>, at: int, x: int, y: int)
    ensures
        (forall|k: int| !#[trigger] match_at(line, k, "trace_event!("@)) ==> !notes(line, suffix),
        ({
            &&& match_at(line, at, "trace_event!("@)
            &&& forall|k: int| 0 <= k < at ==> !#[trigger] match_at(line, k, "trace_event!("@)
            &&& at + 14 == x <= y < line.len()
            &&& line[x - 1] == '"'
            &&& line[y] == '"'
            &&& forall|k: int| x <= k < y ==> #[trigger] line[k] != '"'
        }) ==> notes(line, suffix) == (suffix.len() <= y - x && line.subrange(
            y - suffix.len(),
            y,
        ) == suffix),
{
    let p = "trace_event!("@;
    reveal_strlit("trace_event!(");
    lemma_find(line, p, 0);
    if {
        &&& match_at(line, at, p)
        &&& forall|k: int| 0 <= k < at ==> !#[trigger] match_at(line, k, p)
        &&& at + 14 == x <= y < line.len()
        &&& line[x - 1] == '"'
        &&& line[y] == '"'
        &&& forall|k: int| x <= k < y ==> #[trigger] line[k] != '"'
    } {
        let k = find(line, p, 0)->0;
        assert(find(line, p, 0) is Some);
        assert(k == at) by {
            if k < at {
                assert(!match_at(line, k, p));
            }
            if k > at {
                assert(!match_at(line, at, p));
            }
        }
        lemma_first_char(line, '"', x - 1, x - 1);
        lemma_first_char(line, '"', x, y);
        assert(quoted(line, at + 13) == Some((x, y)));
        let t = line.subrange(x, y);
        if suffix.len() <= y - x {
            assert(t.subrange(t.len() - suffix.len(), t.len() as int) =~= line.subrange(
                y - suffix.len(),
                y,
            ));
        }
    }
}

// ---------- Containers ----------

proof fn lemma_statics(ts: Seq<Token>, i: int, name: Seq<char>)
    requires
        0 <= i,
    ensures
        statics_from(ts, i).contains(name) <==> exists|k: int|
            i <= k && #[trigger] declares_static(ts, k) == Some(name),
    decreases ts.len() - i,
{
    if i < ts.len() {
        lemma_statics(ts, i + 1, name);
        let rest = statics_from(ts, i + 1);
        match declares_static(ts, i) {
            Some(own) => {
                let all = seq![own] + rest;
                assert(all[0] == own);
                if rest.contains(name) {
                    let x = choose|x: int| 0 <= x < rest.len() && rest[x] == name;
                    assert(all[x + 1] == name);
                }
                if all.contains(name) && own != name {
                    let x = choose|x: int| 0 <= x < all.len() && all[x] == name;
                    assert(rest[x - 1] == name);
                }
                if own == name {
                    assert(declares_static(ts, i) == Some(name));
                }
            },
            None => {},
        }
    }
}

/// The tokens from `k` on are `static`, a name and `:`.
pub open spec fn is_static(ts: Seq<Token>, k: int, name: Seq<char>) -> bool {
    &&& 0 <= k
    &&& k + 2 < ts.len()
    &&& ts[k] matches Token::Ident(w) && w@ == "static"@
    &&& ts[k + 1] matches Token::Ident(w) && w@ == name
    &&& ts[k + 2] == Token::Punct(':')
}

/// The item is a `thread_local!` that declares a `static` of this name.
pub open spec fn is_container(item: Entry, name: Seq<char>) -> bool {
    item matches Entry::Macro(mac) && mac.path@.len() > 0 && mac.path@.last()@ == "thread_local"@
        && exists|k: int| #[trigger] is_static(mac.tokens@, k, name)
}

proof fn lemma_containers(items: Seq<Entry>, n: nat, name: Seq<char>)
    requires
        n <= items.len(),
    ensures
        containers(items, n).contains(name) <==> exists|i: int|
            0 <= i < n && is_container(#[trigger] items[i], name),
    decreases n,
{
    if n > 0 {
        lemma_containers(items, (n - 1) as nat, name);
        let before = containers(items, (n - 1) as nat);
        let last = items[n - 1];
        if let Entry::Macro(mac) = last {
            if mac.path@.len() > 0 && mac.path@.last()@ == "thread_local"@ {
                let own = statics_from(mac.tokens@, 0);
                lemma_statics(mac.tokens@, 0, name);
                if own.contains(name) {
                    let k = choose|k: int|
                        0 <= k && #[trigger] declares_static(mac.tokens@, k) == Some(name);
                    assert(is_static(mac.tokens@, k, name));
                    let x = choose|x: int| 0 <= x < own.len() && own[x] == name;
                    assert((before + own)[before.len() + x] == name);
                }
                if before.contains(name) {
                    let x = choose|x: int| 0 <= x < before.len() && before[x] == name;
                    assert((before + own)[x] == name);
                }
                if (before + own).contains(name) {
                    let x = choose|x: int|
                        0 <= x < (before + own).len() && (before + own)[x] == name;
                    if x < before.len() {
                        assert(before[x] == name);
                    } else {
                        assert(own[x - before.len()] == name);
                    }
                }
                if is_container(last, name) {
                    let k = choose|k: int| #[trigger] is_static(mac.tokens@, k, name);
                    assert(declares_static(mac.tokens@, k) == Some(name));
                }
            }
        }
        if exists|i: int| 0 <= i < n && is_container(#[trigger] items[i], name) {
            let i = choose|i: int| 0 <= i < n && is_container(#[trigger] items[i], name);
            if i < n - 1 {
                assert(is_container(items[i], name));
            }
        }
        if is_container(last, name) {
            assert(is_container(items[n - 1], name));
        }
    }
}

/// The containers of a file are the statics that its `thread_local!` items declare, and no others.
pub proof fn law_containers(file: File, name: Seq<char>)
    ensures
        containers(file.items@, file.items@.len()).contains(name) <==> exists|i: int|
            0 <= i < file.items@.len() && is_container(#[trigger] file.items@[i], name),
{
    lemma_containers(file.items@, file.items@.len(), name);
}

// ---------- Names ----------

/// A path to one of the functions that are looked for, and the same as one text.
pub open spec fn is_followed(path: Seq<Seq<char>>, text: Seq<char>) -> bool {
    ||| path == seq!["ic_cdk"@, "call"@] && text == "ic_cdk::call"@
    ||| path == seq!["ic_cdk"@, "trap"@] && text == "ic_cdk::trap"@
    ||| path == seq!["ic_cdk"@, "api"@, "trap"@] && text == "ic_cdk::api::trap"@
    ||| path == seq!["ic_cdk"@, "api"@, "call"@, "call_raw"@] && text
        == "ic_cdk::api::call::call_raw"@
    ||| path == seq!["ic_cdk"@, "api"@, "call"@, "call_with_payment"@] && text
        == "ic_cdk::api::call::call_with_payment"@
}

/// A `use` of a function that is looked for binds its name, or the one that it is given, to its
/// path; any other `use` binds nothing, nor does one of `*`. What comes before a name is part of the
/// path.
pub proof fn law_use_binds(
    tree: Imported,
    prefix: Seq<Seq<char>>,
    text: Seq<char>,
    map: Map<Seq<char>, Seq<char>>,
)
    ensures
        match tree {
            Imported::Path { ident, tree: inner } => use_binds(tree, prefix, map) == use_binds(
                *inner,
                prefix.push(ident@),
                map,
            ),
            Imported::Name(ident) => {
                &&& is_followed(prefix.push(ident@), text) ==> use_binds(tree, prefix, map)
                    == map.insert(ident@, text)
                &&& (forall|t: Seq<char>| !#[trigger] is_followed(prefix.push(ident@), t))
                    ==> use_binds(tree, prefix, map) == map
            },
            Imported::Rename { ident, rename } => {
                &&& is_followed(prefix.push(ident@), text) ==> use_binds(tree, prefix, map)
                    == map.insert(rename@, text)
                &&& (forall|t: Seq<char>| !#[trigger] is_followed(prefix.push(ident@), t))
                    ==> use_binds(tree, prefix, map) == map
            },
            Imported::Group(items) => use_binds(tree, prefix, map) == uses_bind(
                items@,
                items@.len(),
                prefix,
                map,
            ),
            Imported::Glob => use_binds(tree, prefix, map) == map,
        },
{
    match tree {
        Imported::Name(ident) => {
            lemma_followed(prefix.push(ident@), text);
        },
        Imported::Rename { ident, rename } => {
            lemma_followed(prefix.push(ident@), text);
        },
        Imported::Group(items) => {
            assert(use_binds(tree, prefix, map) == uses_bind(items@, items@.len(), prefix, map));
        },
        _ => {},
    }
}

proof fn lemma_followed(path: Seq<Seq<char>>, text: Seq<char>)
    ensures
        is_followed(path, text) ==> crate::instrument::parse::followed(path) == Some(text),
        (forall|t: Seq<char>| !#[trigger] is_followed(path, t))
            ==> crate::instrument::parse::followed(path) is None,
{
    let a = seq!["ic_cdk"@, "call"@];
    let b = seq!["ic_cdk"@, "trap"@];
    let c = seq!["ic_cdk"@, "api"@, "trap"@];
    let d = seq!["ic_cdk"@, "api"@, "call"@, "call_raw"@];
    let e = seq!["ic_cdk"@, "api"@, "call"@, "call_with_payment"@];
    reveal_strlit("call");
    reveal_strlit("trap");
    reveal_strlit("call_raw");
    reveal_strlit("call_with_payment");
    assert("call"@[0] == 'c' && "trap"@[0] == 't');
    assert("call_raw"@.len() == 8 && "call_with_payment"@.len() == 17);
    assert(a[1] == "call"@ && b[1] == "trap"@);
    assert(d[3] == "call_raw"@ && e[3] == "call_with_payment"@);
    assert(a.len() == 2 && b.len() == 2 && c.len() == 3 && d.len() == 4 && e.len() == 4);
    if let Some(t) = crate::instrument::parse::followed(path) {
        assert(is_followed(path, t));
    }
}

/// The parts of a group bind one after the other, each under what comes before the group.
pub proof fn law_group_binds(
    items: Seq<Imported>,
    n: nat,
    prefix: Seq<Seq<char>>,
    map: Map<Seq<char>, Seq<char>>,
)
    requires
        n < items.len(),
    ensures
        uses_bind(items, 0, prefix, map) == map,
        uses_bind(items, n + 1, prefix, map) == use_binds(
            items[n as int],
            prefix,
            uses_bind(items, n, prefix, map),
        ),
{
}

/// The `use` items of a file bind one after the other; its other items bind nothing.
pub proof fn law_file_binds(items: Seq<Entry>, n: nat)
    requires
        n < items.len(),
    ensures
        items_bind(items, 0) == Map::<Seq<char>, Seq<char>>::empty(),
        match items[n as int] {
            Entry::Use(tree) => items_bind(items, n + 1) == use_binds(
                tree,
                Seq::empty(),
                items_bind(items, n),
            ),
            _ => items_bind(items, n + 1) == items_bind(items, n),
        },
{
}

// ---------- What an expression calls ----------

/// `part` is an expression in `e`, directly. What a closure holds counts.
pub open spec fn is_part(part: Expression, e: Expression) -> bool {
    match e.kind {
        ExprKind::MethodCall { receiver, method, args } => part == *receiver || args@.contains(
            part,
        ),
        ExprKind::Call { func, args } => part == *func || args@.contains(part),
        ExprKind::Closure(inner) => part == *inner,
        ExprKind::If { cond, body, otherwise } => part == *cond || (otherwise matches Some(other)
            && part == *other),
        ExprKind::Match { expr, arms } => part == *expr || exists|i: int|
            0 <= i < arms@.len() && part == *(#[trigger] arms@[i]).body,
        ExprKind::While { cond, body } => part == *cond,
        ExprKind::ForLoop { expr, body } => part == *expr,
        ExprKind::Reference(inner) => part == *inner,
        ExprKind::Paren(inner) => part == *inner,
        ExprKind::Await(inner) => part == *inner,
        ExprKind::Try(inner) => part == *inner,
        ExprKind::Return(value) => value matches Some(inner) && part == *inner,
        _ => false,
    }
}

/// `part` is an expression in `e` that only a search for methods looks at.
pub open spec fn is_operand(part: Expression, e: Expression) -> bool {
    match e.kind {
        ExprKind::Binary(left, right) => part == *left || part == *right,
        ExprKind::Assign(left, right) => part == *left || part == *right,
        ExprKind::Unary(inner) => part == *inner,
        ExprKind::Let(inner) => part == *inner,
        ExprKind::Tuple(elems) => elems@.contains(part),
        _ => false,
    }
}

proof fn lemma_method_in_any(es: Seq<Expression>, n: nat, w: Seq<char>)
    requires
        n <= es.len(),
    ensures
        method_in_any(es, n, w) <==> exists|k: int| 0 <= k < n && method_in(#[trigger] es[k], w),
    decreases n,
{
    if n > 0 {
        lemma_method_in_any(es, (n - 1) as nat, w);
        if method_in(es[n - 1], w) {
            assert(0 <= n - 1 < n && method_in(es[n - 1], w));
        }
    }
}

proof fn lemma_method_in_arms(arms: Seq<MatchArm>, n: nat, w: Seq<char>)
    requires
        n <= arms.len(),
    ensures
        method_in_arms(arms, n, w) <==> exists|k: int|
            0 <= k < n && method_in(*(#[trigger] arms[k]).body, w),
    decreases n,
{
    if n > 0 {
        lemma_method_in_arms(arms, (n - 1) as nat, w);
        if method_in(*arms[n - 1].body, w) {
            assert(0 <= n - 1 < n && method_in(*arms[n - 1].body, w));
        }
    }
}

proof fn lemma_method_in_stmts(ss: Seq<Statement>, n: nat, w: Seq<char>)
    requires
        n <= ss.len(),
    ensures
        method_in_stmts(ss, n, w) <==> exists|k: int|
            0 <= k < n && method_in_stmt(#[trigger] ss[k], w),
    decreases n,
{
    if n > 0 {
        lemma_method_in_stmts(ss, (n - 1) as nat, w);
        if method_in_stmt(ss[n - 1], w) {
            assert(0 <= n - 1 < n && method_in_stmt(ss[n - 1], w));
        }
    }
}

proof fn lemma_macro_in_any(es: Seq<Expression>, n: nat, w: Seq<char>)
    requires
        n <= es.len(),
    ensures
        macro_in_any(es, n, w) <==> exists|k: int| 0 <= k < n && macro_in(#[trigger] es[k], w),
    decreases n,
{
    if n > 0 {
        lemma_macro_in_any(es, (n - 1) as nat, w);
        if macro_in(es[n - 1], w) {
            assert(0 <= n - 1 < n && macro_in(es[n - 1], w));
        }
    }
}

proof fn lemma_macro_in_arms(arms: Seq<MatchArm>, n: nat, w: Seq<char>)
    requires
        n <= arms.len(),
    ensures
        macro_in_arms(arms, n, w) <==> exists|k: int|
            0 <= k < n && macro_in(*(#[trigger] arms[k]).body, w),
    decreases n,
{
    if n > 0 {
        lemma_macro_in_arms(arms, (n - 1) as nat, w);
        if macro_in(*arms[n - 1].body, w) {
            assert(0 <= n - 1 < n && macro_in(*arms[n - 1].body, w));
        }
    }
}

proof fn lemma_macro_in_stmts(ss: Seq<Statement>, n: nat, w: Seq<char>)
    requires
        n <= ss.len(),
    ensures
        macro_in_stmts(ss, n, w) <==> exists|k: int|
            0 <= k < n && macro_in_stmt(#[trigger] ss[k], w),
    decreases n,
{
    if n > 0 {
        lemma_macro_in_stmts(ss, (n - 1) as nat, w);
        if macro_in_stmt(ss[n - 1], w) {
            assert(0 <= n - 1 < n && macro_in_stmt(ss[n - 1], w));
        }
    }
}

/// A method is called in an expression where the expression is that call, and where it is called in
/// a part of the expression or in a block of it.
pub proof fn law_method_is_seen(part: Expression, e: Expression, w: Seq<char>)
    ensures
        e.kind is MethodCall && e.kind->method@ == w ==> method_in(e, w),
        (is_part(part, e) || is_operand(part, e)) && method_in(part, w) ==> method_in(e, w),
        !(e.kind is Unsafe) && (block_with(e) matches Some(b) && method_in_body(b, w))
            ==> method_in(e, w),
{
    match e.kind {
        ExprKind::MethodCall { receiver, method, args } => {
            lemma_method_in_any(args@, args@.len(), w);
            if args@.contains(part) {
                let k = choose|k: int| 0 <= k < args@.len() && args@[k] == part;
                assert(args@[k] == part);
            }
        },
        ExprKind::Call { func, args } => {
            lemma_method_in_any(args@, args@.len(), w);
            if args@.contains(part) {
                let k = choose|k: int| 0 <= k < args@.len() && args@[k] == part;
                assert(args@[k] == part);
            }
        },
        ExprKind::Tuple(elems) => {
            lemma_method_in_any(elems@, elems@.len(), w);
            if elems@.contains(part) {
                let k = choose|k: int| 0 <= k < elems@.len() && elems@[k] == part;
                assert(elems@[k] == part);
            }
        },
        ExprKind::Match { expr, arms } => {
            lemma_method_in_arms(arms@, arms@.len(), w);
        },
        _ => {},
    }
}

/// A method that is called in an expression is called by it, in a part of it or in a block of it.
pub proof fn law_method_is_seen_only_there(e: Expression, w: Seq<char>) -> (part: Expression)
    requires
        method_in(e, w),
        !(e.kind is MethodCall && e.kind->method@ == w),
        !(block_with(e) matches Some(b) && method_in_body(b, w)),
    ensures
        is_part(part, e) || is_operand(part, e),
        method_in(part, w),
{
    match e.kind {
        ExprKind::MethodCall { receiver, method, args } => {
            lemma_method_in_any(args@, args@.len(), w);
            if method_in(*receiver, w) {
                *receiver
            } else {
                let k = choose|k: int| 0 <= k < args@.len() && method_in(#[trigger] args@[k], w);
                args@[k]
            }
        },
        ExprKind::Call { func, args } => {
            lemma_method_in_any(args@, args@.len(), w);
            if method_in(*func, w) {
                *func
            } else {
                let k = choose|k: int| 0 <= k < args@.len() && method_in(#[trigger] args@[k], w);
                args@[k]
            }
        },
        ExprKind::Tuple(elems) => {
            lemma_method_in_any(elems@, elems@.len(), w);
            let k = choose|k: int| 0 <= k < elems@.len() && method_in(#[trigger] elems@[k], w);
            elems@[k]
        },
        ExprKind::Match { expr, arms } => {
            lemma_method_in_arms(arms@, arms@.len(), w);
            if method_in(*expr, w) {
                *expr
            } else {
                let k = choose|k: int|
                    0 <= k < arms@.len() && method_in(*(#[trigger] arms@[k]).body, w);
                *arms@[k].body
            }
        },
        ExprKind::If { cond, body, otherwise } => if method_in(*cond, w) {
            *cond
        } else {
            *otherwise->0
        },
        ExprKind::While { cond, body } => *cond,
        ExprKind::ForLoop { expr, body } => *expr,
        ExprKind::Binary(left, right) => if method_in(*left, w) {
            *left
        } else {
            *right
        },
        ExprKind::Assign(left, right) => if method_in(*left, w) {
            *left
        } else {
            *right
        },
        ExprKind::Return(value) => *value->0,
        ExprKind::Closure(inner) => *inner,
        ExprKind::Reference(inner) => *inner,
        ExprKind::Paren(inner) => *inner,
        ExprKind::Await(inner) => *inner,
        ExprKind::Try(inner) => *inner,
        ExprKind::Unary(inner) => *inner,
        ExprKind::Let(inner) => *inner,
        _ => e,
    }
}

/// A method is called in a block where it is called in what one of its statements evaluates, and
/// only there.
pub proof fn law_method_is_seen_in_block(b: Body, w: Seq<char>)
    ensures
        method_in_body(b, w) <==> exists|k: int|
            0 <= k < b.stmts@.len() && (expr_with(#[trigger] b.stmts@[k]) matches Some(e)
                && method_in(e, w)),
{
    lemma_method_in_stmts(b.stmts@, b.stmts@.len(), w);
    if method_in_body(b, w) {
        let k = choose|k: int| 0 <= k < b.stmts@.len() && method_in_stmt(#[trigger] b.stmts@[k], w);
        assert(expr_with(b.stmts@[k]) matches Some(e) && method_in(e, w));
    }
    if exists|k: int|
        0 <= k < b.stmts@.len() && (expr_with(#[trigger] b.stmts@[k]) matches Some(e) && method_in(
            e,
            w,
        )) {
        let k = choose|k: int|
            0 <= k < b.stmts@.len() && (expr_with(#[trigger] b.stmts@[k]) matches Some(e)
                && method_in(e, w));
        assert(method_in_stmt(b.stmts@[k], w));
    }
}

/// A macro is called in an expression where the expression is that call, and where it is called in a
/// part of the expression or in a block of it.
pub proof fn law_macro_is_seen(part: Expression, e: Expression, w: Seq<char>)
    ensures
        (e.kind matches ExprKind::Macro(mac) && mac.path@.len() > 0 && mac.path@.last()@ == w)
            ==> macro_in(e, w),
        is_part(part, e) && macro_in(part, w) ==> macro_in(e, w),
        !(e.kind is Unsafe) && (block_with(e) matches Some(b) && macro_in_body(b, w)) ==> macro_in(
            e,
            w,
        ),
{
    match e.kind {
        ExprKind::MethodCall { receiver, method, args } => {
            lemma_macro_in_any(args@, args@.len(), w);
            if args@.contains(part) {
                let k = choose|k: int| 0 <= k < args@.len() && args@[k] == part;
                assert(args@[k] == part);
            }
        },
        ExprKind::Call { func, args } => {
            lemma_macro_in_any(args@, args@.len(), w);
            if args@.contains(part) {
                let k = choose|k: int| 0 <= k < args@.len() && args@[k] == part;
                assert(args@[k] == part);
            }
        },
        ExprKind::Match { expr, arms } => {
            lemma_macro_in_arms(arms@, arms@.len(), w);
        },
        _ => {},
    }
}

/// A macro that is called in an expression is called by it, in a part of it or in a block of it.
pub proof fn law_macro_is_seen_only_there(e: Expression, w: Seq<char>) -> (part: Expression)
    requires
        macro_in(e, w),
        !(e.kind is Macro),
        !(block_with(e) matches Some(b) && macro_in_body(b, w)),
    ensures
        is_part(part, e),
        macro_in(part, w),
{
    match e.kind {
        ExprKind::MethodCall { receiver, method, args } => {
            lemma_macro_in_any(args@, args@.len(), w);
            if macro_in(*receiver, w) {
                *receiver
            } else {
                let k = choose|k: int| 0 <= k < args@.len() && macro_in(#[trigger] args@[k], w);
                args@[k]
            }
        },
        ExprKind::Call { func, args } => {
            lemma_macro_in_any(args@, args@.len(), w);
            if macro_in(*func, w) {
                *func
            } else {
                let k = choose|k: int| 0 <= k < args@.len() && macro_in(#[trigger] args@[k], w);
                args@[k]
            }
        },
        ExprKind::Match { expr, arms } => {
            lemma_macro_in_arms(arms@, arms@.len(), w);
            if macro_in(*expr, w) {
                *expr
            } else {
                let k = choose|k: int|
                    0 <= k < arms@.len() && macro_in(*(#[trigger] arms@[k]).body, w);
                *arms@[k].body
            }
        },
        ExprKind::If { cond, body, otherwise } => if macro_in(*cond, w) {
            *cond
        } else {
            *otherwise->0
        },
        ExprKind::While { cond, body } => *cond,
        ExprKind::ForLoop { expr, body } => *expr,
        ExprKind::Return(value) => *value->0,
        ExprKind::Closure(inner) => *inner,
        ExprKind::Reference(inner) => *inner,
        ExprKind::Paren(inner) => *inner,
        ExprKind::Await(inner) => *inner,
        ExprKind::Try(inner) => *inner,
        _ => e,
    }
}

/// A macro is called in a block where one of its statements is that call, or calls it in what it
/// evaluates, and only there.
pub proof fn law_macro_is_seen_in_block(b: Body, w: Seq<char>)
    ensures
        macro_in_body(b, w) <==> exists|k: int|
            0 <= k < b.stmts@.len() && ((expr_with(#[trigger] b.stmts@[k]) matches Some(e)
                && macro_in(e, w)) || (b.stmts@[k].kind matches StmtKind::Macro(mac)
                && mac.path@.len() > 0 && mac.path@.last()@ == w)),
{
    lemma_macro_in_stmts(b.stmts@, b.stmts@.len(), w);
    if macro_in_body(b, w) {
        let k = choose|k: int| 0 <= k < b.stmts@.len() && macro_in_stmt(#[trigger] b.stmts@[k], w);
        assert((expr_with(b.stmts@[k]) matches Some(e) && macro_in(e, w)) || (
        b.stmts@[k].kind matches StmtKind::Macro(mac) && mac.path@.len() > 0
            && mac.path@.last()@ == w));
    }
    if exists|k: int|
        0 <= k < b.stmts@.len() && ((expr_with(#[trigger] b.stmts@[k]) matches Some(e) && macro_in(
            e,
            w,
        )) || (b.stmts@[k].kind matches StmtKind::Macro(mac) && mac.path@.len() > 0
            && mac.path@.last()@ == w)) {
        let k = choose|k: int|
            0 <= k < b.stmts@.len() && ((expr_with(#[trigger] b.stmts@[k]) matches Some(e)
                && macro_in(e, w)) || (b.stmts@[k].kind matches StmtKind::Macro(mac)
                && mac.path@.len() > 0 && mac.path@.last()@ == w));
        assert(macro_in_stmt(b.stmts@[k], w));
    }
}

/// A name stands among tokens where one of them is that name, or holds it between its brackets, and
/// only there. What a literal holds is no name.
pub proof fn law_name_among_tokens(ts: Seq<Token>, n: nat, w: Seq<char>)
    requires
        n <= ts.len(),
    ensures
        name_in_tokens(ts, n, w) <==> exists|k: int|
            0 <= k < n && (match #[trigger] ts[k] {
                Token::Ident(i) => i@ == w,
                Token::Group(inner) => name_in_tokens(inner@, inner@.len(), w),
                _ => false,
            }),
    decreases n,
{
    if n > 0 {
        law_name_among_tokens(ts, (n - 1) as nat, w);
        assert(name_in_token(ts[n - 1], w) == match ts[n - 1] {
            Token::Ident(i) => i@ == w,
            Token::Group(inner) => name_in_tokens(inner@, inner@.len(), w),
            _ => false,
        });
    }
}

// ---------- Parameters and parts ----------

/// The first parameter goes behind the first bracket after the name of the function.
pub proof fn law_first_parameter_place(f: Function, src: Seq<char>, k: int)
    requires
        0 <= end_of(src, f.ident_span) <= k < src.len(),
        src[k] == '(',
        forall|j: int| end_of(src, f.ident_span) <= j < k ==> #[trigger] src[j] != '(',
    ensures
        params_place(f, src) == k + 1,
{
    lemma_first_char(src, '(', end_of(src, f.ident_span), k);
}

/// A part of the source from one place to another holds what stands between.
pub proof fn law_text_of_a_part(src: Seq<char>, p: Place, a: int, b: int)
    requires
        0 <= a <= b <= src.len(),
        p.start_line == feeds(src, a) + 1,
        p.start_col == a - line_start(src, a),
        p.end_line == feeds(src, b) + 1,
        p.end_col == b - line_start(src, b),
    ensures
        start_of(src, p) == a,
        end_of(src, p) == b,
        text_of(src, p) == src.subrange(a, b),
{
    law_line_and_column(src, a);
    law_line_and_column(src, b);
}

/// A call on a container is seen through parentheses and an `await`; what is called with other
/// arguments than one closure, or by another method, is none.
pub proof fn law_container_call(e: Expression, inner: Expression)
    ensures
        (e.kind matches ExprKind::Paren(x) && *x == inner) || (e.kind matches ExprKind::Await(x)
            && *x == inner) ==> with_call(e) == with_call(inner),
        e.kind is MethodCall && (e.kind->method@ != "with"@ || e.kind->MethodCall_args@.len() != 1
            || !(e.kind->MethodCall_args@[0].kind is Closure)) ==> with_call(e) is None,
{
}

} // verus!
