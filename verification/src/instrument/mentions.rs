//! What an expression mentions: calls of a method, calls of a macro, names in a
//! macro's input.

use vstd::prelude::*;
use vstd::string::*;

use crate::instrument::syntax::{
    Body, ExprKind, Expression, MacroCall, MatchArm, Statement, StmtKind, Token,
};
use crate::text::{chars_of, ends_with, ends_with_str, same_text, slice};

verus! {

// ---------- Macros ----------

/// The last segment of a path is `w`.
pub open spec fn last_is(path: Seq<String>, w: Seq<char>) -> bool {
    path.len() > 0 && path.last()@ == w
}

/// Whether the last segment of a path is `w`.
pub fn macro_path_ident_is(path: &Vec<String>, w: &str) -> (r: bool)
    ensures
        r == last_is(path@, w@),
{
    path.len() > 0 && same_text(path[path.len() - 1].as_str(), w)
}

/// The macro that a statement calls.
pub open spec fn stmt_macro(s: Statement) -> Option<MacroCall> {
    match s.kind {
        StmtKind::Macro(mac) => Some(mac),
        StmtKind::Expr { expr, .. } => match expr.kind {
            ExprKind::Macro(mac) => Some(mac),
            _ => None,
        },
        _ => None,
    }
}

/// The macro that a statement calls.
pub fn stmt_as_macro(s: &Statement) -> (r: Option<&MacroCall>)
    ensures
        match r {
            Some(mac) => stmt_macro(*s) == Some(*mac),
            None => stmt_macro(*s) is None,
        },
{
    match &s.kind {
        StmtKind::Macro(mac) => Some(mac),
        StmtKind::Expr { expr, .. } => match &expr.kind {
            ExprKind::Macro(mac) => Some(mac),
            _ => None,
        },
        _ => None,
    }
}

/// The statement calls the macro `w`.
pub open spec fn calls_macro(s: Statement, w: Seq<char>) -> bool {
    stmt_macro(s) matches Some(mac) && last_is(mac.path@, w)
}

/// Whether the statement calls the macro `w`.
pub fn stmt_calls_macro(s: &Statement, w: &str) -> (r: bool)
    ensures
        r == calls_macro(*s, w@),
{
    match stmt_as_macro(s) {
        Some(mac) => macro_path_ident_is(&mac.path, w),
        None => false,
    }
}

/// The name `w` stands among a token, at any depth; what a literal holds is no name.
pub open spec fn name_in_token(t: Token, w: Seq<char>) -> bool
    decreases t, 0nat,
{
    match t {
        Token::Ident(i) => i@ == w,
        Token::Group(inner) => name_in_tokens(inner@, inner@.len(), w),
        _ => false,
    }
}

/// The name `w` stands among the first `n` tokens, at any depth.
pub open spec fn name_in_tokens(ts: Seq<Token>, n: nat, w: Seq<char>) -> bool
    decreases ts, n,
{
    if n == 0 || n > ts.len() {
        false
    } else {
        name_in_tokens(ts, (n - 1) as nat, w) || name_in_token(ts[n - 1], w)
    }
}

fn token_mentions_ident(t: &Token, w: &str) -> (r: bool)
    ensures
        r == name_in_token(*t, w@),
    decreases *t, 0nat,
{
    match t {
        Token::Ident(i) => same_text(i.as_str(), w),
        Token::Group(inner) => tokens_mention_ident(inner, w),
        _ => false,
    }
}

/// Whether the name `w` stands among the tokens, at any depth; what a literal holds is no name.
pub fn tokens_mention_ident(ts: &Vec<Token>, w: &str) -> (r: bool)
    ensures
        r == name_in_tokens(ts@, ts@.len(), w@),
    decreases *ts, ts@.len() + 1,
{
    let mut i: usize = 0;
    let mut r = false;
    while i < ts.len()
        invariant
            i <= ts@.len(),
            r == name_in_tokens(ts@, i as nat, w@),
        decreases ts@.len() - i,
    {
        if token_mentions_ident(&ts[i], w) {
            r = true;
        }
        i += 1;
    }
    r
}

/// A literal as it is written is a plain string: it begins and ends with a quote.
pub open spec fn is_plain_string(s: Seq<char>) -> bool {
    s.len() >= 2 && s[0] == '"' && s[s.len() - 1] == '"'
}

/// The first plain string among the tokens from `i` on ends in `suffix`.
pub open spec fn label_ends(ts: Seq<Token>, suffix: Seq<char>, i: int) -> bool
    decreases ts.len() - i,
{
    if i < 0 || i >= ts.len() {
        false
    } else {
        match ts[i] {
            Token::Literal(s) if is_plain_string(s@) => ends_with(
                s@.subrange(1, s@.len() - 1),
                suffix,
            ),
            _ => label_ends(ts, suffix, i + 1),
        }
    }
}

/// Whether the first plain string among the tokens ends in `suffix`.
pub fn macro_first_arg_string_ends_with(ts: &Vec<Token>, suffix: &str) -> (r: bool)
    ensures
        r == label_ends(ts@, suffix@, 0),
{
    let mut i: usize = 0;
    while i < ts.len()
        invariant
            i <= ts@.len(),
            label_ends(ts@, suffix@, 0) == label_ends(ts@, suffix@, i as int),
        decreases ts@.len() - i,
    {
        if let Token::Literal(text) = &ts[i] {
            let chars = chars_of(text.as_str());
            let s = chars.as_slice();
            let n: usize = s.len();
            if n >= 2 && s[0] == '"' && s[n - 1] == '"' {
                return ends_with_str(slice(s, 1, n - 1), suffix);
            }
        }
        i += 1;
    }
    false
}

// ---------- Methods ----------

/// The method `w` is called in the expression or in what it holds.
pub open spec fn method_in(e: Expression, w: Seq<char>) -> bool
    decreases e, 0nat,
{
    match e.kind {
        ExprKind::MethodCall { receiver, method, args } => {
            method@ == w || method_in(*receiver, w) || method_in_any(args@, args@.len(), w)
        },
        ExprKind::Block(body) => method_in_body(body, w),
        ExprKind::Closure(inner) => method_in(*inner, w),
        ExprKind::If { cond, body, otherwise } => {
            method_in(*cond, w) || method_in_body(body, w)
                || (match otherwise {
                Some(inner) => method_in(*inner, w),
                None => false,
            })
        },
        ExprKind::Match { expr, arms } => {
            method_in(*expr, w) || method_in_arms(arms@, arms@.len(), w)
        },
        ExprKind::While { cond, body } => method_in(*cond, w) || method_in_body(body, w),
        ExprKind::ForLoop { expr, body } => method_in(*expr, w) || method_in_body(body, w),
        ExprKind::Loop(body) => method_in_body(body, w),
        ExprKind::Call { func, args } => {
            method_in(*func, w) || method_in_any(args@, args@.len(), w)
        },
        ExprKind::Binary(left, right) => method_in(*left, w) || method_in(*right, w),
        ExprKind::Unary(inner) => method_in(*inner, w),
        ExprKind::Reference(inner) => method_in(*inner, w),
        ExprKind::Paren(inner) => method_in(*inner, w),
        ExprKind::Tuple(elems) => method_in_any(elems@, elems@.len(), w),
        ExprKind::Return(value) => match value {
            Some(inner) => method_in(*inner, w),
            None => false,
        },
        ExprKind::Try(inner) => method_in(*inner, w),
        ExprKind::Await(inner) => method_in(*inner, w),
        ExprKind::Let(inner) => method_in(*inner, w),
        ExprKind::Assign(left, right) => method_in(*left, w) || method_in(*right, w),
        _ => false,
    }
}

/// As `method_in`, for one of the first `n` expressions.
pub open spec fn method_in_any(es: Seq<Expression>, n: nat, w: Seq<char>) -> bool
    decreases es, n,
{
    if n == 0 || n > es.len() {
        false
    } else {
        method_in_any(es, (n - 1) as nat, w) || method_in(es[n - 1], w)
    }
}

/// As `method_in`, for the body of one of the first `n` arms.
pub open spec fn method_in_arms(arms: Seq<MatchArm>, n: nat, w: Seq<char>) -> bool
    decreases arms, n,
{
    if n == 0 || n > arms.len() {
        false
    } else {
        method_in_arms(arms, (n - 1) as nat, w) || method_in(*arms[n - 1].body, w)
    }
}

/// As `method_in`, for a statement of a block.
pub open spec fn method_in_body(b: Body, w: Seq<char>) -> bool
    decreases b, 0nat,
{
    method_in_stmts(b.stmts@, b.stmts@.len(), w)
}

/// As `method_in`, for one of the first `n` statements.
pub open spec fn method_in_stmts(ss: Seq<Statement>, n: nat, w: Seq<char>) -> bool
    decreases ss, n,
{
    if n == 0 || n > ss.len() {
        false
    } else {
        method_in_stmts(ss, (n - 1) as nat, w) || method_in_stmt(ss[n - 1], w)
    }
}

/// As `method_in`, for a statement.
pub open spec fn method_in_stmt(s: Statement, w: Seq<char>) -> bool
    decreases s, 0nat,
{
    match s.kind {
        StmtKind::Local { init: Some(init), .. } => method_in(*init, w),
        StmtKind::Expr { expr, .. } => method_in(*expr, w),
        _ => false,
    }
}

/// Whether the method `w` is called in the expression or in what it holds.
pub fn expr_mentions_method(e: &Expression, w: &str) -> (r: bool)
    ensures
        r == method_in(*e, w@),
    decreases *e, 0nat,
{
    match &e.kind {
        ExprKind::MethodCall { receiver, method, args } => {
            same_text(method.as_str(), w) || expr_mentions_method(receiver, w)
                || any_mentions_method(args, w)
        },
        ExprKind::Block(body) => block_mentions_method(body, w),
        ExprKind::Closure(inner) => expr_mentions_method(inner, w),
        ExprKind::If { cond, body, otherwise } => {
            expr_mentions_method(cond, w) || block_mentions_method(body, w)
                || (match otherwise {
                Some(inner) => expr_mentions_method(inner, w),
                None => false,
            })
        },
        ExprKind::Match { expr, arms } => {
            expr_mentions_method(expr, w) || arms_mention_method(arms, w)
        },
        ExprKind::While { cond, body } => {
            expr_mentions_method(cond, w) || block_mentions_method(body, w)
        },
        ExprKind::ForLoop { expr, body } => {
            expr_mentions_method(expr, w) || block_mentions_method(body, w)
        },
        ExprKind::Loop(body) => block_mentions_method(body, w),
        ExprKind::Call { func, args } => {
            expr_mentions_method(func, w) || any_mentions_method(args, w)
        },
        ExprKind::Binary(left, right) => {
            expr_mentions_method(left, w) || expr_mentions_method(right, w)
        },
        ExprKind::Unary(inner) => expr_mentions_method(inner, w),
        ExprKind::Reference(inner) => expr_mentions_method(inner, w),
        ExprKind::Paren(inner) => expr_mentions_method(inner, w),
        ExprKind::Tuple(elems) => any_mentions_method(elems, w),
        ExprKind::Return(value) => match value {
            Some(inner) => expr_mentions_method(inner, w),
            None => false,
        },
        ExprKind::Try(inner) => expr_mentions_method(inner, w),
        ExprKind::Await(inner) => expr_mentions_method(inner, w),
        ExprKind::Let(inner) => expr_mentions_method(inner, w),
        ExprKind::Assign(left, right) => {
            expr_mentions_method(left, w) || expr_mentions_method(right, w)
        },
        _ => false,
    }
}

fn any_mentions_method(v: &Vec<Expression>, w: &str) -> (r: bool)
    ensures
        r == method_in_any(v@, v@.len(), w@),
    decreases *v, v@.len() + 1,
{
    let mut i: usize = 0;
    let mut r = false;
    while i < v.len()
        invariant
            i <= v@.len(),
            r == method_in_any(v@, i as nat, w@),
        decreases v@.len() - i,
    {
        if expr_mentions_method(&v[i], w) {
            r = true;
        }
        i += 1;
    }
    r
}

fn arms_mention_method(v: &Vec<MatchArm>, w: &str) -> (r: bool)
    ensures
        r == method_in_arms(v@, v@.len(), w@),
    decreases *v, v@.len() + 1,
{
    let mut i: usize = 0;
    let mut r = false;
    while i < v.len()
        invariant
            i <= v@.len(),
            r == method_in_arms(v@, i as nat, w@),
        decreases v@.len() - i,
    {
        if expr_mentions_method(&v[i].body, w) {
            r = true;
        }
        i += 1;
    }
    r
}

fn block_mentions_method(b: &Body, w: &str) -> (r: bool)
    ensures
        r == method_in_body(*b, w@),
    decreases *b, 0nat,
{
    stmts_mention_method(&b.stmts, w)
}

fn stmts_mention_method(v: &Vec<Statement>, w: &str) -> (r: bool)
    ensures
        r == method_in_stmts(v@, v@.len(), w@),
    decreases *v, v@.len() + 1,
{
    let mut i: usize = 0;
    let mut r = false;
    while i < v.len()
        invariant
            i <= v@.len(),
            r == method_in_stmts(v@, i as nat, w@),
        decreases v@.len() - i,
    {
        if stmt_mentions_method(&v[i], w) {
            r = true;
        }
        i += 1;
    }
    r
}

fn stmt_mentions_method(s: &Statement, w: &str) -> (r: bool)
    ensures
        r == method_in_stmt(*s, w@),
    decreases *s, 0nat,
{
    match &s.kind {
        StmtKind::Local { init: Some(init), .. } => expr_mentions_method(init, w),
        StmtKind::Expr { expr, .. } => expr_mentions_method(expr, w),
        _ => false,
    }
}

// ---------- Macros in expressions ----------

/// The macro `w` is called in the expression or in what it holds.
pub open spec fn macro_in(e: Expression, w: Seq<char>) -> bool
    decreases e, 0nat,
{
    match e.kind {
        ExprKind::Macro(mac) => last_is(mac.path@, w),
        ExprKind::Block(body) => macro_in_body(body, w),
        ExprKind::Closure(inner) => macro_in(*inner, w),
        ExprKind::If { cond, body, otherwise } => {
            macro_in(*cond, w) || macro_in_body(body, w)
                || (match otherwise {
                Some(inner) => macro_in(*inner, w),
                None => false,
            })
        },
        ExprKind::Match { expr, arms } => {
            macro_in(*expr, w) || macro_in_arms(arms@, arms@.len(), w)
        },
        ExprKind::While { cond, body } => macro_in(*cond, w) || macro_in_body(body, w),
        ExprKind::ForLoop { expr, body } => macro_in(*expr, w) || macro_in_body(body, w),
        ExprKind::Loop(body) => macro_in_body(body, w),
        ExprKind::MethodCall { receiver, args, .. } => {
            macro_in(*receiver, w) || macro_in_any(args@, args@.len(), w)
        },
        ExprKind::Call { func, args } => macro_in(*func, w) || macro_in_any(args@, args@.len(), w),
        ExprKind::Reference(inner) => macro_in(*inner, w),
        ExprKind::Paren(inner) => macro_in(*inner, w),
        ExprKind::Await(inner) => macro_in(*inner, w),
        ExprKind::Try(inner) => macro_in(*inner, w),
        ExprKind::Return(value) => match value {
            Some(inner) => macro_in(*inner, w),
            None => false,
        },
        _ => false,
    }
}

/// As `macro_in`, for one of the first `n` expressions.
pub open spec fn macro_in_any(es: Seq<Expression>, n: nat, w: Seq<char>) -> bool
    decreases es, n,
{
    if n == 0 || n > es.len() {
        false
    } else {
        macro_in_any(es, (n - 1) as nat, w) || macro_in(es[n - 1], w)
    }
}

/// As `macro_in`, for the body of one of the first `n` arms.
pub open spec fn macro_in_arms(arms: Seq<MatchArm>, n: nat, w: Seq<char>) -> bool
    decreases arms, n,
{
    if n == 0 || n > arms.len() {
        false
    } else {
        macro_in_arms(arms, (n - 1) as nat, w) || macro_in(*arms[n - 1].body, w)
    }
}

/// As `macro_in`, for a statement of a block.
pub open spec fn macro_in_body(b: Body, w: Seq<char>) -> bool
    decreases b, 0nat,
{
    macro_in_stmts(b.stmts@, b.stmts@.len(), w)
}

/// As `macro_in`, for one of the first `n` statements.
pub open spec fn macro_in_stmts(ss: Seq<Statement>, n: nat, w: Seq<char>) -> bool
    decreases ss, n,
{
    if n == 0 || n > ss.len() {
        false
    } else {
        macro_in_stmts(ss, (n - 1) as nat, w) || macro_in_stmt(ss[n - 1], w)
    }
}

/// As `macro_in`, for a statement.
pub open spec fn macro_in_stmt(s: Statement, w: Seq<char>) -> bool
    decreases s, 0nat,
{
    match s.kind {
        StmtKind::Local { init: Some(init), .. } => macro_in(*init, w),
        StmtKind::Expr { expr, .. } => macro_in(*expr, w),
        StmtKind::Macro(mac) => last_is(mac.path@, w),
        _ => false,
    }
}

/// Whether the macro `w` is called in the expression or in what it holds.
pub fn expr_mentions_macro(e: &Expression, w: &str) -> (r: bool)
    ensures
        r == macro_in(*e, w@),
    decreases *e, 0nat,
{
    match &e.kind {
        ExprKind::Macro(mac) => macro_path_ident_is(&mac.path, w),
        ExprKind::Block(body) => block_mentions_macro(body, w),
        ExprKind::Closure(inner) => expr_mentions_macro(inner, w),
        ExprKind::If { cond, body, otherwise } => {
            expr_mentions_macro(cond, w) || block_mentions_macro(body, w)
                || (match otherwise {
                Some(inner) => expr_mentions_macro(inner, w),
                None => false,
            })
        },
        ExprKind::Match { expr, arms } => {
            expr_mentions_macro(expr, w) || arms_mention_macro(arms, w)
        },
        ExprKind::While { cond, body } => {
            expr_mentions_macro(cond, w) || block_mentions_macro(body, w)
        },
        ExprKind::ForLoop { expr, body } => {
            expr_mentions_macro(expr, w) || block_mentions_macro(body, w)
        },
        ExprKind::Loop(body) => block_mentions_macro(body, w),
        ExprKind::MethodCall { receiver, args, .. } => {
            expr_mentions_macro(receiver, w) || any_mentions_macro(args, w)
        },
        ExprKind::Call { func, args } => {
            expr_mentions_macro(func, w) || any_mentions_macro(args, w)
        },
        ExprKind::Reference(inner) => expr_mentions_macro(inner, w),
        ExprKind::Paren(inner) => expr_mentions_macro(inner, w),
        ExprKind::Await(inner) => expr_mentions_macro(inner, w),
        ExprKind::Try(inner) => expr_mentions_macro(inner, w),
        ExprKind::Return(value) => match value {
            Some(inner) => expr_mentions_macro(inner, w),
            None => false,
        },
        _ => false,
    }
}

fn any_mentions_macro(v: &Vec<Expression>, w: &str) -> (r: bool)
    ensures
        r == macro_in_any(v@, v@.len(), w@),
    decreases *v, v@.len() + 1,
{
    let mut i: usize = 0;
    let mut r = false;
    while i < v.len()
        invariant
            i <= v@.len(),
            r == macro_in_any(v@, i as nat, w@),
        decreases v@.len() - i,
    {
        if expr_mentions_macro(&v[i], w) {
            r = true;
        }
        i += 1;
    }
    r
}

fn arms_mention_macro(v: &Vec<MatchArm>, w: &str) -> (r: bool)
    ensures
        r == macro_in_arms(v@, v@.len(), w@),
    decreases *v, v@.len() + 1,
{
    let mut i: usize = 0;
    let mut r = false;
    while i < v.len()
        invariant
            i <= v@.len(),
            r == macro_in_arms(v@, i as nat, w@),
        decreases v@.len() - i,
    {
        if expr_mentions_macro(&v[i].body, w) {
            r = true;
        }
        i += 1;
    }
    r
}

fn block_mentions_macro(b: &Body, w: &str) -> (r: bool)
    ensures
        r == macro_in_body(*b, w@),
    decreases *b, 0nat,
{
    stmts_mention_macro(&b.stmts, w)
}

fn stmts_mention_macro(v: &Vec<Statement>, w: &str) -> (r: bool)
    ensures
        r == macro_in_stmts(v@, v@.len(), w@),
    decreases *v, v@.len() + 1,
{
    let mut i: usize = 0;
    let mut r = false;
    while i < v.len()
        invariant
            i <= v@.len(),
            r == macro_in_stmts(v@, i as nat, w@),
        decreases v@.len() - i,
    {
        if stmt_mentions_macro(&v[i], w) {
            r = true;
        }
        i += 1;
    }
    r
}

fn stmt_mentions_macro(s: &Statement, w: &str) -> (r: bool)
    ensures
        r == macro_in_stmt(*s, w@),
    decreases *s, 0nat,
{
    match &s.kind {
        StmtKind::Local { init: Some(init), .. } => expr_mentions_macro(init, w),
        StmtKind::Expr { expr, .. } => expr_mentions_macro(expr, w),
        StmtKind::Macro(mac) => macro_path_ident_is(&mac.path, w),
        _ => false,
    }
}

} // verus!
