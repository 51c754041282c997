//! What the rules for Rust find, wherever in a function it stands.

use vstd::prelude::*;

use crate::instrument::detect::{
    arms_edits, body_edits, call_edits, exprs_edits, expr_edits, inner_edits, opt_edits, own_edits,
    records_state, stmts_edits, CtxView,
};
use crate::instrument::mentions::calls_macro;
use crate::instrument::syntax::{
    Body, ExprKind, Expression, MatchArm, Statement, StmtKind,
};
use crate::instrument::CandidateView;

verus! {

// ---------- What runs with an expression ----------

/// `part` is an expression that `e` evaluates when it is evaluated, directly: a branch, an operand,
/// an argument, the guard or the body of an arm. What a closure holds runs at another time.
pub open spec fn runs_with(part: Expression, e: Expression) -> bool {
    match e.kind {
        ExprKind::If { cond, body, otherwise } => part == *cond || (otherwise matches Some(other)
            && part == *other),
        ExprKind::Match { expr, arms } => part == *expr || exists|i: int|
            0 <= i < arms@.len() && (part == *(#[trigger] arms@[i]).body || (
            arms@[i].guard matches Some(guard) && part == *guard)),
        ExprKind::While { cond, body } => part == *cond,
        ExprKind::ForLoop { expr, body } => part == *expr,
        ExprKind::Return(value) => value matches Some(inner) && part == *inner,
        ExprKind::Try(inner) => part == *inner,
        ExprKind::Await(inner) => part == *inner,
        ExprKind::Unary(inner) => part == *inner,
        ExprKind::Let(inner) => part == *inner,
        ExprKind::Reference(inner) => part == *inner,
        ExprKind::Paren(inner) => part == *inner,
        ExprKind::Binary(left, right) => part == *left || part == *right,
        ExprKind::MethodCall { receiver, method, args } => part == *receiver || args@.contains(
            part,
        ),
        ExprKind::Call { func, args } => part == *func || args@.contains(part),
        ExprKind::Tuple(elems) => elems@.contains(part),
        ExprKind::Array(elems) => elems@.contains(part),
        _ => false,
    }
}

/// The block that runs with an expression.
pub open spec fn block_with(e: Expression) -> Option<Body> {
    match e.kind {
        ExprKind::Block(body) => Some(body),
        ExprKind::If { cond, body, otherwise } => Some(body),
        ExprKind::While { cond, body } => Some(body),
        ExprKind::ForLoop { expr, body } => Some(body),
        ExprKind::Loop(body) => Some(body),
        ExprKind::Unsafe(body) => Some(body),
        _ => None,
    }
}

/// The expression that a statement evaluates.
pub open spec fn expr_with(s: Statement) -> Option<Expression> {
    match s.kind {
        StmtKind::Local { pat, init } => match init {
            Some(init) => Some(*init),
            None => None,
        },
        StmtKind::Expr { expr, semi } => Some(*expr),
        _ => None,
    }
}

proof fn lemma_left<A>(x: Seq<A>, y: Seq<A>, c: A)
    requires
        x.contains(c),
    ensures
        (x + y).contains(c),
{
    let i = choose|i: int| 0 <= i < x.len() && x[i] == c;
    assert((x + y)[i] == c);
}

proof fn lemma_right<A>(x: Seq<A>, y: Seq<A>, c: A)
    requires
        y.contains(c),
    ensures
        (x + y).contains(c),
{
    let i = choose|i: int| 0 <= i < y.len() && y[i] == c;
    assert((x + y)[x.len() + i] == c);
}

proof fn lemma_either<A>(x: Seq<A>, y: Seq<A>, c: A)
    requires
        (x + y).contains(c),
    ensures
        x.contains(c) || y.contains(c),
{
    let i = choose|i: int| 0 <= i < (x + y).len() && (x + y)[i] == c;
    if i < x.len() {
        assert(x[i] == c);
    } else {
        assert(y[i - x.len()] == c);
    }
}

proof fn lemma_in_exprs(
    es: Seq<Expression>,
    n: nat,
    part: Expression,
    ctx: CtxView,
    traced: bool,
    c: CandidateView,
    k: int,
)
    requires
        0 <= k < n <= es.len(),
        es[k] == part,
        expr_edits(part, ctx, traced).contains(c),
    ensures
        exprs_edits(es, n, ctx, traced).contains(c),
    decreases n,
{
    let before = exprs_edits(es, (n - 1) as nat, ctx, traced);
    let own = expr_edits(es[n - 1], ctx, traced);
    if k < n - 1 {
        lemma_in_exprs(es, (n - 1) as nat, part, ctx, traced, c, k);
        lemma_left(before, own, c);
    } else {
        lemma_right(before, own, c);
    }
}

proof fn lemma_in_arms(
    arms: Seq<MatchArm>,
    n: nat,
    part: Expression,
    ctx: CtxView,
    traced: bool,
    c: CandidateView,
    k: int,
)
    requires
        0 <= k < n <= arms.len(),
        part == *arms[k].body || (arms[k].guard matches Some(guard) && part == *guard),
        expr_edits(part, ctx, traced).contains(c),
    ensures
        arms_edits(arms, n, ctx, traced).contains(c),
    decreases n,
{
    let before = arms_edits(arms, (n - 1) as nat, ctx, traced);
    let guard = opt_edits(arms[n - 1].guard, ctx, traced);
    let body = expr_edits(*arms[n - 1].body, ctx, traced);
    if k < n - 1 {
        lemma_in_arms(arms, (n - 1) as nat, part, ctx, traced, c, k);
        lemma_left(before, guard + body, c);
    } else {
        if part == *arms[k].body {
            lemma_right(guard, body, c);
        } else {
            lemma_left(guard, body, c);
        }
        lemma_right(before, guard + body, c);
    }
}

/// Whatever is asked for in a part that runs with an expression is asked for in the expression.
pub proof fn law_parts_are_scanned(
    part: Expression,
    e: Expression,
    ctx: CtxView,
    traced: bool,
    c: CandidateView,
)
    requires
        runs_with(part, e),
        expr_edits(part, ctx, traced).contains(c),
    ensures
        expr_edits(e, ctx, traced).contains(c),
{
    match e.kind {
        ExprKind::If { cond, body, otherwise } => {
            let x = expr_edits(*cond, ctx, traced);
            let y = body_edits(body, ctx, traced);
            let z = opt_edits(otherwise, ctx, traced);
            if part == *cond {
                lemma_left(x, y, c);
                lemma_left(x + y, z, c);
            } else {
                lemma_right(x + y, z, c);
            }
        },
        ExprKind::Match { expr, arms } => {
            let x = expr_edits(*expr, ctx, traced);
            let y = arms_edits(arms@, arms@.len(), ctx, traced);
            if part == *expr {
                lemma_left(x, y, c);
            } else {
                let i = choose|i: int|
                    0 <= i < arms@.len() && (part == *(#[trigger] arms@[i]).body || (
                    arms@[i].guard matches Some(guard) && part == *guard));
                lemma_in_arms(arms@, arms@.len(), part, ctx, traced, c, i);
                lemma_right(x, y, c);
            }
        },
        ExprKind::While { cond, body } => {
            lemma_left(expr_edits(*cond, ctx, traced), body_edits(body, ctx, traced), c);
        },
        ExprKind::ForLoop { expr, body } => {
            lemma_left(expr_edits(*expr, ctx, traced), body_edits(body, ctx, traced), c);
        },
        ExprKind::Binary(left, right) => {
            let x = expr_edits(*left, ctx, traced);
            let y = expr_edits(*right, ctx, traced);
            if part == *left {
                lemma_left(x, y, c);
            } else {
                lemma_right(x, y, c);
            }
        },
        ExprKind::MethodCall { receiver, method, args } => {
            let x = expr_edits(*receiver, ctx, traced);
            let y = exprs_edits(args@, args@.len(), ctx, traced);
            if part == *receiver {
                lemma_left(x, y, c);
            } else {
                let i = choose|i: int| 0 <= i < args@.len() && args@[i] == part;
                lemma_in_exprs(args@, args@.len(), part, ctx, traced, c, i);
                lemma_right(x, y, c);
            }
        },
        ExprKind::Call { func, args } => {
            let own = call_edits(*func, args@, e.span, ctx);
            let x = expr_edits(*func, ctx, traced);
            let y = exprs_edits(args@, args@.len(), ctx, traced);
            if part == *func {
                lemma_right(own, x, c);
                lemma_left(own + x, y, c);
            } else {
                let i = choose|i: int| 0 <= i < args@.len() && args@[i] == part;
                lemma_in_exprs(args@, args@.len(), part, ctx, traced, c, i);
                lemma_right(own + x, y, c);
            }
        },
        ExprKind::Tuple(elems) => {
            let i = choose|i: int| 0 <= i < elems@.len() && elems@[i] == part;
            lemma_in_exprs(elems@, elems@.len(), part, ctx, traced, c, i);
        },
        ExprKind::Array(elems) => {
            let i = choose|i: int| 0 <= i < elems@.len() && elems@[i] == part;
            lemma_in_exprs(elems@, elems@.len(), part, ctx, traced, c, i);
        },
        ExprKind::Return(value) => {
            assert(opt_edits(value, ctx, traced) == expr_edits(part, ctx, traced));
        },
        _ => {},
    }
}

/// Whatever is asked for in a block that runs with an expression is asked for in the expression.
pub proof fn law_blocks_are_scanned(
    b: Body,
    e: Expression,
    ctx: CtxView,
    traced: bool,
    c: CandidateView,
)
    requires
        block_with(e) == Some(b),
        body_edits(b, ctx, traced).contains(c),
    ensures
        expr_edits(e, ctx, traced).contains(c),
{
    match e.kind {
        ExprKind::If { cond, body, otherwise } => {
            let x = expr_edits(*cond, ctx, traced);
            let y = body_edits(body, ctx, traced);
            lemma_right(x, y, c);
            lemma_left(x + y, opt_edits(otherwise, ctx, traced), c);
        },
        ExprKind::While { cond, body } => {
            lemma_right(expr_edits(*cond, ctx, traced), body_edits(body, ctx, traced), c);
        },
        ExprKind::ForLoop { expr, body } => {
            lemma_right(expr_edits(*expr, ctx, traced), body_edits(body, ctx, traced), c);
        },
        _ => {},
    }
}

/// State was recorded before statement `i` of a block, or by it: before the block, or by a
/// `trace_state!` among its statements.
pub open spec fn state_recorded(ss: Seq<Statement>, i: int, traced: bool) -> bool {
    traced || exists|k: int| 0 <= k <= i && k < ss.len() && #[trigger] is_state_macro(ss[k])
}

/// The statement is a call of `trace_state!`.
pub open spec fn is_state_macro(s: Statement) -> bool {
    (s.kind matches StmtKind::Macro(mac) && mac.path@.len() > 0 && mac.path@.last()@
        == "trace_state"@) || (s.kind is Expr && s.kind->Expr_expr.kind is Macro
        && s.kind->Expr_expr.kind->Macro_0.path@.len() > 0
        && s.kind->Expr_expr.kind->Macro_0.path@.last()@ == "trace_state"@)
}

proof fn lemma_records(ss: Seq<Statement>, n: nat)
    requires
        n <= ss.len(),
    ensures
        records_state(ss, n) == exists|k: int| 0 <= k < n && #[trigger] is_state_macro(ss[k]),
    decreases n,
{
    if n > 0 {
        let m = (n - 1) as nat;
        lemma_records(ss, m);
        assert(calls_macro(ss[n - 1], "trace_state"@) == is_state_macro(ss[n - 1]));
        if records_state(ss, m) {
            let k = choose|k: int| 0 <= k < m && #[trigger] is_state_macro(ss[k]);
            assert(is_state_macro(ss[k]));
        }
    }
}

proof fn lemma_in_stmts(
    ss: Seq<Statement>,
    n: nat,
    i: int,
    ctx: CtxView,
    traced: bool,
    c: CandidateView,
)
    requires
        0 <= i < n <= ss.len(),
        own_edits(ss, i, ctx, state_recorded(ss, i, traced)).contains(c) || inner_edits(
            ss[i],
            ctx,
            state_recorded(ss, i, traced),
        ).contains(c),
    ensures
        stmts_edits(ss, n, ctx, traced).contains(c),
    decreases n,
{
    let now = traced || records_state(ss, n);
    let before = stmts_edits(ss, (n - 1) as nat, ctx, traced);
    let own = own_edits(ss, n - 1, ctx, now);
    let inner = inner_edits(ss[n - 1], ctx, now);
    if i < n - 1 {
        lemma_in_stmts(ss, (n - 1) as nat, i, ctx, traced, c);
        lemma_left(before, own + inner, c);
    } else {
        lemma_records(ss, n);
        if records_state(ss, n) {
            let k = choose|k: int| 0 <= k < n && #[trigger] is_state_macro(ss[k]);
            assert(0 <= k <= i && is_state_macro(ss[k]));
        }
        assert(now == state_recorded(ss, i, traced));
        if own.contains(c) {
            lemma_left(own, inner, c);
        } else {
            lemma_right(own, inner, c);
        }
        lemma_right(before, own + inner, c);
    }
}

/// Whatever is asked for at a statement, or in the expression that it evaluates, is asked for in
/// its block. State that was recorded before, or in the block up to there, counts.
pub proof fn law_statements_are_scanned(
    b: Body,
    i: int,
    ctx: CtxView,
    traced: bool,
    c: CandidateView,
)
    requires
        0 <= i < b.stmts@.len(),
        own_edits(b.stmts@, i, ctx, state_recorded(b.stmts@, i, traced)).contains(c) || (expr_with(
            b.stmts@[i],
        ) matches Some(e) && expr_edits(
            e,
            ctx,
            state_recorded(b.stmts@, i, traced),
        ).contains(c)),
    ensures
        body_edits(b, ctx, traced).contains(c),
{
    lemma_in_stmts(b.stmts@, b.stmts@.len(), i, ctx, traced, c);
}

// ---------- Wherever it stands ----------

/// The expression `x` runs with `e`, at most `n` deep.
pub open spec fn runs_in_expr(x: Expression, e: Expression, n: nat) -> bool
    decreases n, 0nat,
{
    x == e || (n > 0 && ((exists|part: Expression|
        #[trigger] runs_with(part, e) && runs_in_expr(x, part, (n - 1) as nat)) || (block_with(
        e,
    ) matches Some(b) && runs_in_block(x, b, (n - 1) as nat))))
}

/// The expression `x` runs with the block `b`, at most `n` deep.
pub open spec fn runs_in_block(x: Expression, b: Body, n: nat) -> bool
    decreases n, 1nat,
{
    exists|i: int|
        0 <= i < b.stmts@.len() && (expr_with(#[trigger] b.stmts@[i]) matches Some(e)
            && runs_in_expr(x, e, n))
}

proof fn lemma_call_in_expr(
    x: Expression,
    e: Expression,
    n: nat,
    ctx: CtxView,
    traced: bool,
    c: CandidateView,
)
    requires
        runs_in_expr(x, e, n),
        x.kind is Call,
        call_edits(*x.kind->Call_func, x.kind->Call_args@, x.span, ctx).contains(c),
    ensures
        expr_edits(e, ctx, traced).contains(c),
    decreases n, 0nat,
{
    if x == e {
        if let ExprKind::Call { func, args } = x.kind {
            let own = call_edits(*func, args@, x.span, ctx);
            let f = expr_edits(*func, ctx, traced);
            let y = exprs_edits(args@, args@.len(), ctx, traced);
            lemma_left(own, f, c);
            lemma_left(own + f, y, c);
        }
    } else {
        let m = (n - 1) as nat;
        if exists|part: Expression|
            #[trigger] runs_with(part, e) && runs_in_expr(x, part, m) {
            let part = choose|part: Expression|
                #[trigger] runs_with(part, e) && runs_in_expr(x, part, m);
            lemma_call_in_expr(x, part, m, ctx, traced, c);
            law_parts_are_scanned(part, e, ctx, traced, c);
        } else {
            let b = block_with(e)->0;
            law_calls_are_found_anywhere(x, b, m, ctx, traced, c);
            law_blocks_are_scanned(b, e, ctx, traced, c);
        }
    }
}

/// Whatever is asked for at a call is asked for in each block that the call runs with, however deep
/// it stands: in loops, in either branch, in arms and their guards, in arguments and operands.
pub proof fn law_calls_are_found_anywhere(
    x: Expression,
    b: Body,
    n: nat,
    ctx: CtxView,
    traced: bool,
    c: CandidateView,
)
    requires
        runs_in_block(x, b, n),
        x.kind is Call,
        call_edits(*x.kind->Call_func, x.kind->Call_args@, x.span, ctx).contains(c),
    ensures
        body_edits(b, ctx, traced).contains(c),
    decreases n, 1nat,
{
    let i = choose|i: int|
        0 <= i < b.stmts@.len() && (expr_with(#[trigger] b.stmts@[i]) matches Some(e)
            && runs_in_expr(x, e, n));
    let e = expr_with(b.stmts@[i])->0;
    lemma_call_in_expr(x, e, n, ctx, state_recorded(b.stmts@, i, traced), c);
    law_statements_are_scanned(b, i, ctx, traced, c);
}

/// The block `d` runs with `e`, at most `n` deep, where `now` says whether state was recorded before
/// it and `traced` whether it was before `e`.
pub open spec fn block_in_expr(d: Body, now: bool, e: Expression, traced: bool, n: nat) -> bool
    decreases n, 0nat,
{
    (block_with(e) == Some(d) && now == traced) || (n > 0 && ((exists|part: Expression|
        #[trigger] runs_with(part, e) && block_in_expr(d, now, part, traced, (n - 1) as nat)) || (
    block_with(e) matches Some(b) && block_in_block(d, now, b, traced, (n - 1) as nat))))
}

/// The block `d` stands in the block `b`, at most `n` deep.
pub open spec fn block_in_block(d: Body, now: bool, b: Body, traced: bool, n: nat) -> bool
    decreases n, 1nat,
{
    (d == b && now == traced) || exists|i: int|
        0 <= i < b.stmts@.len() && (expr_with(#[trigger] b.stmts@[i]) matches Some(e)
            && block_in_expr(d, now, e, state_recorded(b.stmts@, i, traced), n))
}

proof fn lemma_block_in_expr(
    d: Body,
    now: bool,
    e: Expression,
    traced: bool,
    n: nat,
    ctx: CtxView,
    c: CandidateView,
)
    requires
        block_in_expr(d, now, e, traced, n),
        body_edits(d, ctx, now).contains(c),
    ensures
        expr_edits(e, ctx, traced).contains(c),
    decreases n, 0nat,
{
    if block_with(e) == Some(d) && now == traced {
        law_blocks_are_scanned(d, e, ctx, traced, c);
    } else {
        let m = (n - 1) as nat;
        if exists|part: Expression|
            #[trigger] runs_with(part, e) && block_in_expr(d, now, part, traced, m) {
            let part = choose|part: Expression|
                #[trigger] runs_with(part, e) && block_in_expr(d, now, part, traced, m);
            lemma_block_in_expr(d, now, part, traced, m, ctx, c);
            law_parts_are_scanned(part, e, ctx, traced, c);
        } else {
            let b = block_with(e)->0;
            lemma_block_in_block(d, now, b, traced, m, ctx, c);
            law_blocks_are_scanned(b, e, ctx, traced, c);
        }
    }
}

proof fn lemma_block_in_block(
    d: Body,
    now: bool,
    b: Body,
    traced: bool,
    n: nat,
    ctx: CtxView,
    c: CandidateView,
)
    requires
        block_in_block(d, now, b, traced, n),
        body_edits(d, ctx, now).contains(c),
    ensures
        body_edits(b, ctx, traced).contains(c),
    decreases n, 1nat,
{
    if d == b && now == traced {
    } else {
        let i = choose|i: int|
            0 <= i < b.stmts@.len() && (expr_with(#[trigger] b.stmts@[i]) matches Some(e)
                && block_in_expr(d, now, e, state_recorded(b.stmts@, i, traced), n));
        let e = expr_with(b.stmts@[i])->0;
        lemma_block_in_expr(d, now, e, state_recorded(b.stmts@, i, traced), n, ctx, c);
        law_statements_are_scanned(b, i, ctx, traced, c);
    }
}

/// Whatever is asked for at a statement of a block is asked for in each block that it runs with,
/// however deep it stands. State that was recorded before, in any block around it, counts.
pub proof fn law_statements_are_found_anywhere(
    d: Body,
    i: int,
    now: bool,
    b: Body,
    traced: bool,
    n: nat,
    ctx: CtxView,
    c: CandidateView,
)
    requires
        block_in_block(d, now, b, traced, n),
        0 <= i < d.stmts@.len(),
        own_edits(d.stmts@, i, ctx, state_recorded(d.stmts@, i, now)).contains(c),
    ensures
        body_edits(b, ctx, traced).contains(c),
{
    law_statements_are_scanned(d, i, ctx, now, c);
    lemma_block_in_block(d, now, b, traced, n, ctx, c);
}

// ---------- Nowhere else ----------

proof fn lemma_from_exprs(
    es: Seq<Expression>,
    n: nat,
    ctx: CtxView,
    traced: bool,
    c: CandidateView,
) -> (k: int)
    requires
        n <= es.len(),
        exprs_edits(es, n, ctx, traced).contains(c),
    ensures
        0 <= k < n,
        expr_edits(es[k], ctx, traced).contains(c),
    decreases n,
{
    let before = exprs_edits(es, (n - 1) as nat, ctx, traced);
    let own = expr_edits(es[n - 1], ctx, traced);
    lemma_either(before, own, c);
    if own.contains(c) {
        n - 1
    } else {
        lemma_from_exprs(es, (n - 1) as nat, ctx, traced, c)
    }
}

proof fn lemma_from_arms(
    arms: Seq<MatchArm>,
    n: nat,
    ctx: CtxView,
    traced: bool,
    c: CandidateView,
) -> (r: (int, Expression))
    requires
        n <= arms.len(),
        arms_edits(arms, n, ctx, traced).contains(c),
    ensures
        0 <= r.0 < n,
        r.1 == *arms[r.0].body || (arms[r.0].guard matches Some(guard) && r.1 == *guard),
        expr_edits(r.1, ctx, traced).contains(c),
    decreases n,
{
    let before = arms_edits(arms, (n - 1) as nat, ctx, traced);
    let guard = opt_edits(arms[n - 1].guard, ctx, traced);
    let body = expr_edits(*arms[n - 1].body, ctx, traced);
    lemma_either(before, guard + body, c);
    if before.contains(c) {
        lemma_from_arms(arms, (n - 1) as nat, ctx, traced, c)
    } else {
        lemma_either(guard, body, c);
        if body.contains(c) {
            (n - 1, *arms[n - 1].body)
        } else {
            (n - 1, *arms[n - 1].guard->0)
        }
    }
}

/// What is asked for in an expression is asked for at it as a call, or in a part or the block that
/// runs with it. So nothing is asked for in closures, nor in macros.
pub proof fn law_edits_come_from_parts(
    e: Expression,
    ctx: CtxView,
    traced: bool,
    c: CandidateView,
) -> (part: Option<Expression>)
    requires
        expr_edits(e, ctx, traced).contains(c),
    ensures
        match part {
            Some(p) => runs_with(p, e) && expr_edits(p, ctx, traced).contains(c),
            None => (block_with(e) matches Some(b) && body_edits(b, ctx, traced).contains(c)) || (
            e.kind is Call && call_edits(
                *e.kind->Call_func,
                e.kind->Call_args@,
                e.span,
                ctx,
            ).contains(c)),
        },
{
    match e.kind {
        ExprKind::If { cond, body, otherwise } => {
            let x = expr_edits(*cond, ctx, traced);
            let y = body_edits(body, ctx, traced);
            let z = opt_edits(otherwise, ctx, traced);
            lemma_either(x + y, z, c);
            if z.contains(c) {
                Some(*otherwise->0)
            } else {
                lemma_either(x, y, c);
                if x.contains(c) {
                    Some(*cond)
                } else {
                    None
                }
            }
        },
        ExprKind::Match { expr, arms } => {
            let x = expr_edits(*expr, ctx, traced);
            lemma_either(x, arms_edits(arms@, arms@.len(), ctx, traced), c);
            if x.contains(c) {
                Some(*expr)
            } else {
                let (k, p) = lemma_from_arms(arms@, arms@.len(), ctx, traced, c);
                assert(p == *arms@[k].body || (arms@[k].guard matches Some(guard) && p == *guard));
                Some(p)
            }
        },
        ExprKind::While { cond, body } => {
            let x = expr_edits(*cond, ctx, traced);
            lemma_either(x, body_edits(body, ctx, traced), c);
            if x.contains(c) {
                Some(*cond)
            } else {
                None
            }
        },
        ExprKind::ForLoop { expr, body } => {
            let x = expr_edits(*expr, ctx, traced);
            lemma_either(x, body_edits(body, ctx, traced), c);
            if x.contains(c) {
                Some(*expr)
            } else {
                None
            }
        },
        ExprKind::Return(value) => {
            assert(opt_edits(value, ctx, traced).contains(c));
            Some(*value->0)
        },
        ExprKind::Try(inner) => Some(*inner),
        ExprKind::Await(inner) => Some(*inner),
        ExprKind::Unary(inner) => Some(*inner),
        ExprKind::Let(inner) => Some(*inner),
        ExprKind::Reference(inner) => Some(*inner),
        ExprKind::Paren(inner) => Some(*inner),
        ExprKind::Binary(left, right) => {
            let x = expr_edits(*left, ctx, traced);
            lemma_either(x, expr_edits(*right, ctx, traced), c);
            if x.contains(c) {
                Some(*left)
            } else {
                Some(*right)
            }
        },
        ExprKind::MethodCall { receiver, method, args } => {
            let x = expr_edits(*receiver, ctx, traced);
            lemma_either(x, exprs_edits(args@, args@.len(), ctx, traced), c);
            if x.contains(c) {
                Some(*receiver)
            } else {
                let k = lemma_from_exprs(args@, args@.len(), ctx, traced, c);
                Some(args@[k])
            }
        },
        ExprKind::Call { func, args } => {
            let own = call_edits(*func, args@, e.span, ctx);
            let x = expr_edits(*func, ctx, traced);
            let y = exprs_edits(args@, args@.len(), ctx, traced);
            lemma_either(own + x, y, c);
            if y.contains(c) {
                let k = lemma_from_exprs(args@, args@.len(), ctx, traced, c);
                Some(args@[k])
            } else {
                lemma_either(own, x, c);
                if own.contains(c) {
                    None
                } else {
                    Some(*func)
                }
            }
        },
        ExprKind::Tuple(elems) => {
            let k = lemma_from_exprs(elems@, elems@.len(), ctx, traced, c);
            Some(elems@[k])
        },
        ExprKind::Array(elems) => {
            let k = lemma_from_exprs(elems@, elems@.len(), ctx, traced, c);
            Some(elems@[k])
        },
        _ => None,
    }
}

proof fn lemma_from_stmts(
    ss: Seq<Statement>,
    n: nat,
    ctx: CtxView,
    traced: bool,
    c: CandidateView,
) -> (i: int)
    requires
        n <= ss.len(),
        stmts_edits(ss, n, ctx, traced).contains(c),
    ensures
        0 <= i < n,
        own_edits(ss, i, ctx, state_recorded(ss, i, traced)).contains(c) || inner_edits(
            ss[i],
            ctx,
            state_recorded(ss, i, traced),
        ).contains(c),
    decreases n,
{
    let now = traced || records_state(ss, n);
    let before = stmts_edits(ss, (n - 1) as nat, ctx, traced);
    let own = own_edits(ss, n - 1, ctx, now);
    let inner = inner_edits(ss[n - 1], ctx, now);
    lemma_either(before, own + inner, c);
    if before.contains(c) {
        lemma_from_stmts(ss, (n - 1) as nat, ctx, traced, c)
    } else {
        lemma_records(ss, n);
        if records_state(ss, n) {
            let k = choose|k: int| 0 <= k < n && #[trigger] is_state_macro(ss[k]);
            assert(0 <= k <= n - 1 && is_state_macro(ss[k]));
        }
        lemma_either(own, inner, c);
        n - 1
    }
}

/// What is asked for in a block is asked for at one of its statements, or in the expression that it
/// evaluates.
pub proof fn law_edits_come_from_statements(
    b: Body,
    ctx: CtxView,
    traced: bool,
    c: CandidateView,
) -> (i: int)
    requires
        body_edits(b, ctx, traced).contains(c),
    ensures
        0 <= i < b.stmts@.len(),
        own_edits(b.stmts@, i, ctx, state_recorded(b.stmts@, i, traced)).contains(c) || (expr_with(
            b.stmts@[i],
        ) matches Some(e) && expr_edits(
            e,
            ctx,
            state_recorded(b.stmts@, i, traced),
        ).contains(c)),
{
    lemma_from_stmts(b.stmts@, b.stmts@.len(), ctx, traced, c)
}

// ---------- Each once ----------

/// What is asked for in an expression is asked for once: a branch, a loop or a call asks for as much
/// as its parts and its block together, and a call for what is asked for at it besides.
pub proof fn law_parts_are_scanned_once(e: Expression, ctx: CtxView, traced: bool)
    ensures
        match e.kind {
            ExprKind::If { cond, body, otherwise } => expr_edits(e, ctx, traced).len() == expr_edits(
                *cond,
                ctx,
                traced,
            ).len() + body_edits(body, ctx, traced).len() + (match otherwise {
                Some(other) => expr_edits(*other, ctx, traced).len(),
                None => 0,
            }),
            ExprKind::While { cond, body } => expr_edits(e, ctx, traced).len() == expr_edits(
                *cond,
                ctx,
                traced,
            ).len() + body_edits(body, ctx, traced).len(),
            ExprKind::ForLoop { expr, body } => expr_edits(e, ctx, traced).len() == expr_edits(
                *expr,
                ctx,
                traced,
            ).len() + body_edits(body, ctx, traced).len(),
            ExprKind::Binary(left, right) => expr_edits(e, ctx, traced).len() == expr_edits(
                *left,
                ctx,
                traced,
            ).len() + expr_edits(*right, ctx, traced).len(),
            ExprKind::Block(body) => expr_edits(e, ctx, traced) == body_edits(body, ctx, traced),
            ExprKind::Loop(body) => expr_edits(e, ctx, traced) == body_edits(body, ctx, traced),
            ExprKind::Unsafe(body) => expr_edits(e, ctx, traced) == body_edits(body, ctx, traced),
            ExprKind::Try(inner) => expr_edits(e, ctx, traced) == expr_edits(*inner, ctx, traced),
            ExprKind::Await(inner) => expr_edits(e, ctx, traced) == expr_edits(*inner, ctx, traced),
            ExprKind::Paren(inner) => expr_edits(e, ctx, traced) == expr_edits(*inner, ctx, traced),
            ExprKind::Unary(inner) => expr_edits(e, ctx, traced) == expr_edits(*inner, ctx, traced),
            ExprKind::Let(inner) => expr_edits(e, ctx, traced) == expr_edits(*inner, ctx, traced),
            ExprKind::Reference(inner) => expr_edits(e, ctx, traced) == expr_edits(
                *inner,
                ctx,
                traced,
            ),
            ExprKind::Closure(_) | ExprKind::Macro(_) | ExprKind::Path { .. } => expr_edits(
                e,
                ctx,
                traced,
            ).len() == 0,
            _ => true,
        },
{
    if let ExprKind::If { cond, body, otherwise } = e.kind {
        assert(opt_edits(otherwise, ctx, traced).len() == match otherwise {
            Some(other) => expr_edits(*other, ctx, traced).len(),
            None => 0,
        });
    }
}

/// What a call asks for with one argument more is what it asked for without it, and what is asked
/// for in that argument.
pub proof fn law_arguments_are_scanned_once(
    es: Seq<Expression>,
    n: nat,
    ctx: CtxView,
    traced: bool,
)
    requires
        n < es.len(),
    ensures
        exprs_edits(es, 0, ctx, traced).len() == 0,
        exprs_edits(es, n + 1, ctx, traced) == exprs_edits(es, n, ctx, traced) + expr_edits(
            es[n as int],
            ctx,
            traced,
        ),
{
}

} // verus!
