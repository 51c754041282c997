//! What the rules for Rust leave alone: functions that are not traced, and what
//! a rule itself put there.

use vstd::prelude::*;
use vstd::string::*;

use crate::instrument::detect::{
    arms_edits, body_edits, call_edits, convert_call, entry_attr, entry_note, expr_edits,
    exprs_edits, fn_edits, has_trace_method, inner_edits, is_enter_note, is_write_entry, lead,
    mutation_snapshot, note_above, notes, opt_edits, rollback_note, snapshot_local, snapshots,
    stmts_edits, takes_header, trap_note, CtxView,
};
use crate::instrument::gather::listed;
use crate::instrument::insertion::inserted;
use crate::instrument::mentions::calls_macro;
use crate::instrument::syntax::{
    Body, ExprKind, Expression, Function, MatchArm, Statement, StmtKind,
};
use crate::instrument::{CandidateView, ReplacementView, Rule};
use crate::text::{
    find, find_char, is_space, lemma_find, lemma_line_start, line_before, line_start, match_at,
    quoted, skip_space,
};

verus! {

// ---------- Which rules a body can ask for ----------

/// The rule is one for the body of a traced function.
pub open spec fn is_body_rule(r: Rule) -> bool {
    r == Rule::ConvertCall || r == Rule::TrapNote || r == Rule::SnapshotLocal || r
        == Rule::RollbackNote || r == Rule::MutationSnapshot
}

/// All candidates are of rules for the body of a traced function.
pub open spec fn of_body(cs: Seq<CandidateView>) -> bool {
    forall|i: int| 0 <= i < cs.len() ==> is_body_rule((#[trigger] cs[i]).rule)
}

proof fn lemma_of_body_add(a: Seq<CandidateView>, b: Seq<CandidateView>)
    requires
        of_body(a),
        of_body(b),
    ensures
        of_body(a + b),
{
    assert forall|i: int| 0 <= i < (a + b).len() implies is_body_rule(
        (#[trigger] (a + b)[i]).rule,
    ) by {
        if i < a.len() {
            assert((a + b)[i] == a[i]);
        } else {
            assert((a + b)[i] == b[i - a.len()]);
        }
    }
}

proof fn lemma_call_of_body(func: Expression, e: Expression, args: Seq<Expression>, ctx: CtxView)
    ensures
        of_body(call_edits(func, args, e.span, ctx)),
{
    lemma_of_body_add(
        listed(convert_call(func, args, e.span, ctx)),
        listed(trap_note(func, e.span, ctx)),
    );
}

proof fn lemma_expr_of_body(e: Expression, ctx: CtxView, traced: bool)
    ensures
        of_body(expr_edits(e, ctx, traced)),
    decreases e, 0nat,
{
    match e.kind {
        ExprKind::Block(body) => {
            lemma_body_of_body(body, ctx, traced);
        },
        ExprKind::If { cond, body, otherwise } => {
            lemma_expr_of_body(*cond, ctx, traced);
            lemma_body_of_body(body, ctx, traced);
            lemma_opt_of_body(otherwise, ctx, traced);
            let a = expr_edits(*cond, ctx, traced);
            let b = body_edits(body, ctx, traced);
            lemma_of_body_add(a, b);
            lemma_of_body_add(a + b, opt_edits(otherwise, ctx, traced));
        },
        ExprKind::Match { expr, arms } => {
            lemma_expr_of_body(*expr, ctx, traced);
            lemma_arms_of_body(arms@, arms@.len(), ctx, traced);
            lemma_of_body_add(
                expr_edits(*expr, ctx, traced),
                arms_edits(arms@, arms@.len(), ctx, traced),
            );
        },
        ExprKind::While { cond, body } => {
            lemma_expr_of_body(*cond, ctx, traced);
            lemma_body_of_body(body, ctx, traced);
            lemma_of_body_add(expr_edits(*cond, ctx, traced), body_edits(body, ctx, traced));
        },
        ExprKind::ForLoop { expr, body } => {
            lemma_expr_of_body(*expr, ctx, traced);
            lemma_body_of_body(body, ctx, traced);
            lemma_of_body_add(expr_edits(*expr, ctx, traced), body_edits(body, ctx, traced));
        },
        ExprKind::Loop(body) => {
            lemma_body_of_body(body, ctx, traced);
        },
        ExprKind::Unsafe(body) => {
            lemma_body_of_body(body, ctx, traced);
        },
        ExprKind::Return(value) => {
            lemma_opt_of_body(value, ctx, traced);
        },
        ExprKind::Try(inner) => {
            lemma_expr_of_body(*inner, ctx, traced);
        },
        ExprKind::Await(inner) => {
            lemma_expr_of_body(*inner, ctx, traced);
        },
        ExprKind::MethodCall { receiver, args, .. } => {
            lemma_expr_of_body(*receiver, ctx, traced);
            lemma_exprs_of_body(args@, args@.len(), ctx, traced);
            lemma_of_body_add(
                expr_edits(*receiver, ctx, traced),
                exprs_edits(args@, args@.len(), ctx, traced),
            );
        },
        ExprKind::Call { func, args } => {
            lemma_call_of_body(*func, e, args@, ctx);
            lemma_expr_of_body(*func, ctx, traced);
            lemma_exprs_of_body(args@, args@.len(), ctx, traced);
            let a = call_edits(*func, args@, e.span, ctx);
            let b = expr_edits(*func, ctx, traced);
            lemma_of_body_add(a, b);
            lemma_of_body_add(a + b, exprs_edits(args@, args@.len(), ctx, traced));
        },
        ExprKind::Binary(left, right) => {
            lemma_expr_of_body(*left, ctx, traced);
            lemma_expr_of_body(*right, ctx, traced);
            lemma_of_body_add(expr_edits(*left, ctx, traced), expr_edits(*right, ctx, traced));
        },
        ExprKind::Unary(inner) => {
            lemma_expr_of_body(*inner, ctx, traced);
        },
        ExprKind::Let(inner) => {
            lemma_expr_of_body(*inner, ctx, traced);
        },
        ExprKind::Reference(inner) => {
            lemma_expr_of_body(*inner, ctx, traced);
        },
        ExprKind::Tuple(elems) => {
            lemma_exprs_of_body(elems@, elems@.len(), ctx, traced);
        },
        ExprKind::Array(elems) => {
            lemma_exprs_of_body(elems@, elems@.len(), ctx, traced);
        },
        ExprKind::Paren(inner) => {
            lemma_expr_of_body(*inner, ctx, traced);
        },
        _ => {},
    }
}

proof fn lemma_opt_of_body(e: Option<Box<Expression>>, ctx: CtxView, traced: bool)
    ensures
        of_body(opt_edits(e, ctx, traced)),
    decreases e, 0nat,
{
    if let Some(inner) = e {
        lemma_expr_of_body(*inner, ctx, traced);
    }
}

proof fn lemma_exprs_of_body(es: Seq<Expression>, n: nat, ctx: CtxView, traced: bool)
    ensures
        of_body(exprs_edits(es, n, ctx, traced)),
    decreases es, n,
{
    if 0 < n <= es.len() {
        lemma_exprs_of_body(es, (n - 1) as nat, ctx, traced);
        lemma_expr_of_body(es[n - 1], ctx, traced);
        lemma_of_body_add(
            exprs_edits(es, (n - 1) as nat, ctx, traced),
            expr_edits(es[n - 1], ctx, traced),
        );
    }
}

proof fn lemma_arms_of_body(arms: Seq<MatchArm>, n: nat, ctx: CtxView, traced: bool)
    ensures
        of_body(arms_edits(arms, n, ctx, traced)),
    decreases arms, n,
{
    if 0 < n <= arms.len() {
        let arm = arms[n - 1];
        lemma_arms_of_body(arms, (n - 1) as nat, ctx, traced);
        lemma_opt_of_body(arm.guard, ctx, traced);
        lemma_expr_of_body(*arm.body, ctx, traced);
        let a = opt_edits(arm.guard, ctx, traced);
        let b = expr_edits(*arm.body, ctx, traced);
        lemma_of_body_add(a, b);
        lemma_of_body_add(arms_edits(arms, (n - 1) as nat, ctx, traced), a + b);
    }
}

proof fn lemma_inner_of_body(s: Statement, ctx: CtxView, traced: bool)
    ensures
        of_body(inner_edits(s, ctx, traced)),
    decreases s, 0nat,
{
    match s.kind {
        StmtKind::Local { init: Some(init), .. } => {
            lemma_expr_of_body(*init, ctx, traced);
        },
        StmtKind::Expr { expr, .. } => {
            lemma_expr_of_body(*expr, ctx, traced);
        },
        _ => {},
    }
}

proof fn lemma_stmts_of_body(ss: Seq<Statement>, n: nat, ctx: CtxView, traced: bool)
    ensures
        of_body(stmts_edits(ss, n, ctx, traced)),
    decreases ss, n,
{
    if 0 < n <= ss.len() {
        let now = traced || crate::instrument::detect::records_state(ss, n);
        let a = listed(snapshot_local(ss, n - 1, ctx));
        let b = listed(rollback_note(ss[n - 1], ctx, now));
        let c = listed(mutation_snapshot(ss, n - 1, ctx));
        let d = inner_edits(ss[n - 1], ctx, now);
        lemma_stmts_of_body(ss, (n - 1) as nat, ctx, traced);
        lemma_inner_of_body(ss[n - 1], ctx, now);
        lemma_of_body_add(a, b);
        lemma_of_body_add(a + b, c);
        lemma_of_body_add(a + b + c, d);
        lemma_of_body_add(stmts_edits(ss, (n - 1) as nat, ctx, traced), a + b + c + d);
    }
}

proof fn lemma_body_of_body(b: Body, ctx: CtxView, traced: bool)
    ensures
        of_body(body_edits(b, ctx, traced)),
    decreases b, 0nat,
{
    lemma_stmts_of_body(b.stmts@, b.stmts@.len(), ctx, traced);
}

// ---------- Functions ----------

/// A function that has `#[trace_method]` is not wrapped again, and gains no parameter.
pub proof fn law_traced_is_not_wrapped(
    f: Function,
    src: Seq<char>,
    aliases: Map<Seq<char>, Seq<char>>,
    containers: Seq<Seq<char>>,
    i: int,
)
    requires
        has_trace_method(f),
        0 <= i < fn_edits(f, src, aliases, containers).len(),
    ensures
        fn_edits(f, src, aliases, containers)[i].rule == Rule::EntryNote || is_body_rule(
            fn_edits(f, src, aliases, containers)[i].rule,
        ),
{
    let ctx = CtxView {
        fn_name: f.ident@,
        returns_result: crate::instrument::detect::returns_result(f),
        aliases,
        containers,
        src,
    };
    lemma_body_of_body(f.block, ctx, false);
    let note = listed(entry_note(f, src));
    let body = body_edits(f.block, ctx, false);
    let all = fn_edits(f, src, aliases, containers);
    assert(all =~= note + body);
    if i >= note.len() {
        assert(all[i] == body[i - note.len()]);
    }
}

/// A function that is not traced, and is no entry method that takes the header, has nothing put
/// into its body.
pub proof fn law_untraced_body_is_left_alone(
    f: Function,
    src: Seq<char>,
    aliases: Map<Seq<char>, Seq<char>>,
    containers: Seq<Seq<char>>,
    i: int,
)
    requires
        !has_trace_method(f),
        entry_attr(f.attrs@, 0) is None || !takes_header(f),
        0 <= i < fn_edits(f, src, aliases, containers).len(),
    ensures
        fn_edits(f, src, aliases, containers)[i].rule == Rule::WrapMethodInsertHeader,
{
}

/// An entry method that only reads never gains a parameter: without the header it is left alone.
pub proof fn law_query_is_left_alone(
    f: Function,
    src: Seq<char>,
    aliases: Map<Seq<char>, Seq<char>>,
    containers: Seq<Seq<char>>,
)
    requires
        !has_trace_method(f),
        entry_attr(f.attrs@, 0) matches Some(a) && !is_write_entry(a),
        !takes_header(f),
    ensures
        fn_edits(f, src, aliases, containers) == Seq::<CandidateView>::empty(),
{
}

/// Once its entry is noted by its first statement, a function gets no second note of its entry.
pub proof fn law_entry_is_noted_once(f: Function, note: Statement, src: Seq<char>)
    requires
        f.block.stmts@.len() > 0,
        f.block.stmts@[0] == note,
        is_enter_note(note),
    ensures
        entry_note(f, src) is None,
{
    assert(is_enter_note(f.block.stmts@[0]));
}

// ---------- Statements ----------

/// Once a snapshot of a local is taken directly behind the `let` that builds it, no second one is
/// asked for.
pub proof fn law_local_is_snapshotted_once(
    ss: Seq<Statement>,
    at: int,
    snapshot: Statement,
    ctx: CtxView,
)
    requires
        0 <= at < ss.len(),
        ss[at].kind matches StmtKind::Local { pat, .. } ==> (
        crate::instrument::detect::bound_name(pat) matches Some(name) ==> snapshots(
            snapshot,
            name,
        )),
    ensures
        snapshot_local(ss.insert(at + 1, snapshot), at, ctx) is None,
{
    let after = ss.insert(at + 1, snapshot);
    assert(after[at] == ss[at]);
    assert(after[at + 1] == snapshot);
}

/// Once state is recorded directly behind the statement that changes a container, no second
/// snapshot is asked for.
pub proof fn law_change_is_snapshotted_once(
    ss: Seq<Statement>,
    at: int,
    snapshot: Statement,
    ctx: CtxView,
)
    requires
        0 <= at < ss.len(),
        calls_macro(snapshot, "trace_state"@),
    ensures
        mutation_snapshot(ss.insert(at + 1, snapshot), at, ctx) is None,
{
    let after = ss.insert(at + 1, snapshot);
    assert(after[at] == ss[at]);
    assert(after[at + 1] == snapshot);
}

/// A call that became `call_traced!` is a macro, and what a macro holds is left alone.
pub proof fn law_macro_is_left_alone(e: Expression, ctx: CtxView, traced: bool)
    requires
        e.kind is Macro,
    ensures
        expr_edits(e, ctx, traced) == Seq::<CandidateView>::empty(),
{
}

// ---------- Notes on the line above ----------

proof fn lemma_spaces(s: Seq<char>, i: int)
    requires
        0 <= i <= s.len(),
    ensures
        i <= skip_space(s, i) <= s.len(),
        forall|x: int| i <= x < skip_space(s, i) ==> is_space(#[trigger] s[x]),
    decreases s.len() - i,
{
    if i < s.len() && is_space(s[i]) {
        lemma_spaces(s, i + 1);
    }
}

/// What begins a line is white space without a line feed.
proof fn lemma_lead(src: Seq<char>, at: int)
    requires
        0 <= at <= src.len(),
    ensures
        forall|i: int|
            0 <= i < lead(src, at).len() ==> is_space(#[trigger] lead(src, at)[i]) && lead(
                src,
                at,
            )[i] != '\n',
{
    lemma_line_start(src, at);
    let own = src.subrange(line_start(src, at), at);
    lemma_spaces(own, 0);
    let first = lead(src, at);
    assert forall|i: int| 0 <= i < first.len() implies is_space(#[trigger] first[i]) && first[i]
        != '\n' by {
        assert(first[i] == own[i]);
        assert(own[i] == src[line_start(src, at) + i]);
    }
}

/// A line that holds a note as the rules write it, behind white space, is one that notes.
proof fn lemma_note_is_read(lead: Seq<char>, name: Seq<char>, suffix: Seq<char>, line: Seq<char>)
    requires
        forall|i: int| 0 <= i < lead.len() ==> is_space(#[trigger] lead[i]),
        forall|i: int| 0 <= i < name.len() ==> #[trigger] name[i] != '"',
        forall|i: int| 0 <= i < suffix.len() ==> #[trigger] suffix[i] != '"',
        line == lead + "trace_event!(\""@ + name + suffix + "\");"@,
    ensures
        notes(line, suffix),
{
    reveal_strlit("trace_event!(");
    reveal_strlit("trace_event!(\"");
    reveal_strlit("\");");
    let p = "trace_event!("@;
    let n = lead.len() as int;
    lemma_find(line, p, 0);
    assert(line.subrange(n, n + 13) =~= p);
    assert(match_at(line, n, p));
    let k = find(line, p, 0)->0;
    if k < n {
        assert(line.subrange(k, k + 13)[0] == line[k]);
        assert(line[k] == lead[k]);
        assert(false);
    }
    let x = n + 14;
    let y = x + name.len() + suffix.len();
    assert(line[n + 13] == '"');
    assert(find_char(line, '"', n + 13) == Some(n + 13));
    assert(line[y] == '"');
    assert forall|i: int| x <= i < y implies #[trigger] line[i] != '"' by {
        if i < x + name.len() {
            assert(line[i] == name[i - x]);
        } else {
            assert(line[i] == suffix[i - x - name.len()]);
        }
    }
    lemma_find_quote(line, x, y);
    assert(quoted(line, n + 13) == Some((x, y)));
    let label = line.subrange(x, y);
    assert(label.subrange(label.len() - suffix.len(), label.len() as int) =~= suffix);
}

proof fn lemma_find_quote(s: Seq<char>, i: int, k: int)
    requires
        0 <= i <= k < s.len(),
        s[k] == '"',
        forall|j: int| i <= j < k ==> #[trigger] s[j] != '"',
    ensures
        find_char(s, '"', i) == Some(k),
    decreases k - i,
{
    if i < k {
        lemma_find_quote(s, i + 1, k);
    }
}

proof fn lemma_start_after(s: Seq<char>, ls: int, i: int)
    requires
        0 <= ls <= i <= s.len(),
        ls == 0 || s[ls - 1] == '\n',
        forall|k: int| ls <= k < i ==> #[trigger] s[k] != '\n',
    ensures
        line_start(s, i) == ls,
    decreases i - ls,
{
    if ls < i {
        lemma_start_after(s, ls, i - 1);
    }
}

/// The line that is put in above a position is the line before it.
pub proof fn lemma_line_put_above(src: Seq<char>, at: int, line: Seq<char>)
    requires
        0 <= at <= src.len(),
        forall|i: int| 0 <= i < line.len() ==> #[trigger] line[i] != '\n',
    ensures
        line_before(
            inserted(src, line_start(src, at), line + seq!['\n']),
            at + line.len() + 1,
        ) == line,
{
    let ls = line_start(src, at);
    let text = line + seq!['\n'];
    let u = inserted(src, ls, text);
    let n = line.len() as int;
    lemma_line_start(src, at);
    assert forall|k: int| ls + n + 1 <= k < at + n + 1 implies #[trigger] u[k] != '\n' by {
        assert(u[k] == src[k - n - 1]);
    }
    assert(u[ls + n] == '\n');
    lemma_start_after(u, ls + n + 1, at + n + 1);
    assert forall|k: int| ls <= k < ls + n implies #[trigger] u[k] != '\n' by {
        assert(u[k] == line[k - ls]);
    }
    if ls > 0 {
        assert(u[ls - 1] == src[ls - 1]);
    }
    lemma_start_after(u, ls, ls + n);
    assert(u.subrange(ls, ls + n) =~= line);
}

/// Once a note stands on the line above a statement, as the rules put it there, no second one is
/// asked for.
pub proof fn law_note_above_once(
    rule: Rule,
    suffix: Seq<char>,
    what: Seq<char>,
    at: int,
    ctx: CtxView,
    text: Seq<char>,
)
    requires
        0 <= at <= ctx.src.len(),
        note_above(rule, suffix, what, at, ctx) matches Some(c) && c.replacement
            == ReplacementView::InsertRaw(text),
        forall|i: int|
            0 <= i < ctx.fn_name.len() ==> #[trigger] ctx.fn_name[i] != '"' && ctx.fn_name[i]
                != '\n',
        suffix == ":rollback"@ || suffix == ":trapped"@,
    ensures
        ({
            let after = CtxView { src: inserted(ctx.src, line_start(ctx.src, at), text), ..ctx };
            note_above(rule, suffix, what, at + text.len(), after) is None
        }),
{
    reveal_strlit(":rollback");
    reveal_strlit(":trapped");
    reveal_strlit("trace_event!(\"");
    reveal_strlit("\");");
    reveal_strlit("\");\n");
    let first = lead(ctx.src, at);
    lemma_lead(ctx.src, at);
    let line = first + "trace_event!(\""@ + ctx.fn_name + suffix + "\");"@;
    lemma_line_start(ctx.src, at);
    assert(text =~= line + seq!['\n']);
    assert forall|i: int| 0 <= i < line.len() implies #[trigger] line[i] != '\n' by {
        let a = first.len();
        let b = a + 14;
        let c = b + ctx.fn_name.len();
        if i < a {
            assert(line[i] == first[i]);
        } else if i < b {
            assert(line[i] == "trace_event!(\""@[i - a]);
        } else if i < c {
            assert(line[i] == ctx.fn_name[i - b]);
        } else if i < c + suffix.len() {
            assert(line[i] == suffix[i - c]);
        } else {
            assert(line[i] == "\");"@[i - c - suffix.len()]);
        }
    }
    lemma_line_put_above(ctx.src, at, line);
    lemma_note_is_read(first, ctx.fn_name, suffix, line);
}

} // verus!
