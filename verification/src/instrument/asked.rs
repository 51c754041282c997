//! What each rule for Rust asks for, from the file to the text that goes into it.

use vstd::prelude::*;
use vstd::string::*;

use crate::instrument::detect::{
    body_edits, call_edits, containers, convert_call, detected, end_of, entry_attr, entry_note,
    fn_edits, has_trace_method, is_enter_note, is_entry, is_entry_name, is_trace_method,
    is_write_entry, items_edits, lead, mutation_snapshot, names_target, notes, own_edits,
    params_place, rollback_note, snapshot_follows, snapshot_local, start_of, starts_noted,
    state_follows, takes_header, text_of, trap_note, with_call, CtxView, WithCall,
};
use crate::instrument::found::{
    block_in_block, law_calls_are_found_anywhere, law_statements_are_found_anywhere, runs_in_block,
    is_state_macro, state_recorded,
};
use crate::instrument::gather::listed;
use crate::instrument::mentions::{
    calls_macro, label_ends, macro_in, method_in, name_in_tokens, stmt_macro,
};
use crate::instrument::syntax::{
    Body, Entry, ExprKind, Expression, File, Function, MacroCall, Marker, Pattern, Place, Statement,
    StmtKind, Token,
};
use crate::instrument::{candidate_key, CandidateView, EditView, ReplacementView};
use crate::order::law_sorted;
use crate::text::{byte_at, contains, joined, line_before, line_start, texts};

verus! {

// ---------- Functions whose body is searched ----------

/// The attribute is written with these names, parted by `::`.
pub open spec fn is_written(a: Marker, names: Seq<Seq<char>>) -> bool {
    texts(a.path@) == names
}

/// An attribute makes the function a traced one.
pub open spec fn is_marked(f: Function) -> bool {
    exists|k: int|
        0 <= k < f.attrs@.len() && (is_written(#[trigger] f.attrs@[k], seq!["trace_method"@])
            || is_written(f.attrs@[k], seq!["ic_debug_trace"@, "trace_method"@]) || is_written(
            f.attrs@[k],
            seq!["ic_debug_trace_macros"@, "trace_method"@],
        ))
}

/// The attribute `#[w]`, `#[ic_cdk::w]` or `#[ic_cdk_macros::w]`.
pub open spec fn is_cdk(a: Marker, w: Seq<char>) -> bool {
    is_written(a, seq![w]) || is_written(a, seq!["ic_cdk"@, w]) || is_written(
        a,
        seq!["ic_cdk_macros"@, w],
    )
}

/// The attribute makes a function one that the outside can call and that may write.
pub open spec fn opens_update(a: Marker) -> bool {
    is_cdk(a, "update"@) || is_cdk(a, "heartbeat"@) || is_cdk(a, "inspect_message"@) || is_cdk(
        a,
        "init"@,
    ) || is_cdk(a, "post_upgrade"@)
}

/// The first parameter has the type of a trace header.
pub open spec fn has_header(f: Function) -> bool {
    f.inputs@.len() > 0 && f.inputs@[0] is Typed && f.inputs@[0]->ty is Path
        && f.inputs@[0]->ty->Path_0@.len() > 0 && f.inputs@[0]->ty->Path_0@.last()@
        == "TraceHeader"@
}

/// The function returns a `Result`.
pub open spec fn gives_result(f: Function) -> bool {
    f.output is Some && f.output->0 is Path && f.output->0->Path_0@.len() > 0
        && f.output->0->Path_0@.last()@ == "Result"@
}

/// The body of the function is searched: the function is traced, or is called from outside with a
/// header and so will be.
pub open spec fn is_watched(f: Function) -> bool {
    is_marked(f) || (has_header(f) && exists|k: int|
        0 <= k < f.attrs@.len() && (opens_update(#[trigger] f.attrs@[k]) || is_cdk(
            f.attrs@[k],
            "query"@,
        )))
}

/// What the rules for a body know of a function of a file.
pub open spec fn known(
    f: Function,
    file: File,
    src: Seq<char>,
    aliases: Map<Seq<char>, Seq<char>>,
) -> CtxView {
    CtxView {
        fn_name: f.ident@,
        returns_result: gives_result(f),
        aliases,
        containers: containers(file.items@, file.items@.len()),
        src,
    }
}

proof fn lemma_two_joined(a: Seq<char>, b: Seq<char>)
    ensures
        joined(seq![a, b], "::"@, 2) == a + "::"@ + b,
{
    reveal_with_fuel(joined, 3);
}

proof fn lemma_three_joined(a: Seq<char>, b: Seq<char>, c: Seq<char>)
    ensures
        joined(seq![a, b, c], "::"@, 3) == a + "::"@ + b + "::"@ + c,
{
    reveal_with_fuel(joined, 4);
}

proof fn lemma_marked(f: Function)
    requires
        is_marked(f),
    ensures
        has_trace_method(f),
{
    let k = choose|k: int|
        0 <= k < f.attrs@.len() && (is_written(#[trigger] f.attrs@[k], seq!["trace_method"@])
            || is_written(f.attrs@[k], seq!["ic_debug_trace"@, "trace_method"@]) || is_written(
            f.attrs@[k],
            seq!["ic_debug_trace_macros"@, "trace_method"@],
        ));
    let a = f.attrs@[k];
    assert(texts(a.path@).len() == a.path@.len());
    lemma_two_joined("ic_debug_trace"@, "trace_method"@);
    lemma_two_joined("ic_debug_trace_macros"@, "trace_method"@);
    reveal_strlit("ic_debug_trace");
    reveal_strlit("ic_debug_trace_macros");
    reveal_strlit("::");
    reveal_strlit("trace_method");
    reveal_strlit("ic_debug_trace::trace_method");
    reveal_strlit("ic_debug_trace_macros::trace_method");
    assert("ic_debug_trace"@ + "::"@ + "trace_method"@ =~= "ic_debug_trace::trace_method"@);
    assert("ic_debug_trace_macros"@ + "::"@ + "trace_method"@
        =~= "ic_debug_trace_macros::trace_method"@);
    assert(is_trace_method(a));
}

proof fn lemma_cdk(a: Marker, w: Seq<char>)
    requires
        is_cdk(a, w),
        is_entry_name(w),
    ensures
        is_entry(a),
        a.path@.len() > 0,
        a.path@.last()@ == w,
{
    let p = texts(a.path@);
    assert(p.len() == a.path@.len());
    assert(p[p.len() - 1] == a.path@.last()@);
}

proof fn lemma_first_entry(attrs: Seq<Marker>, i: int, k: int)
    requires
        0 <= i <= k < attrs.len(),
        is_entry(attrs[k]),
    ensures
        entry_attr(attrs, i) is Some,
    decreases k - i,
{
    if !is_entry(attrs[i]) {
        lemma_first_entry(attrs, i + 1, k);
    }
}

proof fn lemma_only_entry(attrs: Seq<Marker>, i: int, k: int)
    requires
        0 <= i <= k < attrs.len(),
        is_entry(attrs[k]),
        forall|j: int| i <= j < k ==> !is_entry(#[trigger] attrs[j]),
    ensures
        entry_attr(attrs, i) == Some(attrs[k]),
    decreases k - i,
{
    if i < k {
        assert(!is_entry(attrs[i]));
        lemma_only_entry(attrs, i + 1, k);
    }
}

proof fn lemma_in_items(
    items: Seq<Entry>,
    n: nat,
    i: int,
    f: Function,
    src: Seq<char>,
    aliases: Map<Seq<char>, Seq<char>>,
    names: Seq<Seq<char>>,
    c: CandidateView,
)
    requires
        0 <= i < n <= items.len(),
        items[i] == Entry::Fn(f),
        fn_edits(f, src, aliases, names).contains(c),
    ensures
        items_edits(items, n, src, aliases, names).contains(c),
    decreases n,
{
    let before = items_edits(items, (n - 1) as nat, src, aliases, names);
    if i < n - 1 {
        lemma_in_items(items, (n - 1) as nat, i, f, src, aliases, names, c);
        let x = choose|x: int| 0 <= x < before.len() && before[x] == c;
        if let Entry::Fn(g) = items[n - 1] {
            assert((before + fn_edits(g, src, aliases, names))[x] == c);
        }
    } else {
        let own = fn_edits(f, src, aliases, names);
        let x = choose|x: int| 0 <= x < own.len() && own[x] == c;
        assert((before + own)[before.len() + x] == c);
    }
}

proof fn lemma_in_file(
    file: File,
    i: int,
    f: Function,
    src: Seq<char>,
    aliases: Map<Seq<char>, Seq<char>>,
    c: CandidateView,
)
    requires
        0 <= i < file.items@.len(),
        file.items@[i] == Entry::Fn(f),
        fn_edits(f, src, aliases, containers(file.items@, file.items@.len())).contains(c),
    ensures
        detected(file, src, aliases).contains(c),
{
    broadcast use vstd::seq_lib::group_to_multiset_ensures;

    let names = containers(file.items@, file.items@.len());
    let all = items_edits(file.items@, file.items@.len(), src, aliases, names);
    lemma_in_items(file.items@, file.items@.len(), i, f, src, aliases, names, c);
    law_sorted(all, candidate_key(), all.len());
    assert(all.subrange(0, all.len() as int) =~= all);
    assert(all.to_multiset().count(c) > 0);
}

proof fn lemma_watched(f: Function)
    requires
        is_watched(f),
    ensures
        has_trace_method(f) || (entry_attr(f.attrs@, 0) is Some && takes_header(f)),
{
    if is_marked(f) {
        lemma_marked(f);
    } else {
        let k = choose|k: int|
            0 <= k < f.attrs@.len() && (opens_update(#[trigger] f.attrs@[k]) || is_cdk(
                f.attrs@[k],
                "query"@,
            ));
        lemma_opens(f.attrs@[k]);
        lemma_first_entry(f.attrs@, 0, k);
    }
}

proof fn lemma_opens(a: Marker)
    requires
        opens_update(a) || is_cdk(a, "query"@),
    ensures
        is_entry(a),
        opens_update(a) ==> is_write_entry(a),
{
    if is_cdk(a, "update"@) {
        lemma_cdk(a, "update"@);
    } else if is_cdk(a, "heartbeat"@) {
        lemma_cdk(a, "heartbeat"@);
    } else if is_cdk(a, "inspect_message"@) {
        lemma_cdk(a, "inspect_message"@);
    } else if is_cdk(a, "init"@) {
        lemma_cdk(a, "init"@);
    } else if is_cdk(a, "post_upgrade"@) {
        lemma_cdk(a, "post_upgrade"@);
    } else {
        lemma_cdk(a, "query"@);
    }
}

/// Whatever is asked for in the body of a function whose body is searched is asked for in its file.
pub proof fn law_watched_body_is_searched(
    file: File,
    i: int,
    f: Function,
    src: Seq<char>,
    aliases: Map<Seq<char>, Seq<char>>,
    c: CandidateView,
)
    requires
        0 <= i < file.items@.len(),
        file.items@[i] == Entry::Fn(f),
        is_watched(f),
        body_edits(f.block, known(f, file, src, aliases), false).contains(c),
    ensures
        detected(file, src, aliases).contains(c),
{
    lemma_watched(f);
    let names = containers(file.items@, file.items@.len());
    let body = body_edits(f.block, known(f, file, src, aliases), false);
    let all = fn_edits(f, src, aliases, names);
    let x = choose|x: int| 0 <= x < body.len() && body[x] == c;
    assert(all[all.len() - body.len() + x] == c);
    lemma_in_file(file, i, f, src, aliases, c);
}

// ---------- Wrapping ----------

/// A function that is called from outside, takes the header and is not traced is traced: the
/// attribute goes before the first of its own that make it one.
pub proof fn law_entry_method_is_traced(
    file: File,
    i: int,
    f: Function,
    k: int,
    src: Seq<char>,
    aliases: Map<Seq<char>, Seq<char>>,
) -> (c: CandidateView)
    requires
        0 <= i < file.items@.len(),
        file.items@[i] == Entry::Fn(f),
        !has_trace_method(f),
        has_header(f),
        0 <= k < f.attrs@.len(),
        opens_update(f.attrs@[k]) || is_cdk(f.attrs@[k], "query"@),
        forall|j: int| 0 <= j < k ==> !is_entry(#[trigger] f.attrs@[j]),
    ensures
        detected(file, src, aliases).contains(c),
        c.rule is WrapMethod,
        c.fn_name == f.ident@,
        c.start == byte_at(src, start_of(src, f.attrs@[k].span)),
        c.end == c.start,
        c.replacement == ReplacementView::InsertRaw(
            "#[trace_method]\n"@ + lead(src, start_of(src, f.attrs@[k].span)),
        ),
{
    lemma_opens(f.attrs@[k]);
    lemma_only_entry(f.attrs@, 0, k);
    let names = containers(file.items@, file.items@.len());
    let all = fn_edits(f, src, aliases, names);
    let c = all[0];
    lemma_in_file(file, i, f, src, aliases, c);
    c
}

/// A function that is called from outside and may write, and takes no header, is traced and is given
/// the header as its first parameter, with a comma where others follow. Its callers have to change,
/// so a warning comes with it.
pub proof fn law_update_method_is_given_the_header(
    file: File,
    i: int,
    f: Function,
    k: int,
    src: Seq<char>,
    aliases: Map<Seq<char>, Seq<char>>,
) -> (r: (CandidateView, Seq<EditView>))
    requires
        0 <= i < file.items@.len(),
        file.items@[i] == Entry::Fn(f),
        !has_trace_method(f),
        !has_header(f),
        0 <= k < f.attrs@.len(),
        opens_update(f.attrs@[k]),
        forall|j: int| 0 <= j < k ==> !is_entry(#[trigger] f.attrs@[j]),
    ensures
        detected(file, src, aliases).contains(r.0),
        r.0.rule is WrapMethodInsertHeader,
        r.0.fn_name == f.ident@,
        r.0.warning is Some,
        r.0.replacement == ReplacementView::Multi(r.1),
        r.1.len() == 2,
        r.1[0] == (EditView {
            start: byte_at(src, start_of(src, f.attrs@[k].span)) as int,
            end: byte_at(src, start_of(src, f.attrs@[k].span)) as int,
            text: "#[trace_method]\n"@ + lead(src, start_of(src, f.attrs@[k].span)),
        }),
        r.1[1].start == byte_at(src, params_place(f, src)),
        r.1[1].end == r.1[1].start,
        f.inputs@.len() == 0 ==> r.1[1].text == "header: TraceHeader"@,
        f.inputs@.len() > 0 ==> r.1[1].text == "header: TraceHeader, "@,
{
    lemma_opens(f.attrs@[k]);
    lemma_only_entry(f.attrs@, 0, k);
    assert(!takes_header(f));
    let names = containers(file.items@, file.items@.len());
    let all = fn_edits(f, src, aliases, names);
    let c = all[0];
    lemma_in_file(file, i, f, src, aliases, c);
    (c, c.replacement->Multi_0)
}

/// The entry of a function whose body is searched is noted before its first statement, unless one of
/// the first three notes it.
pub proof fn law_entry_is_noted(
    file: File,
    i: int,
    f: Function,
    src: Seq<char>,
    aliases: Map<Seq<char>, Seq<char>>,
) -> (c: CandidateView)
    requires
        0 <= i < file.items@.len(),
        file.items@[i] == Entry::Fn(f),
        is_watched(f),
        f.block.stmts@.len() > 0,
        !starts_noted(f.block),
    ensures
        detected(file, src, aliases).contains(c),
        c.rule is EntryNote,
        c.fn_name == f.ident@,
        c.start == byte_at(src, start_of(src, f.block.stmts@[0].span)),
        c.end == c.start,
        c.replacement == ReplacementView::InsertRaw(
            "trace_event!(\""@ + f.ident@ + ":enter\");\n"@ + lead(
                src,
                start_of(src, f.block.stmts@[0].span),
            ),
        ),
{
    lemma_watched(f);
    let names = containers(file.items@, file.items@.len());
    let c = entry_note(f, src)->0;
    let body = body_edits(f.block, known(f, file, src, aliases), false);
    let all = fn_edits(f, src, aliases, names);
    assert(listed(entry_note(f, src))[0] == c);
    assert(all[all.len() - body.len() - 1] == c);
    lemma_in_file(file, i, f, src, aliases, c);
    c
}

// ---------- Calls ----------

/// The expression is a path of these names, with nothing before it.
pub open spec fn is_path(e: Expression, names: Seq<Seq<char>>) -> bool {
    e.kind is Path && !e.kind->qself && texts(e.kind->segments@) == names
}

/// The expression is one name, which a `use` binds to `path`.
pub open spec fn is_name_of(
    e: Expression,
    path: Seq<char>,
    aliases: Map<Seq<char>, Seq<char>>,
) -> bool {
    exists|w: Seq<char>| #[trigger] is_path(e, seq![w]) && aliases.dom().contains(w) && aliases[w]
        == path
}

/// The expression names what traps: by its path, or by a name that a `use` binds to it.
pub open spec fn names_trap(e: Expression, aliases: Map<Seq<char>, Seq<char>>) -> bool {
    is_path(e, seq!["ic_cdk"@, "trap"@]) || is_path(e, seq!["ic_cdk"@, "api"@, "trap"@])
        || is_name_of(e, "ic_cdk::trap"@, aliases) || is_name_of(e, "ic_cdk::api::trap"@, aliases)
}

/// The expression names what calls a canister.
pub open spec fn names_call(e: Expression, aliases: Map<Seq<char>, Seq<char>>) -> bool {
    is_path(e, seq!["ic_cdk"@, "call"@]) || is_name_of(e, "ic_cdk::call"@, aliases)
}

proof fn lemma_names_trap(e: Expression, ctx: CtxView)
    requires
        names_trap(e, ctx.aliases),
    ensures
        names_target(e, ctx, seq!["ic_cdk::trap"@, "ic_cdk::api::trap"@]),
{
    let targets = seq!["ic_cdk::trap"@, "ic_cdk::api::trap"@];
    assert(targets[0] == "ic_cdk::trap"@);
    assert(targets[1] == "ic_cdk::api::trap"@);
    lemma_two_joined("ic_cdk"@, "trap"@);
    lemma_three_joined("ic_cdk"@, "api"@, "trap"@);
    reveal_strlit("ic_cdk");
    reveal_strlit("::");
    reveal_strlit("trap");
    reveal_strlit("api");
    reveal_strlit("ic_cdk::trap");
    reveal_strlit("ic_cdk::api::trap");
    assert("ic_cdk"@ + "::"@ + "trap"@ =~= "ic_cdk::trap"@);
    assert("ic_cdk"@ + "::"@ + "api"@ + "::"@ + "trap"@ =~= "ic_cdk::api::trap"@);
}

proof fn lemma_names_call(e: Expression, ctx: CtxView)
    requires
        names_call(e, ctx.aliases),
    ensures
        names_target(e, ctx, seq!["ic_cdk::call"@]),
{
    let targets = seq!["ic_cdk::call"@];
    assert(targets[0] == "ic_cdk::call"@);
    lemma_two_joined("ic_cdk"@, "call"@);
    reveal_strlit("ic_cdk");
    reveal_strlit("::");
    reveal_strlit("call");
    reveal_strlit("ic_cdk::call");
    assert("ic_cdk"@ + "::"@ + "call"@ =~= "ic_cdk::call"@);
}

/// Each trap in a function whose body is searched is noted on the line above it, however deep in the
/// body it stands, unless the line above notes one.
pub proof fn law_trap_is_noted(
    file: File,
    i: int,
    f: Function,
    x: Expression,
    n: nat,
    src: Seq<char>,
    aliases: Map<Seq<char>, Seq<char>>,
) -> (c: CandidateView)
    requires
        0 <= i < file.items@.len(),
        file.items@[i] == Entry::Fn(f),
        is_watched(f),
        runs_in_block(x, f.block, n),
        x.kind is Call,
        names_trap(*x.kind->Call_func, aliases),
        !notes(line_before(src, start_of(src, x.span)), ":trapped"@),
    ensures
        detected(file, src, aliases).contains(c),
        c.rule is TrapNote,
        c.fn_name == f.ident@,
        c.start == byte_at(src, line_start(src, start_of(src, x.span))),
        c.end == c.start,
        c.replacement == ReplacementView::InsertRaw(
            lead(src, start_of(src, x.span)) + "trace_event!(\""@ + f.ident@ + ":trapped\");\n"@,
        ),
{
    let ctx = known(f, file, src, aliases);
    let func = *x.kind->Call_func;
    let args = x.kind->Call_args@;
    lemma_names_trap(func, ctx);
    let c = trap_note(func, x.span, ctx)->0;
    let own = listed(convert_call(func, args, x.span, ctx));
    assert((own + listed(trap_note(func, x.span, ctx)))[own.len() as int] == c);
    law_calls_are_found_anywhere(x, f.block, n, ctx, false, c);
    law_watched_body_is_searched(file, i, f, src, aliases, c);
    reveal_strlit(":trapped");
    reveal_strlit("\");\n");
    reveal_strlit(":trapped\");\n");
    assert(":trapped\");\n"@ =~= ":trapped"@ + "\");\n"@);
    let head = lead(src, start_of(src, x.span)) + "trace_event!(\""@ + f.ident@;
    assert(head + ":trapped"@ + "\");\n"@ =~= head + (":trapped"@ + "\");\n"@));
    c
}

/// Each call of a canister with three arguments, in a function whose body is searched, becomes a
/// traced one with the same three, however deep in the body it stands. A warning comes with it.
pub proof fn law_call_is_converted(
    file: File,
    i: int,
    f: Function,
    x: Expression,
    n: nat,
    src: Seq<char>,
    aliases: Map<Seq<char>, Seq<char>>,
) -> (c: CandidateView)
    requires
        0 <= i < file.items@.len(),
        file.items@[i] == Entry::Fn(f),
        is_watched(f),
        runs_in_block(x, f.block, n),
        x.kind is Call,
        x.kind->Call_args@.len() == 3,
        names_call(*x.kind->Call_func, aliases),
        start_of(src, x.span) <= end_of(src, x.span),
    ensures
        detected(file, src, aliases).contains(c),
        c.rule is ConvertCall,
        c.fn_name == f.ident@,
        c.warning is Some,
        c.start == byte_at(src, start_of(src, x.span)),
        c.end == byte_at(src, end_of(src, x.span)),
        c.replacement == ReplacementView::Replace(
            "call_traced!("@ + text_of(src, x.kind->Call_args@[0].span) + ", "@ + text_of(
                src,
                x.kind->Call_args@[1].span,
            ) + ", "@ + text_of(src, x.kind->Call_args@[2].span)
                + ")  /* TODO: confirm return type */"@,
        ),
{
    let ctx = known(f, file, src, aliases);
    let func = *x.kind->Call_func;
    let args = x.kind->Call_args@;
    lemma_names_call(func, ctx);
    let c = convert_call(func, args, x.span, ctx)->0;
    assert((listed(convert_call(func, args, x.span, ctx)) + listed(
        trap_note(func, x.span, ctx),
    ))[0] == c);
    law_calls_are_found_anywhere(x, f.block, n, ctx, false, c);
    law_watched_body_is_searched(file, i, f, src, aliases, c);
    c
}

// ---------- Statements ----------

proof fn lemma_own(ss: Seq<Statement>, at: int, ctx: CtxView, now: bool, c: CandidateView)
    requires
        snapshot_local(ss, at, ctx) == Some(c) || rollback_note(ss[at], ctx, now) == Some(c)
            || mutation_snapshot(ss, at, ctx) == Some(c),
    ensures
        own_edits(ss, at, ctx, now).contains(c),
{
    let a = listed(snapshot_local(ss, at, ctx));
    let b = listed(rollback_note(ss[at], ctx, now));
    let d = listed(mutation_snapshot(ss, at, ctx));
    let all = own_edits(ss, at, ctx, now);
    if snapshot_local(ss, at, ctx) == Some(c) {
        assert(all[0] == c);
    } else if rollback_note(ss[at], ctx, now) == Some(c) {
        assert(all[a.len() as int] == c);
    } else {
        assert(all[a.len() as int + b.len()] == c);
    }
}

/// The statement binds `name`, with or without a type, to a struct that it builds.
pub open spec fn builds_struct(s: Statement, name: Seq<char>) -> bool {
    s.kind is Local && s.kind->init is Some && s.kind->init->0.kind is Struct && (
    s.kind->pat matches Pattern::Ident(i) && i@ == name || (s.kind->pat matches Pattern::Typed(
        inner,
    ) && (*inner matches Pattern::Ident(i) && i@ == name)))
}

/// A struct that is built in a function whose body is searched is recorded behind the statement,
/// under the name that it is bound to, however deep in the body the statement stands, unless one of
/// the ten statements after it records it.
pub proof fn law_built_struct_is_recorded(
    file: File,
    i: int,
    f: Function,
    d: Body,
    at: int,
    now: bool,
    n: nat,
    name: Seq<char>,
    src: Seq<char>,
    aliases: Map<Seq<char>, Seq<char>>,
) -> (c: CandidateView)
    requires
        0 <= i < file.items@.len(),
        file.items@[i] == Entry::Fn(f),
        is_watched(f),
        block_in_block(d, now, f.block, false, n),
        0 <= at < d.stmts@.len(),
        builds_struct(d.stmts@[at], name),
        !snapshot_follows(d.stmts@, at, name),
    ensures
        detected(file, src, aliases).contains(c),
        c.rule is SnapshotLocal,
        c.fn_name == f.ident@,
        c.start == byte_at(src, end_of(src, d.stmts@[at].span)),
        c.end == c.start,
        c.replacement == (ReplacementView::InsertAfterWithKey {
            template: "\n"@ + lead(src, start_of(src, d.stmts@[at].span))
                + "trace_state!(\"{KEY}\", &"@ + name + ");"@,
            default_key: name,
        }),
{
    let ctx = known(f, file, src, aliases);
    let c = snapshot_local(d.stmts@, at, ctx)->0;
    lemma_own(d.stmts@, at, ctx, state_recorded(d.stmts@, at, now), c);
    law_statements_are_found_anywhere(d, at, now, f.block, false, n, ctx, c);
    law_watched_body_is_searched(file, i, f, src, aliases, c);
    c
}

/// The statement is `return Err(..)`.
pub open spec fn is_return_err(s: Statement) -> bool {
    s.kind is Expr && s.kind->Expr_expr.kind is Return && s.kind->Expr_expr.kind->Return_0 is Some
        && s.kind->Expr_expr.kind->Return_0->0.kind is Call && is_err_path(
        *s.kind->Expr_expr.kind->Return_0->0.kind->Call_func,
    )
}

/// The expression is a path that ends in `Err`.
pub open spec fn is_err_path(e: Expression) -> bool {
    e.kind is Path && e.kind->segments@.len() > 0 && e.kind->segments@.last()@ == "Err"@
}

/// In a function that returns a `Result`, and whose body is searched, each `return Err(..)` behind a
/// record of state is noted on the line above it, however deep in the body it stands, unless the
/// line above notes one.
pub proof fn law_rollback_is_noted(
    file: File,
    i: int,
    f: Function,
    d: Body,
    at: int,
    now: bool,
    n: nat,
    src: Seq<char>,
    aliases: Map<Seq<char>, Seq<char>>,
) -> (c: CandidateView)
    requires
        0 <= i < file.items@.len(),
        file.items@[i] == Entry::Fn(f),
        is_watched(f),
        gives_result(f),
        block_in_block(d, now, f.block, false, n),
        0 <= at < d.stmts@.len(),
        is_return_err(d.stmts@[at]),
        state_recorded(d.stmts@, at, now),
        !notes(line_before(src, start_of(src, d.stmts@[at].span)), ":rollback"@),
    ensures
        detected(file, src, aliases).contains(c),
        c.rule is RollbackNote,
        c.fn_name == f.ident@,
        c.start == byte_at(src, line_start(src, start_of(src, d.stmts@[at].span))),
        c.end == c.start,
        c.replacement == ReplacementView::InsertRaw(
            lead(src, start_of(src, d.stmts@[at].span)) + "trace_event!(\""@ + f.ident@
                + ":rollback\");\n"@,
        ),
{
    let ctx = known(f, file, src, aliases);
    let c = rollback_note(d.stmts@[at], ctx, true)->0;
    lemma_own(d.stmts@, at, ctx, true, c);
    law_statements_are_found_anywhere(d, at, now, f.block, false, n, ctx, c);
    law_watched_body_is_searched(file, i, f, src, aliases, c);
    reveal_strlit(":rollback");
    reveal_strlit("\");\n");
    reveal_strlit(":rollback\");\n");
    assert(":rollback\");\n"@ =~= ":rollback"@ + "\");\n"@);
    let head = lead(src, start_of(src, d.stmts@[at].span)) + "trace_event!(\""@ + f.ident@;
    assert(head + ":rollback"@ + "\");\n"@ =~= head + (":rollback"@ + "\");\n"@));
    c
}

/// The expression is `name.with(|..| closure)`.
pub open spec fn is_with(e: Expression, name: Seq<char>, closure: Expression) -> bool {
    e.kind is MethodCall && e.kind->method@ == "with"@ && is_path(
        *e.kind->receiver,
        seq![name],
    ) && e.kind->MethodCall_args@.len() == 1 && e.kind->MethodCall_args@[0].kind is Closure
        && *e.kind->MethodCall_args@[0].kind->Closure_0 == closure
}

/// A statement that changes a container of the file, in a function whose body is searched, is
/// followed by a record of state, however deep in the body it stands, unless the closure or one of
/// the three statements after it records state. The key that is offered is the name of the container
/// in lower case.
pub proof fn law_change_is_recorded(
    file: File,
    i: int,
    f: Function,
    d: Body,
    at: int,
    now: bool,
    n: nat,
    name: Seq<char>,
    closure: Expression,
    src: Seq<char>,
    aliases: Map<Seq<char>, Seq<char>>,
) -> (c: CandidateView)
    requires
        0 <= i < file.items@.len(),
        file.items@[i] == Entry::Fn(f),
        is_watched(f),
        block_in_block(d, now, f.block, false, n),
        0 <= at < d.stmts@.len(),
        d.stmts@[at].kind is Expr,
        d.stmts@[at].kind->semi,
        is_with(*d.stmts@[at].kind->Expr_expr, name, closure),
        containers(file.items@, file.items@.len()).contains(name),
        method_in(closure, "borrow_mut"@),
        !macro_in(closure, "trace_state"@),
        !state_follows(d.stmts@, at),
    ensures
        detected(file, src, aliases).contains(c),
        c.rule is MutationSnapshot,
        c.fn_name == f.ident@,
        c.warning is Some,
        c.start == byte_at(src, end_of(src, d.stmts@[at].span)),
        c.end == c.start,
        c.replacement == (ReplacementView::InsertWithKeyAndValue {
            template: "\n"@ + lead(src, start_of(src, d.stmts@[at].span))
                + "trace_state!(\"{KEY}\", {VALUE});"@,
            default_key: crate::instrument::detect::lowercase(name),
            value_hint: "&"@ + crate::instrument::detect::lowercase(name),
        }),
{
    let ctx = known(f, file, src, aliases);
    let e = *d.stmts@[at].kind->Expr_expr;
    assert(texts(e.kind->receiver.kind->segments@).len() == 1);
    assert(with_call(e) == Some(WithCall { receiver: name, closure }));
    let c = mutation_snapshot(d.stmts@, at, ctx)->0;
    lemma_own(d.stmts@, at, ctx, state_recorded(d.stmts@, at, now), c);
    law_statements_are_found_anywhere(d, at, now, f.block, false, n, ctx, c);
    law_watched_body_is_searched(file, i, f, src, aliases, c);
    c
}

// ---------- Nothing else ----------

/// A call of what is no path, of a path behind a `<T as ..>`, or of a name that no `use` binds asks
/// for nothing.
pub proof fn law_other_calls_are_left_alone(
    func: Expression,
    args: Seq<Expression>,
    span: Place,
    ctx: CtxView,
)
    requires
        !(func.kind is Path) || func.kind->qself || (func.kind->segments@.len() == 1
            && !ctx.aliases.dom().contains(func.kind->segments@[0]@)),
    ensures
        call_edits(func, args, span, ctx).len() == 0,
{
    if func.kind is Path {
        let p = texts(func.kind->segments@);
        assert(p.len() == func.kind->segments@.len());
        if p.len() == 1 {
            assert(p[0] == func.kind->segments@[0]@);
        }
    }
}

/// What a statement asks for by itself is a record of the struct that it builds, a note of the error
/// that it returns behind a record of state, or a record of the container that it changes.
pub proof fn law_what_a_statement_asks_for(
    ss: Seq<Statement>,
    at: int,
    ctx: CtxView,
    now: bool,
    c: CandidateView,
)
    requires
        own_edits(ss, at, ctx, now).contains(c),
    ensures
        c.rule is SnapshotLocal || c.rule is RollbackNote || c.rule is MutationSnapshot,
        c.rule is SnapshotLocal ==> exists|name: Seq<char>| #[trigger]
            builds_struct(ss[at], name) && !snapshot_follows(ss, at, name),
        c.rule is RollbackNote ==> ctx.returns_result && now && is_return_err(ss[at]),
        c.rule is MutationSnapshot ==> ss[at].kind is Expr && ss[at].kind->semi && !state_follows(
            ss,
            at,
        ),
{
    let a = listed(snapshot_local(ss, at, ctx));
    let b = listed(rollback_note(ss[at], ctx, now));
    let d = listed(mutation_snapshot(ss, at, ctx));
    let all = own_edits(ss, at, ctx, now);
    let x = choose|x: int| 0 <= x < all.len() && all[x] == c;
    if x < a.len() {
        assert(a[x] == c);
        if let StmtKind::Local { pat, init } = ss[at].kind {
            let name = crate::instrument::detect::bound_name(pat)->0;
            assert(builds_struct(ss[at], name));
        }
    } else if x < a.len() + b.len() {
        assert(b[x - a.len()] == c);
    } else {
        assert(d[x - a.len() - b.len()] == c);
    }
}

/// The macro that a statement is a call of.
pub open spec fn is_macro_of(s: Statement, mac: MacroCall) -> bool {
    s.kind == StmtKind::Macro(mac) || (s.kind is Expr && s.kind->Expr_expr.kind == ExprKind::Macro(
        mac,
    ))
}

/// The statement is a call of the macro `w`, with these tokens.
pub open spec fn is_macro_with(s: Statement, w: Seq<char>, ts: Seq<Token>) -> bool {
    exists|mac: MacroCall| #[trigger]
        is_macro_of(s, mac) && mac.path@.len() > 0 && mac.path@.last()@ == w && mac.tokens@ == ts
}

proof fn lemma_macro(s: Statement)
    ensures
        forall|mac: MacroCall| #[trigger] is_macro_of(s, mac) <==> stmt_macro(s) == Some(mac),
{
}

/// A record of the struct follows where one of the ten statements after it is a `trace_state!` that
/// names it, and only there; one of the container follows where one of the three statements after it
/// is a `trace_state!`.
pub proof fn law_records_that_follow(ss: Seq<Statement>, at: int, name: Seq<char>)
    ensures
        snapshot_follows(ss, at, name) <==> exists|i: int, ts: Seq<Token>|
            at < i <= at + 10 && i < ss.len() && #[trigger] is_macro_with(
                ss[i],
                "trace_state"@,
                ts,
            ) && name_in_tokens(ts, ts.len(), name),
        state_follows(ss, at) <==> exists|i: int|
            at < i <= at + 3 && i < ss.len() && is_state_macro(#[trigger] ss[i]),
{
    let w = "trace_state"@;
    if snapshot_follows(ss, at, name) {
        let i = choose|i: int|
            at < i <= at + 10 && i < ss.len() && crate::instrument::detect::snapshots(
                #[trigger] ss[i],
                name,
            );
        let mac = stmt_macro(ss[i])->0;
        lemma_macro(ss[i]);
        assert(is_macro_of(ss[i], mac));
        assert(is_macro_with(ss[i], w, mac.tokens@));
    }
    if exists|i: int, ts: Seq<Token>|
        at < i <= at + 10 && i < ss.len() && #[trigger] is_macro_with(ss[i], w, ts)
            && name_in_tokens(ts, ts.len(), name) {
        let (i, ts) = choose|i: int, ts: Seq<Token>|
            at < i <= at + 10 && i < ss.len() && #[trigger] is_macro_with(ss[i], w, ts)
                && name_in_tokens(ts, ts.len(), name);
        lemma_macro(ss[i]);
        assert(crate::instrument::detect::snapshots(ss[i], name));
    }
    if state_follows(ss, at) {
        let i = choose|i: int|
            at < i <= at + 3 && i < ss.len() && calls_macro(#[trigger] ss[i], w);
        assert(is_state_macro(ss[i]));
    }
    if exists|i: int| at < i <= at + 3 && i < ss.len() && is_state_macro(#[trigger] ss[i]) {
        let i = choose|i: int|
            at < i <= at + 3 && i < ss.len() && is_state_macro(#[trigger] ss[i]);
        assert(calls_macro(ss[i], w));
    }
}

/// The tokens hold a string whose text ends in `suffix`, and no string before it.
pub open spec fn first_string_ends(ts: Seq<Token>, k: int, suffix: Seq<char>) -> bool {
    &&& 0 <= k < ts.len()
    &&& ts[k] matches Token::Literal(s) && s@.len() >= 2 + suffix.len() && s@[0] == '"' && s@.last()
        == '"' && s@.subrange(s@.len() - 1 - suffix.len(), s@.len() - 1) == suffix
    &&& forall|j: int| 0 <= j < k ==> !(#[trigger] ts[j] is Literal)
}

proof fn lemma_label(ts: Seq<Token>, k: int, suffix: Seq<char>, i: int)
    requires
        0 <= i <= k,
        first_string_ends(ts, k, suffix),
    ensures
        label_ends(ts, suffix, i),
    decreases k - i,
{
    if i < k {
        assert(!(ts[i] is Literal));
        lemma_label(ts, k, suffix, i + 1);
    } else if let Token::Literal(text) = ts[k] {
        let s = text@;
        let t = s.subrange(1, s.len() - 1);
        assert(t.subrange(t.len() - suffix.len(), t.len() as int) =~= s.subrange(
            s.len() - 1 - suffix.len(),
            s.len() - 1,
        ));
    }
}

/// The entry counts as noted where one of the first three statements is a `trace_event!` whose first
/// string ends in `:enter`; without a `trace_event!` among them it does not.
pub proof fn law_noted_entry(b: Body, i: int, ts: Seq<Token>, k: int)
    ensures
        0 <= i < 3 && i < b.stmts@.len() && is_macro_with(b.stmts@[i], "trace_event"@, ts)
            && first_string_ends(ts, k, ":enter"@) ==> starts_noted(b),
        (forall|j: int, us: Seq<Token>|
            0 <= j < 3 && j < b.stmts@.len() ==> !#[trigger] is_macro_with(
                b.stmts@[j],
                "trace_event"@,
                us,
            )) ==> !starts_noted(b),
{
    if 0 <= i < 3 && i < b.stmts@.len() && is_macro_with(b.stmts@[i], "trace_event"@, ts)
        && first_string_ends(ts, k, ":enter"@) {
        lemma_macro(b.stmts@[i]);
        lemma_label(ts, k, ":enter"@, 0);
        assert(is_enter_note(b.stmts@[i]));
    }
    if starts_noted(b) {
        let j = choose|j: int|
            0 <= j < b.stmts@.len() && j < 3 && is_enter_note(#[trigger] b.stmts@[j]);
        let mac = stmt_macro(b.stmts@[j])->0;
        lemma_macro(b.stmts@[j]);
        assert(is_macro_of(b.stmts@[j], mac));
        assert(is_macro_with(b.stmts@[j], "trace_event"@, mac.tokens@));
    }
}

// ---------- Attributes and paths, exactly ----------

/// An attribute of one name, or of two parted by `::`, traces a function where it is written
/// `trace_method`, alone or under one of the two crates, and only there.
pub proof fn law_which_attributes_trace(a: Marker, x: Seq<char>, y: Seq<char>)
    ensures
        is_written(a, seq![x]) ==> (is_trace_method(a) <==> x == "trace_method"@ || x
            == "ic_debug_trace::trace_method"@ || x == "ic_debug_trace_macros::trace_method"@),
        is_written(a, seq![x, y]) ==> (is_trace_method(a) <==> x + "::"@ + y == "trace_method"@ || x
            + "::"@ + y == "ic_debug_trace::trace_method"@ || x + "::"@ + y
            == "ic_debug_trace_macros::trace_method"@),
{
    assert(texts(a.path@).len() == a.path@.len());
    lemma_two_joined(x, y);
}

/// One of the names of the attributes that open a function to the outside.
pub open spec fn is_opening(w: Seq<char>) -> bool {
    w == "update"@ || w == "query"@ || w == "heartbeat"@ || w == "inspect_message"@ || w == "init"@
        || w == "post_upgrade"@
}

/// An attribute opens a function to the outside where it is one of the six names, alone or under
/// `ic_cdk` or `ic_cdk_macros`, and only there; those but `query` open it for writing.
pub proof fn law_which_attributes_open(a: Marker, x: Seq<char>, y: Seq<char>)
    ensures
        is_written(a, seq![x]) ==> (is_entry(a) <==> is_opening(x)) && (is_write_entry(a)
            <==> is_opening(x) && x != "query"@),
        is_written(a, seq![x, y]) ==> (is_entry(a) <==> (x == "ic_cdk"@ || x == "ic_cdk_macros"@)
            && is_opening(y)) && (is_write_entry(a) <==> is_opening(y) && y != "query"@),
        a.path@.len() == 0 || a.path@.len() > 2 ==> !is_entry(a),
{
    reveal_strlit("update");
    reveal_strlit("query");
    reveal_strlit("heartbeat");
    reveal_strlit("inspect_message");
    reveal_strlit("init");
    reveal_strlit("post_upgrade");
    assert("update"@.len() == 6 && "query"@.len() == 5 && "heartbeat"@.len() == 9
        && "inspect_message"@.len() == 15 && "init"@.len() == 4 && "post_upgrade"@.len() == 12);
    let p = texts(a.path@);
    assert(p.len() == a.path@.len());
    if p.len() > 0 {
        assert(p[p.len() - 1] == a.path@.last()@);
    }
    if p == seq![x] {
        assert(p[0] == x);
    }
    if p == seq![x, y] {
        assert(p[0] == x && p[1] == y);
    }
}

/// What a function takes and gives is read from the last names of its types.
pub proof fn law_header_and_result(f: Function)
    ensures
        takes_header(f) <==> has_header(f),
        crate::instrument::detect::returns_result(f) <==> gives_result(f),
{
}

/// A query without the header is left alone, whatever its body holds.
pub proof fn law_query_gains_nothing(
    f: Function,
    k: int,
    src: Seq<char>,
    aliases: Map<Seq<char>, Seq<char>>,
    names: Seq<Seq<char>>,
)
    requires
        !has_trace_method(f),
        !has_header(f),
        0 <= k < f.attrs@.len(),
        is_cdk(f.attrs@[k], "query"@),
        forall|j: int| 0 <= j < k ==> !is_entry(#[trigger] f.attrs@[j]),
    ensures
        fn_edits(f, src, aliases, names).len() == 0,
{
    let a = f.attrs@[k];
    lemma_opens(a);
    lemma_only_entry(f.attrs@, 0, k);
    law_which_attributes_open(a, "query"@, "query"@);
    law_which_attributes_open(a, "ic_cdk"@, "query"@);
    law_which_attributes_open(a, "ic_cdk_macros"@, "query"@);
}

/// A function that nothing opens to the outside, and that is not traced, is left alone.
pub proof fn law_inner_function_gains_nothing(
    f: Function,
    src: Seq<char>,
    aliases: Map<Seq<char>, Seq<char>>,
    names: Seq<Seq<char>>,
)
    requires
        !has_trace_method(f),
        forall|j: int| 0 <= j < f.attrs@.len() ==> !is_entry(#[trigger] f.attrs@[j]),
    ensures
        fn_edits(f, src, aliases, names).len() == 0,
{
    lemma_no_entry(f.attrs@, 0);
}

proof fn lemma_no_entry(attrs: Seq<Marker>, i: int)
    requires
        0 <= i,
        forall|j: int| 0 <= j < attrs.len() ==> !is_entry(#[trigger] attrs[j]),
    ensures
        entry_attr(attrs, i) is None,
    decreases attrs.len() - i,
{
    if i < attrs.len() {
        assert(!is_entry(attrs[i]));
        lemma_no_entry(attrs, i + 1);
    }
}

/// A path of two names, or a name that a `use` binds, is taken for what traps, or for what calls a
/// canister, where it is that path or is bound to it, and only there.
pub proof fn law_which_paths_are_followed(e: Expression, ctx: CtxView, x: Seq<char>, y: Seq<char>)
    ensures
        is_path(e, seq![x]) ==> {
            &&& names_target(e, ctx, seq!["ic_cdk::call"@]) <==> ctx.aliases.dom().contains(x)
                && ctx.aliases[x] == "ic_cdk::call"@
            &&& names_target(e, ctx, seq!["ic_cdk::trap"@, "ic_cdk::api::trap"@])
                <==> ctx.aliases.dom().contains(x) && (ctx.aliases[x] == "ic_cdk::trap"@
                || ctx.aliases[x] == "ic_cdk::api::trap"@)
        },
        is_path(e, seq![x, y]) ==> {
            &&& names_target(e, ctx, seq!["ic_cdk::call"@]) <==> x + "::"@ + y == "ic_cdk::call"@
            &&& names_target(e, ctx, seq!["ic_cdk::trap"@, "ic_cdk::api::trap"@]) <==> x + "::"@ + y
                == "ic_cdk::trap"@ || x + "::"@ + y == "ic_cdk::api::trap"@
        },
{
    lemma_two_joined(x, y);
    let c = seq!["ic_cdk::call"@];
    let t = seq!["ic_cdk::trap"@, "ic_cdk::api::trap"@];
    assert(c[0] == "ic_cdk::call"@);
    assert(t[0] == "ic_cdk::trap"@ && t[1] == "ic_cdk::api::trap"@);
    if e.kind is Path {
        let p = texts(e.kind->segments@);
        if p == seq![x] {
            assert(p[0] == x && p.len() == 1);
        }
    }
}

/// What is no call of those two asks for nothing.
pub proof fn law_only_those_calls_ask(
    func: Expression,
    args: Seq<Expression>,
    span: Place,
    ctx: CtxView,
    c: CandidateView,
)
    requires
        call_edits(func, args, span, ctx).contains(c),
    ensures
        c.rule is ConvertCall || c.rule is TrapNote,
        c.rule is ConvertCall ==> args.len() == 3 && names_target(func, ctx, seq!["ic_cdk::call"@]),
        c.rule is TrapNote ==> names_target(
            func,
            ctx,
            seq!["ic_cdk::trap"@, "ic_cdk::api::trap"@],
        ) && !notes(line_before(ctx.src, start_of(ctx.src, span)), ":trapped"@),
{
    let a = listed(convert_call(func, args, span, ctx));
    let b = listed(trap_note(func, span, ctx));
    let all = call_edits(func, args, span, ctx);
    let x = choose|x: int| 0 <= x < all.len() && all[x] == c;
    if x < a.len() {
        assert(a[x] == c);
    } else {
        assert(b[x - a.len()] == c);
    }
}

} // verus!
