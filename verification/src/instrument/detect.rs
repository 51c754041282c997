//! Finding the places of Rust source that want tracing.
//!
//! A rule fires only where what it asks for shows that the edit is right;
//! otherwise it stays silent.

use vstd::prelude::*;
use vstd::string::*;
use vstd::utf8::*;

use crate::instrument::edit::placed;
use crate::instrument::gather::{
    all_placed, lemma_none_placed, lemma_sorted_placed, listed, push_listed,
};
use crate::instrument::mentions::{
    calls_macro, expr_mentions_macro, expr_mentions_method, label_ends, last_is,
    macro_first_arg_string_ends_with, macro_in, macro_path_ident_is, method_in, name_in_tokens,
    stmt_as_macro, stmt_calls_macro, stmt_macro, tokens_mention_ident,
};
use crate::instrument::parse::{ends_in, path_matches, path_target, strs, type_ends_with, AliasMap};
use crate::instrument::syntax::{
    Arg, Body, Entry, ExprKind, Expression, File, Function, Marker, MatchArm, Pattern, Place,
    Statement, StmtKind, Token,
};
use crate::instrument::{
    by_place, edits_view, sort_by_place, views, Candidate, CandidateView, EditView,
    Replacement, ReplacementView, Rule,
};
use crate::text::{
    blen, byte_at, byte_index, chars_of, ends_with, ends_with_str, end_of_line, find, find_c,
    find_char, find_quoted, find_str, join, joined, lemma_byte_at, line_before, line_end,
    line_start, previous_line, quoted, same_text, skip_space, slice, space_end, start_of_line,
    string_of, texts, utf8_len,
};

verus! {

// ---------- Places in the source ----------

/// Where the line `n` lines below the one that begins at `i` begins.
pub open spec fn line_below(s: Seq<char>, i: int, n: nat) -> Option<int>
    decreases n,
{
    if n == 0 {
        Some(i)
    } else {
        let e = line_end(s, i);
        if e < s.len() {
            line_below(s, e + 1, (n - 1) as nat)
        } else {
            None
        }
    }
}

/// The position at a line, which counts from one, and a column, in characters. A column behind
/// the end of its line is taken as that end, and a line behind the last as the start of that.
pub open spec fn position(s: Seq<char>, line: int, col: int) -> int {
    if line <= 0 {
        0
    } else {
        match line_below(s, 0, (line - 1) as nat) {
            Some(start) => if start + col <= line_end(s, start) {
                start + col
            } else {
                line_end(s, start)
            },
            None => line_start(s, s.len() as int),
        }
    }
}

/// Where a part of the source begins.
pub open spec fn start_of(s: Seq<char>, p: Place) -> int {
    position(s, p.start_line as int, p.start_col as int)
}

/// Where a part of the source ends.
pub open spec fn end_of(s: Seq<char>, p: Place) -> int {
    position(s, p.end_line as int, p.end_col as int)
}

/// The text between two positions; none where the second comes before the first.
pub open spec fn between(s: Seq<char>, a: int, b: int) -> Seq<char> {
    if a <= b {
        s.subrange(a, b)
    } else {
        Seq::empty()
    }
}

/// The text of a part of the source.
pub open spec fn text_of(s: Seq<char>, p: Place) -> Seq<char> {
    between(s, start_of(s, p), end_of(s, p))
}

/// The white space that begins the line of position `at`, up to `at`.
pub open spec fn lead(s: Seq<char>, at: int) -> Seq<char> {
    let own = s.subrange(line_start(s, at), at);
    own.subrange(0, skip_space(own, 0))
}

fn find_position(s: &[char], line: usize, col: usize) -> (r: usize)
    ensures
        r == position(s@, line as int, col as int),
        r <= s@.len(),
{
    if line == 0 {
        return 0;
    }
    let n: usize = s.len();
    let mut start: usize = 0;
    let mut left: usize = line - 1;
    while left > 0
        invariant
            n == s@.len(),
            line > 0,
            start <= n,
            line_below(s@, 0, (line - 1) as nat) == line_below(s@, start as int, left as nat),
        decreases left,
    {
        let e = end_of_line(s, start);
        if e >= n {
            return start_of_line(s, n);
        }
        start = e + 1;
        left -= 1;
    }
    let e = end_of_line(s, start);
    if col <= e - start {
        start + col
    } else {
        e
    }
}

fn begin(s: &[char], p: &Place) -> (r: usize)
    ensures
        r == start_of(s@, *p),
        r <= s@.len(),
{
    find_position(s, p.start_line, p.start_col)
}

fn finish(s: &[char], p: &Place) -> (r: usize)
    ensures
        r == end_of(s@, *p),
        r <= s@.len(),
{
    find_position(s, p.end_line, p.end_col)
}

fn read_text(s: &[char], p: &Place) -> (r: String)
    ensures
        r@ == text_of(s@, *p),
{
    let a = begin(s, p);
    let b = finish(s, p);
    if a <= b {
        string_of(slice(s, a, b))
    } else {
        String::new()
    }
}

fn read_lead(s: &[char], at: usize) -> (r: String)
    requires
        at <= s@.len(),
    ensures
        r@ == lead(s@, at as int),
{
    let own = slice(s, start_of_line(s, at), at);
    string_of(slice(own, 0, space_end(own, 0)))
}

/// A line calls `trace_event!` with a text that ends in `suffix`.
pub open spec fn notes(line: Seq<char>, suffix: Seq<char>) -> bool {
    match find(line, "trace_event!("@, 0) {
        Some(at) => match quoted(line, at + "trace_event!("@.len()) {
            Some((x, y)) => ends_with(line.subrange(x, y), suffix),
            None => false,
        },
        None => false,
    }
}

fn line_has_trace_event_with_suffix(line: &[char], suffix: &str) -> (r: bool)
    ensures
        r == notes(line@, suffix@),
{
    let n: usize = line.len();
    proof {
        reveal_strlit("trace_event!(");
    }
    match find_str(line, "trace_event!(", 0) {
        Some(at) => match find_quoted(line, at + 13) {
            Some((x, y)) => ends_with_str(slice(line, x, y), suffix),
            None => false,
        },
        None => false,
    }
}

// ---------- Attributes and signatures ----------

/// The attribute is `#[trace_method]`.
pub open spec fn is_trace_method(a: Marker) -> bool {
    let full = joined(texts(a.path@), "::"@, a.path@.len());
    full == "trace_method"@ || full == "ic_debug_trace_macros::trace_method"@ || full
        == "ic_debug_trace::trace_method"@
}

/// The name of an attribute that makes a function an entry method.
pub open spec fn is_entry_name(w: Seq<char>) -> bool {
    w == "update"@ || w == "query"@ || w == "heartbeat"@ || w == "inspect_message"@ || w == "init"@
        || w == "post_upgrade"@
}

/// The attribute makes a function an entry method: its name alone, or under `ic_cdk` or
/// `ic_cdk_macros`.
pub open spec fn is_entry(a: Marker) -> bool {
    let p = texts(a.path@);
    (p.len() == 1 && is_entry_name(p[0])) || (p.len() == 2 && (p[0] == "ic_cdk"@ || p[0]
        == "ic_cdk_macros"@) && is_entry_name(p[1]))
}

/// The attribute makes a function an entry method that may write.
pub open spec fn is_write_entry(a: Marker) -> bool {
    a.path@.len() > 0 && {
        let w = a.path@.last()@;
        w == "update"@ || w == "heartbeat"@ || w == "inspect_message"@ || w == "init"@ || w
            == "post_upgrade"@
    }
}

/// The first attribute at or after `i` that makes a function an entry method.
pub open spec fn entry_attr(attrs: Seq<Marker>, i: int) -> Option<Marker>
    decreases attrs.len() - i,
{
    if i < 0 || i >= attrs.len() {
        None
    } else if is_entry(attrs[i]) {
        Some(attrs[i])
    } else {
        entry_attr(attrs, i + 1)
    }
}

/// The first parameter is a trace header.
pub open spec fn takes_header(f: Function) -> bool {
    f.inputs@.len() > 0 && (f.inputs@[0] matches Arg::Typed { ty, .. } && ends_in(
        ty,
        "TraceHeader"@,
    ))
}

/// The function has `#[trace_method]`.
pub open spec fn has_trace_method(f: Function) -> bool {
    exists|i: int| 0 <= i < f.attrs@.len() && is_trace_method(#[trigger] f.attrs@[i])
}

/// The function returns a `Result`.
pub open spec fn returns_result(f: Function) -> bool {
    f.output matches Some(ty) && ends_in(ty, "Result"@)
}

fn attr_is_trace_method(a: &Marker) -> (r: bool)
    ensures
        r == is_trace_method(*a),
{
    let full = join(&a.path, "::");
    same_text(full.as_str(), "trace_method") || same_text(
        full.as_str(),
        "ic_debug_trace_macros::trace_method",
    ) || same_text(full.as_str(), "ic_debug_trace::trace_method")
}

fn names_entry(w: &str) -> (r: bool)
    ensures
        r == is_entry_name(w@),
{
    same_text(w, "update") || same_text(w, "query") || same_text(w, "heartbeat") || same_text(
        w,
        "inspect_message",
    ) || same_text(w, "init") || same_text(w, "post_upgrade")
}

fn attr_is_cdk_entry(a: &Marker) -> (r: bool)
    ensures
        r == is_entry(*a),
{
    let n: usize = a.path.len();
    if n == 1 {
        names_entry(a.path[0].as_str())
    } else if n == 2 {
        (same_text(a.path[0].as_str(), "ic_cdk") || same_text(a.path[0].as_str(), "ic_cdk_macros"))
            && names_entry(a.path[1].as_str())
    } else {
        false
    }
}

fn attr_is_cdk_write_entry(a: &Marker) -> (r: bool)
    ensures
        r == is_write_entry(*a),
{
    let n: usize = a.path.len();
    if n == 0 {
        return false;
    }
    let w = a.path[n - 1].as_str();
    same_text(w, "update") || same_text(w, "heartbeat") || same_text(w, "inspect_message")
        || same_text(w, "init") || same_text(w, "post_upgrade")
}

fn find_entry_attr(attrs: &Vec<Marker>) -> (r: Option<&Marker>)
    ensures
        match r {
            Some(a) => entry_attr(attrs@, 0) == Some(*a),
            None => entry_attr(attrs@, 0) is None,
        },
{
    let mut i: usize = 0;
    while i < attrs.len()
        invariant
            i <= attrs@.len(),
            entry_attr(attrs@, 0) == entry_attr(attrs@, i as int),
        decreases attrs@.len() - i,
    {
        if attr_is_cdk_entry(&attrs[i]) {
            return Some(&attrs[i]);
        }
        i += 1;
    }
    None
}

fn is_traced(f: &Function) -> (r: bool)
    ensures
        r == has_trace_method(*f),
{
    let mut i: usize = 0;
    while i < f.attrs.len()
        invariant
            i <= f.attrs@.len(),
            forall|k: int| 0 <= k < i ==> !is_trace_method(#[trigger] f.attrs@[k]),
        decreases f.attrs@.len() - i,
    {
        if attr_is_trace_method(&f.attrs[i]) {
            return true;
        }
        i += 1;
    }
    false
}

fn first_arg_is_trace_header(f: &Function) -> (r: bool)
    ensures
        r == takes_header(*f),
{
    if f.inputs.len() == 0 {
        return false;
    }
    match &f.inputs[0] {
        Arg::Typed { ty, .. } => type_ends_with(ty, "TraceHeader"),
        Arg::Receiver => false,
    }
}

fn sig_returns_result(f: &Function) -> (r: bool)
    ensures
        r == returns_result(*f),
{
    match &f.output {
        Some(ty) => type_ends_with(ty, "Result"),
        None => false,
    }
}

// ---------- Wrapping a function ----------

/// The edit that puts `#[trace_method]` above a function which takes the header.
pub open spec fn wrap_method(f: Function, a: Marker, src: Seq<char>) -> CandidateView {
    let at = start_of(src, a.span);
    CandidateView {
        rule: Rule::WrapMethod,
        start: byte_at(src, at) as int,
        end: byte_at(src, at) as int,
        fn_name: f.ident@,
        summary: "wrap `"@ + f.ident@ + "` with #[trace_method]"@,
        warning: None,
        replacement: ReplacementView::InsertRaw("#[trace_method]\n"@ + lead(src, at)),
    }
}

fn make_wrap_method_candidate(f: &Function, a: &Marker, src: &[char]) -> (c: Candidate)
    requires
        blen(src@) <= usize::MAX,
    ensures
        c@ == wrap_method(*f, *a, src@),
        placed(c@, src@),
{
    let at = begin(src, &a.span);
    let place = byte_index(src, at);
    let mut text = String::from_str("#[trace_method]\n");
    text.append(read_lead(src, at).as_str());
    let mut summary = String::from_str("wrap `");
    summary.append(f.ident.as_str());
    summary.append("` with #[trace_method]");
    Candidate {
        rule: Rule::WrapMethod,
        byte_range: place..place,
        fn_name: f.ident.clone(),
        summary,
        warning: None,
        replacement: Replacement::InsertRaw(text),
    }
}

/// Where the first parameter of a function goes: behind the first `(` after its name.
pub open spec fn params_place(f: Function, src: Seq<char>) -> int {
    let from = end_of(src, f.ident_span);
    match find_char(src, '(', from) {
        Some(open) => open + 1,
        None => if from < src.len() {
            from + 1
        } else {
            from
        },
    }
}

/// What it means for callers that a parameter is added.
pub open spec fn breaking_warning() -> Seq<char> {
    "BREAKING API CHANGE: every caller of this method (including agent-js scripts and other canisters) must be updated to pass a TraceHeader as the first argument."@
}

/// The edit that puts `#[trace_method]` above a function and gives it the header.
pub open spec fn wrap_method_insert_header(f: Function, a: Marker, src: Seq<char>) -> CandidateView {
    let at = start_of(src, a.span);
    let place = byte_at(src, at) as int;
    let open = byte_at(src, params_place(f, src)) as int;
    let param = if f.inputs@.len() == 0 {
        "header: TraceHeader"@
    } else {
        "header: TraceHeader, "@
    };
    CandidateView {
        rule: Rule::WrapMethodInsertHeader,
        start: place,
        end: place,
        fn_name: f.ident@,
        summary: "wrap `"@ + f.ident@
            + "` with #[trace_method] AND insert `header: TraceHeader` first param"@,
        warning: Some(breaking_warning()),
        replacement: ReplacementView::Multi(
            seq![
                EditView { start: place, end: place, text: "#[trace_method]\n"@ + lead(src, at) },
                EditView { start: open, end: open, text: param },
            ],
        ),
    }
}

fn make_wrap_method_insert_header_candidate(f: &Function, a: &Marker, src: &[char]) -> (c:
    Candidate)
    requires
        blen(src@) <= usize::MAX,
    ensures
        c@ == wrap_method_insert_header(*f, *a, src@),
        placed(c@, src@),
{
    let n: usize = src.len();
    let at = begin(src, &a.span);
    let place = byte_index(src, at);
    let mut text = String::from_str("#[trace_method]\n");
    text.append(read_lead(src, at).as_str());
    let from = finish(src, &f.ident_span);
    let after: usize = match find_c(src, '(', from) {
        Some(open) => open + 1,
        None => if from < n {
            from + 1
        } else {
            from
        },
    };
    let open = byte_index(src, after);
    let param = if f.inputs.len() == 0 {
        String::from_str("header: TraceHeader")
    } else {
        String::from_str("header: TraceHeader, ")
    };
    let mut summary = String::from_str("wrap `");
    summary.append(f.ident.as_str());
    summary.append("` with #[trace_method] AND insert `header: TraceHeader` first param");
    let mut edits: Vec<(std::ops::Range<usize>, String)> = Vec::new();
    edits.push((place..place, text));
    edits.push((open..open, param));
    assert(edits_view(edits@) =~= wrap_method_insert_header(*f, *a, src@).replacement->Multi_0);
    let warning = String::from_str(
        "BREAKING API CHANGE: every caller of this method (including agent-js scripts and other canisters) must be updated to pass a TraceHeader as the first argument.",
    );
    Candidate {
        rule: Rule::WrapMethodInsertHeader,
        byte_range: place..place,
        fn_name: f.ident.clone(),
        summary,
        warning: Some(warning),
        replacement: Replacement::Multi(edits),
    }
}

// ---------- The entry note ----------

/// The statement notes the entry of a method.
pub open spec fn is_enter_note(s: Statement) -> bool {
    stmt_macro(s) matches Some(mac) && last_is(mac.path@, "trace_event"@) && label_ends(
        mac.tokens@,
        ":enter"@,
        0,
    )
}

/// One of the first three statements notes the entry of a method.
pub open spec fn starts_noted(b: Body) -> bool {
    exists|i: int| 0 <= i < b.stmts@.len() && i < 3 && is_enter_note(#[trigger] b.stmts@[i])
}

/// The edit that notes the entry of a traced function, unless it is noted or the body is empty.
pub open spec fn entry_note(f: Function, src: Seq<char>) -> Option<CandidateView> {
    if starts_noted(f.block) || f.block.stmts@.len() == 0 {
        None
    } else {
        let at = start_of(src, f.block.stmts@[0].span);
        Some(
            CandidateView {
                rule: Rule::EntryNote,
                start: byte_at(src, at) as int,
                end: byte_at(src, at) as int,
                fn_name: f.ident@,
                summary: "emit trace_event!(\""@ + f.ident@ + ":enter\") at top of body"@,
                warning: None,
                replacement: ReplacementView::InsertRaw(
                    "trace_event!(\""@ + f.ident@ + ":enter\");\n"@ + lead(src, at),
                ),
            },
        )
    }
}

fn stmt_is_trace_event_enter(s: &Statement) -> (r: bool)
    ensures
        r == is_enter_note(*s),
{
    match stmt_as_macro(s) {
        Some(mac) => macro_path_ident_is(&mac.path, "trace_event")
            && macro_first_arg_string_ends_with(&mac.tokens, ":enter"),
        None => false,
    }
}

fn first_stmts_contain_entry_note(b: &Body) -> (r: bool)
    ensures
        r == starts_noted(*b),
{
    let mut i: usize = 0;
    while i < b.stmts.len() && i < 3
        invariant
            i <= b.stmts@.len(),
            i <= 3,
            forall|k: int| 0 <= k < i ==> !is_enter_note(#[trigger] b.stmts@[k]),
        decreases b.stmts@.len() - i,
    {
        if stmt_is_trace_event_enter(&b.stmts[i]) {
            return true;
        }
        i += 1;
    }
    false
}

fn scan_entry_note(f: &Function, src: &[char]) -> (r: Option<Candidate>)
    requires
        blen(src@) <= usize::MAX,
    ensures
        match r {
            Some(c) => entry_note(*f, src@) == Some(c@) && placed(c@, src@),
            None => entry_note(*f, src@) is None,
        },
{
    if first_stmts_contain_entry_note(&f.block) || f.block.stmts.len() == 0 {
        return None;
    }
    let at = begin(src, &f.block.stmts[0].span);
    let place = byte_index(src, at);
    let mut text = String::from_str("trace_event!(\"");
    text.append(f.ident.as_str());
    text.append(":enter\");\n");
    text.append(read_lead(src, at).as_str());
    let mut summary = String::from_str("emit trace_event!(\"");
    summary.append(f.ident.as_str());
    summary.append(":enter\") at top of body");
    Some(
        Candidate {
            rule: Rule::EntryNote,
            byte_range: place..place,
            fn_name: f.ident.clone(),
            summary,
            warning: None,
            replacement: Replacement::InsertRaw(text),
        },
    )
}

// ---------- What the rules for a body know ----------

/// What the rules for a body know of the function and the file.
pub struct Ctx<'a> {
    pub fn_name: &'a str,
    pub returns_result: bool,
    pub aliases: &'a AliasMap,
    /// The `thread_local!` containers of the file.
    pub containers: &'a Vec<String>,
    pub src: &'a [char],
}

/// What the rules for a body know, as a mathematical value.
pub struct CtxView {
    pub fn_name: Seq<char>,
    pub returns_result: bool,
    pub aliases: Map<Seq<char>, Seq<char>>,
    pub containers: Seq<Seq<char>>,
    pub src: Seq<char>,
}

impl<'a> View for Ctx<'a> {
    type V = CtxView;

    open spec fn view(&self) -> CtxView {
        CtxView {
            fn_name: self.fn_name@,
            returns_result: self.returns_result,
            aliases: self.aliases@,
            containers: texts(self.containers@),
            src: self.src@,
        }
    }
}

// ---------- Calls ----------

/// The path that an expression is, without a `<T as ..>` before it.
pub open spec fn plain_path(e: Expression) -> Option<Seq<Seq<char>>> {
    match e.kind {
        ExprKind::Path { segments, qself } => if qself {
            None
        } else {
            Some(texts(segments@))
        },
        _ => None,
    }
}

/// The expression is a path to one of `targets`.
pub open spec fn names_target(e: Expression, ctx: CtxView, targets: Seq<Seq<char>>) -> bool {
    plain_path(e) matches Some(p) && path_target(p, ctx.aliases, targets) is Some
}

fn is_call_to(e: &Expression, ctx: &Ctx, targets: &[&str]) -> (r: bool)
    ensures
        r == names_target(*e, ctx@, strs(targets@)),
{
    match &e.kind {
        ExprKind::Path { segments, qself } => !*qself && path_matches(
            segments,
            ctx.aliases,
            targets,
        ).is_some(),
        _ => false,
    }
}

/// The edit that makes an `ic_cdk::call` of three arguments a `call_traced!`.
pub open spec fn convert_call(
    func: Expression,
    args: Seq<Expression>,
    span: Place,
    ctx: CtxView,
) -> Option<CandidateView> {
    let src = ctx.src;
    if !names_target(func, ctx, seq!["ic_cdk::call"@]) || args.len() != 3 || start_of(src, span)
        > end_of(src, span) {
        None
    } else {
        Some(
            CandidateView {
                rule: Rule::ConvertCall,
                start: byte_at(src, start_of(src, span)) as int,
                end: byte_at(src, end_of(src, span)) as int,
                fn_name: ctx.fn_name,
                summary: "convert ic_cdk::call to call_traced!"@,
                warning: Some(
                    "the callee canister MUST accept TraceHeader as its first argument"@,
                ),
                replacement: ReplacementView::Replace(
                    "call_traced!("@ + text_of(src, args[0].span) + ", "@ + text_of(
                        src,
                        args[1].span,
                    ) + ", "@ + text_of(src, args[2].span)
                        + ")  /* TODO: confirm return type */"@,
                ),
            },
        )
    }
}

fn rule_convert_call(func: &Expression, args: &Vec<Expression>, span: &Place, ctx: &Ctx) -> (r:
    Option<Candidate>)
    requires
        blen(ctx.src@) <= usize::MAX,
    ensures
        match r {
            Some(c) => convert_call(*func, args@, *span, ctx@) == Some(c@) && placed(
                c@,
                ctx.src@,
            ),
            None => convert_call(*func, args@, *span, ctx@) is None,
        },
{
    let targets = ["ic_cdk::call"];
    assert(strs(targets@) =~= seq!["ic_cdk::call"@]);
    let from = begin(ctx.src, span);
    let to = finish(ctx.src, span);
    if !is_call_to(func, ctx, &targets) || args.len() != 3 || from > to {
        return None;
    }
    proof {
        lemma_byte_at(ctx.src@, from as int, to as int);
    }
    let start = byte_index(ctx.src, from);
    let end = byte_index(ctx.src, to);
    let mut text = String::from_str("call_traced!(");
    text.append(read_text(ctx.src, &args[0].span).as_str());
    text.append(", ");
    text.append(read_text(ctx.src, &args[1].span).as_str());
    text.append(", ");
    text.append(read_text(ctx.src, &args[2].span).as_str());
    text.append(")  /* TODO: confirm return type */");
    Some(
        Candidate {
            rule: Rule::ConvertCall,
            byte_range: start..end,
            fn_name: String::from_str(ctx.fn_name),
            summary: String::from_str("convert ic_cdk::call to call_traced!"),
            warning: Some(
                String::from_str(
                    "the callee canister MUST accept TraceHeader as its first argument",
                ),
            ),
            replacement: Replacement::Replace(text),
        },
    )
}

/// The edit that notes `suffix` on the line above the one that holds position `at`, unless the
/// line above has such a note.
pub open spec fn note_above(
    rule: Rule,
    suffix: Seq<char>,
    what: Seq<char>,
    at: int,
    ctx: CtxView,
) -> Option<CandidateView> {
    let src = ctx.src;
    if notes(line_before(src, at), suffix) {
        None
    } else {
        Some(
            CandidateView {
                rule,
                start: byte_at(src, line_start(src, at)) as int,
                end: byte_at(src, line_start(src, at)) as int,
                fn_name: ctx.fn_name,
                summary: "emit trace_event!(\""@ + ctx.fn_name + suffix + "\") before this "@
                    + what,
                warning: None,
                replacement: ReplacementView::InsertRaw(
                    lead(src, at) + "trace_event!(\""@ + ctx.fn_name + suffix + "\");\n"@,
                ),
            },
        )
    }
}

fn make_note_above(rule: Rule, suffix: &str, what: &str, at: usize, ctx: &Ctx) -> (r: Option<
    Candidate,
>)
    requires
        blen(ctx.src@) <= usize::MAX,
        at <= ctx.src@.len(),
    ensures
        match r {
            Some(c) => note_above(rule, suffix@, what@, at as int, ctx@) == Some(c@) && placed(
                c@,
                ctx.src@,
            ),
            None => note_above(rule, suffix@, what@, at as int, ctx@) is None,
        },
{
    if line_has_trace_event_with_suffix(previous_line(ctx.src, at), suffix) {
        return None;
    }
    let place = byte_index(ctx.src, start_of_line(ctx.src, at));
    let mut text = read_lead(ctx.src, at);
    text.append("trace_event!(\"");
    text.append(ctx.fn_name);
    text.append(suffix);
    text.append("\");\n");
    let mut summary = String::from_str("emit trace_event!(\"");
    summary.append(ctx.fn_name);
    summary.append(suffix);
    summary.append("\") before this ");
    summary.append(what);
    Some(
        Candidate {
            rule,
            byte_range: place..place,
            fn_name: String::from_str(ctx.fn_name),
            summary,
            warning: None,
            replacement: Replacement::InsertRaw(text),
        },
    )
}

/// The edit that notes a trap.
pub open spec fn trap_note(func: Expression, span: Place, ctx: CtxView) -> Option<CandidateView> {
    if names_target(func, ctx, seq!["ic_cdk::trap"@, "ic_cdk::api::trap"@]) {
        note_above(Rule::TrapNote, ":trapped"@, "trap"@, start_of(ctx.src, span), ctx)
    } else {
        None
    }
}

fn rule_trap_note(func: &Expression, span: &Place, ctx: &Ctx) -> (r: Option<Candidate>)
    requires
        blen(ctx.src@) <= usize::MAX,
    ensures
        match r {
            Some(c) => trap_note(*func, *span, ctx@) == Some(c@) && placed(c@, ctx.src@),
            None => trap_note(*func, *span, ctx@) is None,
        },
{
    let targets = ["ic_cdk::trap", "ic_cdk::api::trap"];
    assert(strs(targets@) =~= seq!["ic_cdk::trap"@, "ic_cdk::api::trap"@]);
    if is_call_to(func, ctx, &targets) {
        make_note_above(Rule::TrapNote, ":trapped", "trap", begin(ctx.src, span), ctx)
    } else {
        None
    }
}

// ---------- Statements ----------

/// The name that a pattern binds, with or without a type.
pub open spec fn bound_name(p: Pattern) -> Option<Seq<char>> {
    match p {
        Pattern::Ident(i) => Some(i@),
        Pattern::Typed(inner) => match *inner {
            Pattern::Ident(i) => Some(i@),
            _ => None,
        },
        Pattern::Other => None,
    }
}

fn read_bound_name(p: &Pattern) -> (r: Option<&String>)
    ensures
        match r {
            Some(i) => bound_name(*p) == Some(i@),
            None => bound_name(*p) is None,
        },
{
    match p {
        Pattern::Ident(i) => Some(i),
        Pattern::Typed(inner) => match &**inner {
            Pattern::Ident(i) => Some(i),
            _ => None,
        },
        Pattern::Other => None,
    }
}

/// The statement takes a snapshot of `name`.
pub open spec fn snapshots(s: Statement, name: Seq<char>) -> bool {
    stmt_macro(s) matches Some(mac) && last_is(mac.path@, "trace_state"@) && name_in_tokens(
        mac.tokens@,
        mac.tokens@.len(),
        name,
    )
}

/// One of the ten statements after the one at `at` takes a snapshot of `name`.
pub open spec fn snapshot_follows(ss: Seq<Statement>, at: int, name: Seq<char>) -> bool {
    exists|i: int|
        at < i <= at + 10 && i < ss.len() && snapshots(#[trigger] ss[i], name)
}

/// The edit that snapshots a struct after the `let` that builds it.
pub open spec fn snapshot_local(ss: Seq<Statement>, at: int, ctx: CtxView) -> Option<
    CandidateView,
> {
    match ss[at].kind {
        StmtKind::Local { pat, init: Some(init) } => match bound_name(pat) {
            Some(name) => if init.kind is Struct && !snapshot_follows(ss, at, name) {
                let end = byte_at(ctx.src, end_of(ctx.src, ss[at].span)) as int;
                Some(
                    CandidateView {
                        rule: Rule::SnapshotLocal,
                        start: end,
                        end,
                        fn_name: ctx.fn_name,
                        summary: "snapshot `"@ + name + "` after construction"@,
                        warning: None,
                        replacement: ReplacementView::InsertAfterWithKey {
                            template: "\n"@ + lead(ctx.src, start_of(ctx.src, ss[at].span))
                                + "trace_state!(\"{KEY}\", &"@ + name + ");"@,
                            default_key: name,
                        },
                    },
                )
            } else {
                None
            },
            None => None,
        },
        _ => None,
    }
}

fn is_snapshot_of(s: &Statement, name: &str) -> (r: bool)
    ensures
        r == snapshots(*s, name@),
{
    match stmt_as_macro(s) {
        Some(mac) => macro_path_ident_is(&mac.path, "trace_state") && tokens_mention_ident(
            &mac.tokens,
            name,
        ),
        None => false,
    }
}

fn snapshot_comes(ss: &Vec<Statement>, at: usize, name: &str) -> (r: bool)
    requires
        at < ss@.len(),
    ensures
        r == snapshot_follows(ss@, at as int, name@),
{
    let n: usize = ss.len();
    let mut i: usize = at + 1;
    while i < n && i - at <= 10
        invariant
            n == ss@.len(),
            at < i <= n,
            i - at <= 11,
            forall|k: int| at < k < i ==> !snapshots(#[trigger] ss@[k], name@),
        decreases n - i,
    {
        if is_snapshot_of(&ss[i], name) {
            return true;
        }
        i += 1;
    }
    false
}

fn rule_snapshot_local(ss: &Vec<Statement>, at: usize, ctx: &Ctx) -> (r: Option<Candidate>)
    requires
        at < ss@.len(),
        blen(ctx.src@) <= usize::MAX,
    ensures
        match r {
            Some(c) => snapshot_local(ss@, at as int, ctx@) == Some(c@) && placed(c@, ctx.src@),
            None => snapshot_local(ss@, at as int, ctx@) is None,
        },
{
    let stmt = &ss[at];
    let (pat, init) = match &stmt.kind {
        StmtKind::Local { pat, init: Some(init) } => (pat, init),
        _ => {
            return None;
        },
    };
    let name = match read_bound_name(pat) {
        Some(name) => name,
        None => {
            return None;
        },
    };
    let is_struct = match &init.kind {
        ExprKind::Struct => true,
        _ => false,
    };
    if !is_struct || snapshot_comes(ss, at, name.as_str()) {
        return None;
    }
    let end = byte_index(ctx.src, finish(ctx.src, &stmt.span));
    let mut template = String::from_str("\n");
    template.append(read_lead(ctx.src, begin(ctx.src, &stmt.span)).as_str());
    template.append("trace_state!(\"{KEY}\", &");
    template.append(name.as_str());
    template.append(");");
    let mut summary = String::from_str("snapshot `");
    summary.append(name.as_str());
    summary.append("` after construction");
    Some(
        Candidate {
            rule: Rule::SnapshotLocal,
            byte_range: end..end,
            fn_name: String::from_str(ctx.fn_name),
            summary,
            warning: None,
            replacement: Replacement::InsertAfterWithKey { template, default_key: name.clone() },
        },
    )
}

/// The statement is a literal `return Err(..)`.
pub open spec fn returns_err(s: Statement) -> bool {
    match s.kind {
        StmtKind::Expr { expr, .. } => match expr.kind {
            ExprKind::Return(Some(value)) => match value.kind {
                ExprKind::Call { func, .. } => match func.kind {
                    ExprKind::Path { segments, .. } => last_is(segments@, "Err"@),
                    _ => false,
                },
                _ => false,
            },
            _ => false,
        },
        _ => false,
    }
}

fn return_is_err(s: &Statement) -> (r: bool)
    ensures
        r == returns_err(*s),
{
    match &s.kind {
        StmtKind::Expr { expr, .. } => match &expr.kind {
            ExprKind::Return(Some(value)) => match &value.kind {
                ExprKind::Call { func, .. } => match &func.kind {
                    ExprKind::Path { segments, .. } => macro_path_ident_is(segments, "Err"),
                    _ => false,
                },
                _ => false,
            },
            _ => false,
        },
        _ => false,
    }
}

/// The edit that notes a rollback before a literal `return Err(..)`, where the function returns
/// a `Result` and `traced` says that state was recorded before.
pub open spec fn rollback_note(s: Statement, ctx: CtxView, traced: bool) -> Option<CandidateView> {
    if ctx.returns_result && traced && returns_err(s) {
        note_above(Rule::RollbackNote, ":rollback"@, "return"@, start_of(ctx.src, s.span), ctx)
    } else {
        None
    }
}

fn rule_rollback_note(s: &Statement, ctx: &Ctx, traced: bool) -> (r: Option<Candidate>)
    requires
        blen(ctx.src@) <= usize::MAX,
    ensures
        match r {
            Some(c) => rollback_note(*s, ctx@, traced) == Some(c@) && placed(c@, ctx.src@),
            None => rollback_note(*s, ctx@, traced) is None,
        },
{
    if ctx.returns_result && traced && return_is_err(s) {
        make_note_above(Rule::RollbackNote, ":rollback", "return", begin(ctx.src, &s.span), ctx)
    } else {
        None
    }
}

// ---------- Changes of a container ----------

/// What `NAME.with(closure)` is made of.
pub struct WithCall {
    pub receiver: Seq<char>,
    pub closure: Expression,
}

/// The call `NAME.with(closure)` that an expression is, perhaps in parentheses or awaited.
pub open spec fn with_call(e: Expression) -> Option<WithCall>
    decreases e,
{
    match e.kind {
        ExprKind::MethodCall { receiver, method, args } => {
            if method@ == "with"@ && args@.len() == 1 {
                match (plain_path(*receiver), args@[0].kind) {
                    (Some(p), ExprKind::Closure(body)) => if p.len() == 1 {
                        Some(WithCall { receiver: p[0], closure: *body })
                    } else {
                        None
                    },
                    _ => None,
                }
            } else {
                None
            }
        },
        ExprKind::Await(inner) => with_call(*inner),
        ExprKind::Paren(inner) => with_call(*inner),
        _ => None,
    }
}

fn find_with_call(e: &Expression) -> (r: Option<(&String, &Expression)>)
    ensures
        match r {
            Some((name, closure)) => with_call(*e) == Some(
                WithCall { receiver: name@, closure: *closure },
            ),
            None => with_call(*e) is None,
        },
    decreases *e,
{
    match &e.kind {
        ExprKind::MethodCall { receiver, method, args } => {
            if !same_text(method.as_str(), "with") || args.len() != 1 {
                return None;
            }
            match &receiver.kind {
                ExprKind::Path { segments, qself } => {
                    if *qself || segments.len() != 1 {
                        return None;
                    }
                    match &args[0].kind {
                        ExprKind::Closure(body) => Some((&segments[0], body)),
                        _ => None,
                    }
                },
                _ => None,
            }
        },
        ExprKind::Await(inner) => find_with_call(inner),
        ExprKind::Paren(inner) => find_with_call(inner),
        _ => None,
    }
}

/// The lower-case form of a text, as `str::to_lowercase` gives it.
pub uninterp spec fn lowercase(s: Seq<char>) -> Seq<char>;

/// Calls `str::to_lowercase`, whose result depends on the text alone.
#[verifier::external_body]
fn to_lowercase(s: &str) -> (r: String)
    ensures
        r@ == lowercase(s@),
{
    s.to_lowercase()
}

/// One of the three statements after the one at `at` takes a snapshot.
pub open spec fn state_follows(ss: Seq<Statement>, at: int) -> bool {
    exists|i: int|
        at < i <= at + 3 && i < ss.len() && calls_macro(#[trigger] ss[i], "trace_state"@)
}

fn state_comes(ss: &Vec<Statement>, at: usize) -> (r: bool)
    requires
        at < ss@.len(),
    ensures
        r == state_follows(ss@, at as int),
{
    let n: usize = ss.len();
    let mut i: usize = at + 1;
    while i < n && i - at <= 3
        invariant
            n == ss@.len(),
            at < i <= n,
            i - at <= 4,
            forall|k: int| at < k < i ==> !calls_macro(#[trigger] ss@[k], "trace_state"@),
        decreases n - i,
    {
        if stmt_calls_macro(&ss[i], "trace_state") {
            return true;
        }
        i += 1;
    }
    false
}

/// The call on a container of the file that the statement at `at` is, where it changes the
/// container and no snapshot is taken in it or in the three statements after it.
pub open spec fn mutated(ss: Seq<Statement>, at: int, ctx: CtxView) -> Option<Seq<char>> {
    match ss[at].kind {
        StmtKind::Expr { expr, semi } => match with_call(*expr) {
            Some(call) => if semi && ctx.containers.contains(call.receiver) && method_in(
                call.closure,
                "borrow_mut"@,
            ) && !macro_in(call.closure, "trace_state"@) && !state_follows(ss, at) {
                Some(call.receiver)
            } else {
                None
            },
            None => None,
        },
        _ => None,
    }
}

/// What the user is asked for.
pub open spec fn mutation_warning() -> Seq<char> {
    "you'll be asked for the snapshot key and value expression. Pick a value that captures what changed (e.g. `&new_lock`) — the wizard cannot infer it from the closure body."@
}

/// The edit that snapshots a container, named `name`, after the statement at `at`; `key` is its
/// name in lower case.
pub open spec fn snapshot_after(
    span: Place,
    name: Seq<char>,
    key: Seq<char>,
    ctx: CtxView,
) -> CandidateView {
    let end = byte_at(ctx.src, end_of(ctx.src, span)) as int;
    CandidateView {
        rule: Rule::MutationSnapshot,
        start: end,
        end,
        fn_name: ctx.fn_name,
        summary: "snapshot state after `"@ + name + ".with(...)` mutation"@,
        warning: Some(mutation_warning()),
        replacement: ReplacementView::InsertWithKeyAndValue {
            template: "\n"@ + lead(ctx.src, start_of(ctx.src, span))
                + "trace_state!(\"{KEY}\", {VALUE});"@,
            default_key: key,
            value_hint: "&"@ + key,
        },
    }
}

/// The edit that snapshots a container after a statement that changes it.
pub open spec fn mutation_snapshot(ss: Seq<Statement>, at: int, ctx: CtxView) -> Option<
    CandidateView,
> {
    match mutated(ss, at, ctx) {
        Some(name) => Some(snapshot_after(ss[at].span, name, lowercase(name), ctx)),
        None => None,
    }
}

fn holds_name(names: &Vec<String>, name: &str) -> (r: bool)
    ensures
        r == texts(names@).contains(name@),
{
    let mut i: usize = 0;
    while i < names.len()
        invariant
            i <= names@.len(),
            forall|k: int| 0 <= k < i ==> #[trigger] texts(names@)[k] != name@,
        decreases names@.len() - i,
    {
        if same_text(names[i].as_str(), name) {
            assert(texts(names@)[i as int] == name@);
            return true;
        }
        i += 1;
    }
    false
}

/// The edit that snapshots a container, named `name`, after a statement; `key` is its name in
/// lower case.
pub fn make_mutation_snapshot(span: &Place, name: &str, key: &str, ctx: &Ctx) -> (c: Candidate)
    requires
        blen(ctx.src@) <= usize::MAX,
    ensures
        c@ == snapshot_after(*span, name@, key@, ctx@),
        placed(c@, ctx.src@),
{
    let end = byte_index(ctx.src, finish(ctx.src, span));
    let mut template = String::from_str("\n");
    template.append(read_lead(ctx.src, begin(ctx.src, span)).as_str());
    template.append("trace_state!(\"{KEY}\", {VALUE});");
    let mut value_hint = String::from_str("&");
    value_hint.append(key);
    let mut summary = String::from_str("snapshot state after `");
    summary.append(name);
    summary.append(".with(...)` mutation");
    let warning = String::from_str(
        "you'll be asked for the snapshot key and value expression. Pick a value that captures what changed (e.g. `&new_lock`) — the wizard cannot infer it from the closure body.",
    );
    Candidate {
        rule: Rule::MutationSnapshot,
        byte_range: end..end,
        fn_name: String::from_str(ctx.fn_name),
        summary,
        warning: Some(warning),
        replacement: Replacement::InsertWithKeyAndValue {
            template,
            default_key: String::from_str(key),
            value_hint,
        },
    }
}

fn rule_mutation_snapshot(ss: &Vec<Statement>, at: usize, ctx: &Ctx) -> (r: Option<Candidate>)
    requires
        at < ss@.len(),
        blen(ctx.src@) <= usize::MAX,
    ensures
        match r {
            Some(c) => mutation_snapshot(ss@, at as int, ctx@) == Some(c@) && placed(
                c@,
                ctx.src@,
            ),
            None => mutation_snapshot(ss@, at as int, ctx@) is None,
        },
{
    let expr = match &ss[at].kind {
        StmtKind::Expr { expr, semi: true } => expr,
        _ => {
            return None;
        },
    };
    match find_with_call(expr) {
        Some((name, closure)) => {
            if holds_name(ctx.containers, name.as_str()) && expr_mentions_method(
                closure,
                "borrow_mut",
            ) && !expr_mentions_macro(closure, "trace_state") && !state_comes(ss, at) {
                let key = to_lowercase(name.as_str());
                Some(make_mutation_snapshot(&ss[at].span, name.as_str(), key.as_str(), ctx))
            } else {
                None
            }
        },
        None => None,
    }
}

// ---------- The walk ----------

/// The edits that a call wants by itself.
pub open spec fn call_edits(
    func: Expression,
    args: Seq<Expression>,
    span: Place,
    ctx: CtxView,
) -> Seq<CandidateView> {
    listed(convert_call(func, args, span, ctx)) + listed(trap_note(func, span, ctx))
}

/// The edits that an expression and what it holds want. Closures and async blocks are not looked
/// into: what is inserted there would run at another time. `traced` says that state was recorded
/// before.
pub open spec fn expr_edits(e: Expression, ctx: CtxView, traced: bool) -> Seq<CandidateView>
    decreases e, 0nat,
{
    match e.kind {
        ExprKind::Block(body) => body_edits(body, ctx, traced),
        ExprKind::If { cond, body, otherwise } => {
            expr_edits(*cond, ctx, traced) + body_edits(body, ctx, traced)
                + opt_edits(otherwise, ctx, traced)
        },
        ExprKind::Match { expr, arms } => {
            expr_edits(*expr, ctx, traced) + arms_edits(arms@, arms@.len(), ctx, traced)
        },
        ExprKind::While { cond, body } => {
            expr_edits(*cond, ctx, traced) + body_edits(body, ctx, traced)
        },
        ExprKind::ForLoop { expr, body } => {
            expr_edits(*expr, ctx, traced) + body_edits(body, ctx, traced)
        },
        ExprKind::Loop(body) => body_edits(body, ctx, traced),
        ExprKind::Unsafe(body) => body_edits(body, ctx, traced),
        ExprKind::Return(value) => opt_edits(value, ctx, traced),
        ExprKind::Try(inner) => expr_edits(*inner, ctx, traced),
        ExprKind::Await(inner) => expr_edits(*inner, ctx, traced),
        ExprKind::MethodCall { receiver, args, .. } => {
            expr_edits(*receiver, ctx, traced) + exprs_edits(args@, args@.len(), ctx, traced)
        },
        ExprKind::Call { func, args } => {
            call_edits(*func, args@, e.span, ctx) + expr_edits(*func, ctx, traced)
                + exprs_edits(args@, args@.len(), ctx, traced)
        },
        ExprKind::Binary(left, right) => {
            expr_edits(*left, ctx, traced) + expr_edits(*right, ctx, traced)
        },
        ExprKind::Unary(inner) => expr_edits(*inner, ctx, traced),
        ExprKind::Let(inner) => expr_edits(*inner, ctx, traced),
        ExprKind::Reference(inner) => expr_edits(*inner, ctx, traced),
        ExprKind::Tuple(elems) => exprs_edits(elems@, elems@.len(), ctx, traced),
        ExprKind::Array(elems) => exprs_edits(elems@, elems@.len(), ctx, traced),
        ExprKind::Paren(inner) => expr_edits(*inner, ctx, traced),
        _ => Seq::empty(),
    }
}

/// The edits that an expression wants, where there is one.
pub open spec fn opt_edits(e: Option<Box<Expression>>, ctx: CtxView, traced: bool) -> Seq<
    CandidateView,
>
    decreases e, 0nat,
{
    match e {
        Some(inner) => expr_edits(*inner, ctx, traced),
        None => Seq::empty(),
    }
}

/// The edits that the first `n` expressions want.
pub open spec fn exprs_edits(es: Seq<Expression>, n: nat, ctx: CtxView, traced: bool) -> Seq<
    CandidateView,
>
    decreases es, n,
{
    if n == 0 || n > es.len() {
        Seq::empty()
    } else {
        exprs_edits(es, (n - 1) as nat, ctx, traced) + expr_edits(es[n - 1], ctx, traced)
    }
}

/// The edits that the first `n` arms want, guard by guard and body by body.
pub open spec fn arms_edits(arms: Seq<MatchArm>, n: nat, ctx: CtxView, traced: bool) -> Seq<
    CandidateView,
>
    decreases arms, n,
{
    if n == 0 || n > arms.len() {
        Seq::empty()
    } else {
        arms_edits(arms, (n - 1) as nat, ctx, traced) + (opt_edits(
            arms[n - 1].guard,
            ctx,
            traced,
        ) + expr_edits(*arms[n - 1].body, ctx, traced))
    }
}

/// One of the first `n` statements records state.
pub open spec fn records_state(ss: Seq<Statement>, n: nat) -> bool
    decreases n,
{
    if n == 0 || n > ss.len() {
        false
    } else {
        records_state(ss, (n - 1) as nat) || calls_macro(ss[n - 1], "trace_state"@)
    }
}

/// The edits that what a statement holds wants.
pub open spec fn inner_edits(s: Statement, ctx: CtxView, traced: bool) -> Seq<CandidateView>
    decreases s, 0nat,
{
    match s.kind {
        StmtKind::Local { init: Some(init), .. } => expr_edits(*init, ctx, traced),
        StmtKind::Expr { expr, .. } => expr_edits(*expr, ctx, traced),
        _ => Seq::empty(),
    }
}

/// The edits that the statement at `at` wants by itself.
pub open spec fn own_edits(ss: Seq<Statement>, at: int, ctx: CtxView, traced: bool) -> Seq<
    CandidateView,
> {
    listed(snapshot_local(ss, at, ctx)) + listed(rollback_note(ss[at], ctx, traced)) + listed(
        mutation_snapshot(ss, at, ctx),
    )
}

/// The edits that the first `n` statements of a block want. State that was recorded before the
/// block, or in it before a statement, counts as recorded for the statement and what it holds.
pub open spec fn stmts_edits(ss: Seq<Statement>, n: nat, ctx: CtxView, traced: bool) -> Seq<
    CandidateView,
>
    decreases ss, n,
{
    if n == 0 || n > ss.len() {
        Seq::empty()
    } else {
        let now = traced || records_state(ss, n);
        stmts_edits(ss, (n - 1) as nat, ctx, traced) + (own_edits(ss, n - 1, ctx, now)
            + inner_edits(ss[n - 1], ctx, now))
    }
}

/// The edits that a block wants.
pub open spec fn body_edits(b: Body, ctx: CtxView, traced: bool) -> Seq<CandidateView>
    decreases b, 0nat,
{
    stmts_edits(b.stmts@, b.stmts@.len(), ctx, traced)
}

fn scan_call(
    func: &Expression,
    args: &Vec<Expression>,
    span: &Place,
    ctx: &Ctx,
    out: &mut Vec<Candidate>,
)
    requires
        blen(ctx.src@) <= usize::MAX,
        all_placed(views(old(out)@), ctx.src@),
    ensures
        all_placed(views(final(out)@), ctx.src@),
        views(final(out)@) == views(old(out)@) + call_edits(*func, args@, *span, ctx@),
{
    let ghost start = views(out@);
    push_listed(out, rule_convert_call(func, args, span, ctx), ctx.src);
    push_listed(out, rule_trap_note(func, span, ctx), ctx.src);
    assert(views(out@) =~= start + call_edits(*func, args@, *span, ctx@));
}

proof fn lemma_two_parts<A>(s: Seq<A>, x: Seq<A>, y: Seq<A>)
    ensures
        s + x + y == s + (x + y),
{
    assert(s + x + y =~= s + (x + y));
}

proof fn lemma_three_parts<A>(s: Seq<A>, x: Seq<A>, y: Seq<A>, z: Seq<A>)
    ensures
        s + x + y + z == s + (x + y + z),
{
    assert(s + x + y + z =~= s + (x + y + z));
}

fn scan_flow(e: &Expression, ctx: &Ctx, traced: bool, out: &mut Vec<Candidate>)
    requires
        blen(ctx.src@) <= usize::MAX,
        all_placed(views(old(out)@), ctx.src@),
        e.kind is If || e.kind is Match || e.kind is While || e.kind is ForLoop,
    ensures
        all_placed(views(final(out)@), ctx.src@),
        views(final(out)@) == views(old(out)@) + expr_edits(*e, ctx@, traced),
    decreases *e, 0nat,
{
    let ghost start = views(out@);
    match &e.kind {
        ExprKind::If { cond, body, otherwise } => {
            scan_expr(cond, ctx, traced, out);
            scan_block(body, ctx, traced, out);
            scan_opt(otherwise, ctx, traced, out);
            proof {
                lemma_three_parts(
                    start,
                    expr_edits(**cond, ctx@, traced),
                    body_edits(*body, ctx@, traced),
                    opt_edits(*otherwise, ctx@, traced),
                );
            }
        },
        ExprKind::Match { expr, arms } => {
            scan_expr(expr, ctx, traced, out);
            scan_arms(arms, ctx, traced, out);
            proof {
                lemma_two_parts(
                    start,
                    expr_edits(**expr, ctx@, traced),
                    arms_edits(arms@, arms@.len(), ctx@, traced),
                );
            }
        },
        ExprKind::While { cond, body } => {
            scan_expr(cond, ctx, traced, out);
            scan_block(body, ctx, traced, out);
            proof {
                lemma_two_parts(
                    start,
                    expr_edits(**cond, ctx@, traced),
                    body_edits(*body, ctx@, traced),
                );
            }
        },
        ExprKind::ForLoop { expr, body } => {
            scan_expr(expr, ctx, traced, out);
            scan_block(body, ctx, traced, out);
            proof {
                lemma_two_parts(
                    start,
                    expr_edits(**expr, ctx@, traced),
                    body_edits(*body, ctx@, traced),
                );
            }
        },
        _ => {},
    }
}

fn scan_operands(e: &Expression, ctx: &Ctx, traced: bool, out: &mut Vec<Candidate>)
    requires
        blen(ctx.src@) <= usize::MAX,
        all_placed(views(old(out)@), ctx.src@),
        e.kind is MethodCall || e.kind is Call || e.kind is Binary,
    ensures
        all_placed(views(final(out)@), ctx.src@),
        views(final(out)@) == views(old(out)@) + expr_edits(*e, ctx@, traced),
    decreases *e, 0nat,
{
    let ghost start = views(out@);
    match &e.kind {
        ExprKind::MethodCall { receiver, args, .. } => {
            scan_expr(receiver, ctx, traced, out);
            scan_exprs(args, ctx, traced, out);
            proof {
                lemma_two_parts(
                    start,
                    expr_edits(**receiver, ctx@, traced),
                    exprs_edits(args@, args@.len(), ctx@, traced),
                );
            }
        },
        ExprKind::Call { func, args } => {
            scan_call(func, args, &e.span, ctx, out);
            scan_expr(func, ctx, traced, out);
            scan_exprs(args, ctx, traced, out);
            proof {
                lemma_three_parts(
                    start,
                    call_edits(**func, args@, e.span, ctx@),
                    expr_edits(**func, ctx@, traced),
                    exprs_edits(args@, args@.len(), ctx@, traced),
                );
            }
        },
        ExprKind::Binary(left, right) => {
            scan_expr(left, ctx, traced, out);
            scan_expr(right, ctx, traced, out);
            proof {
                lemma_two_parts(
                    start,
                    expr_edits(**left, ctx@, traced),
                    expr_edits(**right, ctx@, traced),
                );
            }
        },
        _ => {},
    }
}

fn scan_expr(e: &Expression, ctx: &Ctx, traced: bool, out: &mut Vec<Candidate>)
    requires
        blen(ctx.src@) <= usize::MAX,
        all_placed(views(old(out)@), ctx.src@),
    ensures
        all_placed(views(final(out)@), ctx.src@),
        views(final(out)@) == views(old(out)@) + expr_edits(*e, ctx@, traced),
    decreases *e, 1nat,
{
    let ghost start = views(out@);
    match &e.kind {
        ExprKind::If { .. }
        | ExprKind::Match { .. }
        | ExprKind::While { .. }
        | ExprKind::ForLoop { .. } => {
            scan_flow(e, ctx, traced, out);
        },
        ExprKind::MethodCall { .. } | ExprKind::Call { .. } | ExprKind::Binary(..) => {
            scan_operands(e, ctx, traced, out);
        },
        ExprKind::Block(body) => {
            scan_block(body, ctx, traced, out);
        },
        ExprKind::Loop(body) => {
            scan_block(body, ctx, traced, out);
        },
        ExprKind::Unsafe(body) => {
            scan_block(body, ctx, traced, out);
        },
        ExprKind::Return(value) => {
            scan_opt(value, ctx, traced, out);
        },
        ExprKind::Try(inner)
        | ExprKind::Await(inner)
        | ExprKind::Unary(inner)
        | ExprKind::Let(inner)
        | ExprKind::Reference(inner)
        | ExprKind::Paren(inner) => {
            scan_expr(inner, ctx, traced, out);
        },
        ExprKind::Tuple(elems) => {
            scan_exprs(elems, ctx, traced, out);
        },
        ExprKind::Array(elems) => {
            scan_exprs(elems, ctx, traced, out);
        },
        _ => {
            assert(start + Seq::<CandidateView>::empty() =~= start);
        },
    }
}

fn scan_opt(e: &Option<Box<Expression>>, ctx: &Ctx, traced: bool, out: &mut Vec<Candidate>)
    requires
        blen(ctx.src@) <= usize::MAX,
        all_placed(views(old(out)@), ctx.src@),
    ensures
        all_placed(views(final(out)@), ctx.src@),
        views(final(out)@) == views(old(out)@) + opt_edits(*e, ctx@, traced),
    decreases *e, 0nat,
{
    let ghost start = views(out@);
    match e {
        Some(inner) => {
            scan_expr(inner, ctx, traced, out);
        },
        None => {},
    }
    assert(views(out@) =~= start + opt_edits(*e, ctx@, traced));
}

fn scan_exprs(es: &Vec<Expression>, ctx: &Ctx, traced: bool, out: &mut Vec<Candidate>)
    requires
        blen(ctx.src@) <= usize::MAX,
        all_placed(views(old(out)@), ctx.src@),
    ensures
        all_placed(views(final(out)@), ctx.src@),
        views(final(out)@) == views(old(out)@) + exprs_edits(es@, es@.len(), ctx@, traced),
    decreases *es, es@.len() + 1,
{
    let ghost start = views(out@);
    assert(start + exprs_edits(es@, 0, ctx@, traced) =~= start);
    let mut i: usize = 0;
    while i < es.len()
        invariant
            i <= es@.len(),
            blen(ctx.src@) <= usize::MAX,
            all_placed(views(out@), ctx.src@),
            views(out@) == start + exprs_edits(es@, i as nat, ctx@, traced),
        decreases es@.len() - i,
    {
        let ghost done = exprs_edits(es@, i as nat, ctx@, traced);
        let ghost next = expr_edits(es@[i as int], ctx@, traced);
        scan_expr(&es[i], ctx, traced, out);
        assert(start + done + next =~= start + (done + next));
        i += 1;
    }
}

fn scan_arms(arms: &Vec<MatchArm>, ctx: &Ctx, traced: bool, out: &mut Vec<Candidate>)
    requires
        blen(ctx.src@) <= usize::MAX,
        all_placed(views(old(out)@), ctx.src@),
    ensures
        all_placed(views(final(out)@), ctx.src@),
        views(final(out)@) == views(old(out)@) + arms_edits(arms@, arms@.len(), ctx@, traced),
    decreases *arms, arms@.len() + 1,
{
    let ghost start = views(out@);
    assert(start + arms_edits(arms@, 0, ctx@, traced) =~= start);
    let mut i: usize = 0;
    while i < arms.len()
        invariant
            i <= arms@.len(),
            blen(ctx.src@) <= usize::MAX,
            all_placed(views(out@), ctx.src@),
            views(out@) == start + arms_edits(arms@, i as nat, ctx@, traced),
        decreases arms@.len() - i,
    {
        let ghost done = arms_edits(arms@, i as nat, ctx@, traced);
        let ghost guard = opt_edits(arms@[i as int].guard, ctx@, traced);
        let ghost body = expr_edits(*arms@[i as int].body, ctx@, traced);
        scan_opt(&arms[i].guard, ctx, traced, out);
        scan_expr(&arms[i].body, ctx, traced, out);
        assert(start + done + guard + body =~= start + (done + (guard + body)));
        i += 1;
    }
}

fn scan_stmt_exprs(s: &Statement, ctx: &Ctx, traced: bool, out: &mut Vec<Candidate>)
    requires
        blen(ctx.src@) <= usize::MAX,
        all_placed(views(old(out)@), ctx.src@),
    ensures
        all_placed(views(final(out)@), ctx.src@),
        views(final(out)@) == views(old(out)@) + inner_edits(*s, ctx@, traced),
    decreases *s, 0nat,
{
    let ghost start = views(out@);
    match &s.kind {
        StmtKind::Local { init: Some(init), .. } => {
            scan_expr(init, ctx, traced, out);
        },
        StmtKind::Expr { expr, .. } => {
            scan_expr(expr, ctx, traced, out);
        },
        _ => {},
    }
    assert(views(out@) =~= start + inner_edits(*s, ctx@, traced));
}

fn scan_own(
    ss: &Vec<Statement>,
    at: usize,
    ctx: &Ctx,
    traced: bool,
    out: &mut Vec<Candidate>,
)
    requires
        at < ss@.len(),
        blen(ctx.src@) <= usize::MAX,
        all_placed(views(old(out)@), ctx.src@),
    ensures
        all_placed(views(final(out)@), ctx.src@),
        views(final(out)@) == views(old(out)@) + own_edits(ss@, at as int, ctx@, traced),
{
    let ghost start = views(out@);
    push_listed(out, rule_snapshot_local(ss, at, ctx), ctx.src);
    push_listed(out, rule_rollback_note(&ss[at], ctx, traced), ctx.src);
    push_listed(out, rule_mutation_snapshot(ss, at, ctx), ctx.src);
    assert(views(out@) =~= start + own_edits(ss@, at as int, ctx@, traced));
}

fn scan_stmts(ss: &Vec<Statement>, ctx: &Ctx, traced: bool, out: &mut Vec<Candidate>)
    requires
        blen(ctx.src@) <= usize::MAX,
        all_placed(views(old(out)@), ctx.src@),
    ensures
        all_placed(views(final(out)@), ctx.src@),
        views(final(out)@) == views(old(out)@) + stmts_edits(ss@, ss@.len(), ctx@, traced),
    decreases *ss, ss@.len() + 1,
{
    let ghost start = views(out@);
    assert(start + stmts_edits(ss@, 0, ctx@, traced) =~= start);
    let mut now = traced;
    let mut i: usize = 0;
    while i < ss.len()
        invariant
            i <= ss@.len(),
            blen(ctx.src@) <= usize::MAX,
            all_placed(views(out@), ctx.src@),
            now == (traced || records_state(ss@, i as nat)),
            views(out@) == start + stmts_edits(ss@, i as nat, ctx@, traced),
        decreases ss@.len() - i,
    {
        let ghost done = stmts_edits(ss@, i as nat, ctx@, traced);
        if stmt_calls_macro(&ss[i], "trace_state") {
            now = true;
        }
        let ghost own = own_edits(ss@, i as int, ctx@, now);
        let ghost inner = inner_edits(ss@[i as int], ctx@, now);
        scan_own(ss, i, ctx, now, out);
        scan_stmt_exprs(&ss[i], ctx, now, out);
        assert(start + done + own + inner =~= start + (done + (own + inner)));
        i += 1;
    }
}

fn scan_block(b: &Body, ctx: &Ctx, traced: bool, out: &mut Vec<Candidate>)
    requires
        blen(ctx.src@) <= usize::MAX,
        all_placed(views(old(out)@), ctx.src@),
    ensures
        all_placed(views(final(out)@), ctx.src@),
        views(final(out)@) == views(old(out)@) + body_edits(*b, ctx@, traced),
    decreases *b, 0nat,
{
    scan_stmts(&b.stmts, ctx, traced, out);
}

// ---------- Functions and files ----------

/// The first of three tokens from `i` on that declare a `static`.
pub open spec fn declares_static(ts: Seq<Token>, i: int) -> Option<Seq<char>> {
    if 0 <= i && i + 2 < ts.len() {
        match (ts[i], ts[i + 1], ts[i + 2]) {
            (Token::Ident(kw), Token::Ident(name), Token::Punct(p)) => if kw@ == "static"@ && p
                == ':' {
                Some(name@)
            } else {
                None
            },
            _ => None,
        }
    } else {
        None
    }
}

/// The statics that tokens from `i` on declare.
pub open spec fn statics_from(ts: Seq<Token>, i: int) -> Seq<Seq<char>>
    decreases ts.len() - i,
{
    if i < 0 || i >= ts.len() {
        Seq::empty()
    } else {
        match declares_static(ts, i) {
            Some(name) => seq![name] + statics_from(ts, i + 1),
            None => statics_from(ts, i + 1),
        }
    }
}

/// The `thread_local!` containers that the first `n` items declare.
pub open spec fn containers(items: Seq<Entry>, n: nat) -> Seq<Seq<char>>
    decreases n,
{
    if n == 0 || n > items.len() {
        Seq::empty()
    } else {
        let before = containers(items, (n - 1) as nat);
        match items[n - 1] {
            Entry::Macro(mac) => if last_is(mac.path@, "thread_local"@) {
                before + statics_from(mac.tokens@, 0)
            } else {
                before
            },
            _ => before,
        }
    }
}

fn read_static(ts: &Vec<Token>, i: usize) -> (r: Option<&String>)
    requires
        i < ts@.len(),
    ensures
        match r {
            Some(name) => declares_static(ts@, i as int) == Some(name@),
            None => declares_static(ts@, i as int) is None,
        },
{
    if ts.len() - i < 3 {
        return None;
    }
    match (&ts[i], &ts[i + 1], &ts[i + 2]) {
        (Token::Ident(kw), Token::Ident(name), Token::Punct(p)) => {
            if same_text(kw.as_str(), "static") && *p == ':' {
                Some(name)
            } else {
                None
            }
        },
        _ => None,
    }
}

fn collect_statics(ts: &Vec<Token>, out: &mut Vec<String>)
    ensures
        texts(final(out)@) == texts(old(out)@) + statics_from(ts@, 0),
{
    let ghost start = texts(out@);
    assert(start + statics_from(ts@, 0) =~= texts(out@) + statics_from(ts@, 0));
    let mut i: usize = 0;
    while i < ts.len()
        invariant
            i <= ts@.len(),
            texts(out@) + statics_from(ts@, i as int) == start + statics_from(ts@, 0),
        decreases ts@.len() - i,
    {
        let ghost before = texts(out@);
        let ghost rest = statics_from(ts@, i + 1);
        if let Some(name) = read_static(ts, i) {
            out.push(name.clone());
            assert(texts(out@) =~= before + seq![name@]);
            assert(before + (seq![name@] + rest) =~= texts(out@) + rest);
        }
        i += 1;
    }
    assert(texts(out@) + Seq::<Seq<char>>::empty() =~= texts(out@));
}

/// The `thread_local!` containers that a file declares.
pub fn collect_thread_local_idents(file: &File) -> (out: Vec<String>)
    ensures
        texts(out@) == containers(file.items@, file.items@.len()),
{
    let mut out: Vec<String> = Vec::new();
    assert(texts(out@) =~= containers(file.items@, 0));
    let mut i: usize = 0;
    while i < file.items.len()
        invariant
            i <= file.items@.len(),
            texts(out@) == containers(file.items@, i as nat),
        decreases file.items@.len() - i,
    {
        if let Entry::Macro(mac) = &file.items[i] {
            if macro_path_ident_is(&mac.path, "thread_local") {
                collect_statics(&mac.tokens, &mut out);
            }
        }
        i += 1;
    }
    out
}

/// The edits that a function wants. Its body is looked at only where the function is traced, or
/// takes the header and will be.
pub open spec fn fn_edits(
    f: Function,
    src: Seq<char>,
    aliases: Map<Seq<char>, Seq<char>>,
    containers: Seq<Seq<char>>,
) -> Seq<CandidateView> {
    let traced = has_trace_method(f);
    let attr = entry_attr(f.attrs@, 0);
    let wraps = !traced && attr is Some && takes_header(f);
    let inserts = !traced && attr is Some && is_write_entry(attr->0) && !takes_header(f);
    let wrapping = if wraps {
        seq![wrap_method(f, attr->0, src)]
    } else if inserts {
        seq![wrap_method_insert_header(f, attr->0, src)]
    } else {
        Seq::empty()
    };
    if traced || wraps {
        let ctx = CtxView {
            fn_name: f.ident@,
            returns_result: returns_result(f),
            aliases,
            containers,
            src,
        };
        wrapping + listed(entry_note(f, src)) + body_edits(f.block, ctx, false)
    } else {
        wrapping
    }
}

/// The edits that the first `n` items of a file want.
pub open spec fn items_edits(
    items: Seq<Entry>,
    n: nat,
    src: Seq<char>,
    aliases: Map<Seq<char>, Seq<char>>,
    containers: Seq<Seq<char>>,
) -> Seq<CandidateView>
    decreases n,
{
    if n == 0 || n > items.len() {
        Seq::empty()
    } else {
        let before = items_edits(items, (n - 1) as nat, src, aliases, containers);
        match items[n - 1] {
            Entry::Fn(f) => before + fn_edits(f, src, aliases, containers),
            _ => before,
        }
    }
}

/// The edits that a file wants, by where they begin.
pub open spec fn detected(file: File, src: Seq<char>, aliases: Map<Seq<char>, Seq<char>>) -> Seq<
    CandidateView,
> {
    by_place(
        items_edits(
            file.items@,
            file.items@.len(),
            src,
            aliases,
            containers(file.items@, file.items@.len()),
        ),
    )
}

fn scan_fn(
    f: &Function,
    src: &[char],
    aliases: &AliasMap,
    containers: &Vec<String>,
    out: &mut Vec<Candidate>,
)
    requires
        blen(src@) <= usize::MAX,
        all_placed(views(old(out)@), src@),
    ensures
        all_placed(views(final(out)@), src@),
        views(final(out)@) == views(old(out)@) + fn_edits(
            *f,
            src@,
            aliases@,
            texts(containers@),
        ),
{
    let ghost start = views(out@);
    let traced = is_traced(f);
    let header = first_arg_is_trace_header(f);
    let mut wraps = false;
    if !traced {
        if let Some(attr) = find_entry_attr(&f.attrs) {
            if header {
                wraps = true;
                push_listed(out, Some(make_wrap_method_candidate(f, attr, src)), src);
            } else if attr_is_cdk_write_entry(attr) {
                push_listed(
                    out,
                    Some(make_wrap_method_insert_header_candidate(f, attr, src)),
                    src,
                );
            }
        }
    }
    if traced || wraps {
        let ctx = Ctx {
            fn_name: f.ident.as_str(),
            returns_result: sig_returns_result(f),
            aliases,
            containers,
            src,
        };
        push_listed(out, scan_entry_note(f, src), src);
        scan_block(&f.block, &ctx, false, out);
    }
    assert(views(out@) =~= start + fn_edits(*f, src@, aliases@, texts(containers@)));
}

/// The edits that a file wants, by where they begin. `src` is the text that the file was read
/// from, and `aliases` are the names that its `use` items bind.
pub fn all(file: &File, src: &str, aliases: &AliasMap) -> (out: Vec<Candidate>)
    ensures
        views(out@) == detected(*file, src@, aliases@),
        all_placed(views(out@), src@),
{
    let chars = chars_of(src);
    let len = utf8_len(src);
    let text = chars.as_slice();
    let statics = collect_thread_local_idents(file);
    let ghost names = texts(statics@);
    let mut out: Vec<Candidate> = Vec::new();
    proof {
        assert(views(out@) =~= Seq::<CandidateView>::empty());
        lemma_none_placed(src@);
    }
    let mut i: usize = 0;
    while i < file.items.len()
        invariant
            i <= file.items@.len(),
            text@ == src@,
            names == texts(statics@),
            blen(src@) <= usize::MAX,
            all_placed(views(out@), src@),
            views(out@) == items_edits(file.items@, i as nat, src@, aliases@, names),
        decreases file.items@.len() - i,
    {
        if let Entry::Fn(f) = &file.items[i] {
            scan_fn(f, text, aliases, &statics, &mut out);
        }
        i += 1;
    }
    proof {
        lemma_sorted_placed(views(out@), src@);
    }
    sort_by_place(out)
}

} // verus!
