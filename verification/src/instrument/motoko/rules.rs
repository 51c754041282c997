//! The edits that a Motoko actor wants.

use vstd::prelude::*;
use vstd::string::*;
use vstd::utf8::*;

use std::ops::Range;

use crate::instrument::edit::placed;
use crate::instrument::motoko::actor::{ActorInfo, ActorView};
use crate::instrument::motoko::body::{entry_place, place_of_entry, Write, WriteView};
use crate::instrument::motoko::funcs::{FuncView, PubFunc};
use crate::instrument::motoko::imports::{
    imports_end, indent_at, last_import_end, leading_indent_of_line,
};
use crate::instrument::motoko::scan::{
    code_mask, last_semi, last_semicolon_in_code, mask,
};
use crate::instrument::{
    edits_view, Candidate, CandidateView, EditView, Replacement, ReplacementView, Rule,
};
use crate::text::{
    blen, byte_at, byte_index, contains, contains_str, join, joined, lemma_byte_at, line_before,
    line_start, previous_line, same_text, skip_space, slice, space_end, start_of_line, string_of,
    texts,
};

verus! {

/// Insert `text` before the character `at` of `src`.
pub open spec fn insertion(src: Seq<char>, at: int, text: Seq<char>) -> EditView {
    EditView { start: byte_at(src, at) as int, end: byte_at(src, at) as int, text }
}

/// Where the run of spaces, tabs and line feeds that ends at `n` begins, not before `lo`.
pub open spec fn blanks_start(s: Seq<char>, lo: int, n: int) -> int
    decreases n - lo,
{
    if 0 <= lo < n <= s.len() && (s[n - 1] == ' ' || s[n - 1] == '\t' || s[n - 1] == '\n') {
        blanks_start(s, lo, n - 1)
    } else {
        n
    }
}

fn start_of_blanks(s: &[char], lo: usize, n: usize) -> (r: usize)
    requires
        lo <= n <= s@.len(),
    ensures
        r == blanks_start(s@, lo as int, n as int),
        lo <= r <= n,
{
    let mut i: usize = n;
    while i > lo && (s[i - 1] == ' ' || s[i - 1] == '\t' || s[i - 1] == '\n')
        invariant
            lo <= i <= n <= s@.len(),
            blanks_start(s@, lo as int, n as int) == blanks_start(s@, lo as int, i as int),
        decreases i,
    {
        i -= 1;
    }
    i
}

/// The range is one of whole characters of `bytes`.
pub open spec fn fits_range(r: Range<usize>, bytes: Seq<u8>) -> bool {
    &&& r.start <= r.end <= bytes.len()
    &&& is_char_boundary(bytes, r.start as int)
    &&& is_char_boundary(bytes, r.end as int)
}

// ---------- Bootstrap ----------

/// The first of `found` at or after `i`, among the first eleven.
pub open spec fn first_level(found: Seq<bool>, i: int) -> Option<int>
    decreases found.len() - i,
{
    if i < 0 || i >= found.len() || i > 10 {
        None
    } else if found[i] {
        Some(i)
    } else {
        first_level(found, i + 1)
    }
}

/// `../`, `n` times.
pub open spec fn ups(n: nat) -> Seq<char>
    decreases n,
{
    if n == 0 {
        Seq::empty()
    } else {
        ups((n - 1) as nat) + "../"@
    }
}

/// The path to import the `Trace` module by. `found` says of the file's directory, and of each
/// one above it in turn, whether it holds `motoko/src/Trace.mo`.
pub open spec fn trace_path(has_dir: bool, found: Seq<bool>) -> Seq<char> {
    if !has_dir {
        "../motoko/src/Trace"@
    } else {
        match first_level(found, 0) {
            Some(n) => ups(n as nat) + "motoko/src/Trace"@,
            None => "../motoko/src/Trace /* TODO: fix import path */"@,
        }
    }
}

/// The path to import the `Trace` module by. `found` says of the file's directory, and of each
/// one above it in turn, whether it holds `motoko/src/Trace.mo`.
pub fn guess_trace_import_path(has_dir: bool, found: &[bool]) -> (r: String)
    ensures
        r@ == trace_path(has_dir, found@),
{
    if !has_dir {
        return String::from_str("../motoko/src/Trace");
    }
    let mut out = String::from_str("");
    let mut i: usize = 0;
    proof {
        reveal_strlit("");
        assert(out@ =~= ups(0));
    }
    while i < found.len() && i <= 10
        invariant
            has_dir,
            i <= found@.len(),
            i <= 11,
            out@ == ups(i as nat),
            first_level(found@, 0) == first_level(found@, i as int),
        decreases found@.len() - i,
    {
        if found[i] {
            out.append("motoko/src/Trace");
            return out;
        }
        out.append("../");
        i += 1;
    }
    String::from_str("../motoko/src/Trace /* TODO: fix import path */")
}

/// Why the bootstrap has to come first.
pub open spec fn bootstrap_warning() -> Seq<char> {
    "this rule must be accepted before mo-wrap-method takes effect — without the `tracer` field, the inserted `tracer.beginTrace(…)` calls will not compile."@
}

/// The edit that gives the actor what is missing of the import, the tracer field and the drain.
pub open spec fn bootstrap(a: ActorView, src: Seq<char>, path: Seq<char>) -> Option<CandidateView> {
    if a.has_tracer || a.funcs.len() == 0 {
        None
    } else {
        let outer = indent_at(src, a.open);
        let inner = outer + "  "@;
        let import_edit = insertion(
            src,
            imports_end(src),
            "import Trace \""@ + path + "\";\n"@,
        );
        let tracer_edit = insertion(
            src,
            a.open,
            "\n"@ + inner + "transient let tracer = "@ + a.alias
                + ".Tracer(Principal.fromActor(self));"@,
        );
        let drain_edit = EditView {
            start: byte_at(src, blanks_start(src, 0, a.close)) as int,
            end: byte_at(src, a.close) as int,
            text: "\n\n"@ + inner
                + "public query func __debug_drain() : async Blob { tracer.drain() };\n"@ + outer,
        };
        let with_import = if a.has_import {
            seq![tracer_edit]
        } else {
            seq![import_edit, tracer_edit]
        };
        let edits = if a.has_drain {
            with_import
        } else {
            with_import.push(drain_edit)
        };
        let named_import = if a.has_import {
            seq!["`tracer` field"@]
        } else {
            seq!["import Trace"@, "`tracer` field"@]
        };
        let parts = if a.has_drain {
            named_import
        } else {
            named_import.push("`__debug_drain`"@)
        };
        Some(
            CandidateView {
                rule: Rule::MoBootstrap,
                start: byte_at(src, a.open) as int,
                end: byte_at(src, a.open) as int,
                fn_name: "<actor>"@,
                summary: "bootstrap actor: "@ + joined(parts, " + "@, parts.len()),
                warning: Some(bootstrap_warning()),
                replacement: ReplacementView::Multi(edits),
            },
        )
    }
}

/// The edit that gives the actor what is missing of the import, the tracer field and the drain.
pub fn rule_bootstrap(a: &ActorInfo, src: &[char], path: &str) -> (r: Option<Candidate>)
    requires
        a.open <= a.close <= src@.len(),
        blen(src@) <= usize::MAX,
    ensures
        match r {
            Some(c) => bootstrap(a@, src@, path@) == Some(c@) && placed(c@, src@),
            None => bootstrap(a@, src@, path@) is None,
        },
{
    if a.has_tracer || a.funcs.len() == 0 {
        return None;
    }
    let outer = leading_indent_of_line(src, a.open);
    let mut inner = String::from_str(outer.as_str());
    inner.append("  ");
    let mut edits: Vec<(Range<usize>, String)> = Vec::new();
    let mut parts: Vec<String> = Vec::new();
    if !a.has_import {
        let mut line = String::from_str("import Trace \"");
        line.append(path);
        line.append("\";\n");
        let at = byte_index(src, last_import_end(src));
        edits.push((at..at, line));
        parts.push(String::from_str("import Trace"));
    }
    let open = byte_index(src, a.open);
    let mut field = String::from_str("\n");
    field.append(inner.as_str());
    field.append("transient let tracer = ");
    field.append(a.alias.as_str());
    field.append(".Tracer(Principal.fromActor(self));");
    edits.push((open..open, field));
    parts.push(String::from_str("`tracer` field"));
    if !a.has_drain {
        let mut drain = String::from_str("\n\n");
        drain.append(inner.as_str());
        drain.append("public query func __debug_drain() : async Blob { tracer.drain() };\n");
        drain.append(outer.as_str());
        let blanks = start_of_blanks(src, 0, a.close);
        proof {
            lemma_byte_at(src@, blanks as int, a.close as int);
        }
        let from = byte_index(src, blanks);
        let to = byte_index(src, a.close);
        edits.push((from..to, drain));
        parts.push(String::from_str("`__debug_drain`"));
    }
    let mut summary = String::from_str("bootstrap actor: ");
    summary.append(join(&parts, " + ").as_str());
    let ghost want = bootstrap(a@, src@, path@).unwrap();
    proof {
        let names = if a.has_import {
            seq!["`tracer` field"@]
        } else {
            seq!["import Trace"@, "`tracer` field"@]
        };
        let all = if a.has_drain {
            names
        } else {
            names.push("`__debug_drain`"@)
        };
        assert(texts(parts@) =~= all);
        assert(summary@ == want.summary);
        assert(edits_view(edits@) =~= want.replacement->Multi_0);
    }
    let warning = String::from_str(
        "this rule must be accepted before mo-wrap-method takes effect — without the `tracer` field, the inserted `tracer.beginTrace(…)` calls will not compile.",
    );
    Some(
        Candidate {
            rule: Rule::MoBootstrap,
            byte_range: open..open,
            fn_name: String::from_str("<actor>"),
            summary,
            warning: Some(warning),
            replacement: Replacement::Multi(edits),
        },
    )
}

// ---------- Wrapping a function ----------

/// The body of a function.
pub open spec fn body_of(f: FuncView, src: Seq<char>) -> Seq<char> {
    src.subrange(f.body_open + 1, f.body_close)
}

/// Where the call that ends the trace goes: behind the last `;` of the body outside brackets, so
/// that the value of the body stays its last expression; else first.
pub open spec fn exit_place(f: FuncView, src: Seq<char>) -> int {
    let start = f.body_open + 1;
    let body = body_of(f, src);
    match last_semi(body, mask(body), body.len() as int, 0) {
        Some(k) => start + k + 1,
        None => start,
    }
}

/// The edits that wrap the body of a function.
pub open spec fn wrap_edits(f: FuncView, tracer: Seq<char>, src: Seq<char>) -> Seq<EditView> {
    let inner = indent_at(src, f.body_open) + "  "@;
    let caller = if f.is_shared {
        "msg.caller"@
    } else {
        "Principal.fromActor(self)"@
    };
    seq![
        insertion(
            src,
            f.body_open + 1,
            "\n"@ + inner + "ignore "@ + tracer + ".beginTrace(header);\n"@ + inner + tracer
                + ".methodEntered(\""@ + f.name + "\", "@ + caller + ", []);"@,
        ),
        insertion(
            src,
            exit_place(f, src),
            "\n"@ + inner + tracer + ".methodExited(null);"@,
        ),
    ]
}

/// The edit that wraps the body of a function which takes the header.
pub open spec fn wrap_method(f: FuncView, a: ActorView, src: Seq<char>) -> Option<CandidateView> {
    if !a.has_tracer || !f.header_first || f.has_begin_trace {
        None
    } else {
        Some(
            CandidateView {
                rule: Rule::MoWrapMethod,
                start: byte_at(src, f.body_open) as int,
                end: byte_at(src, f.body_open) as int,
                fn_name: f.name,
                summary: "wrap `"@ + f.name
                    + "` body with tracer.beginTrace / methodEntered / methodExited"@,
                warning: None,
                replacement: ReplacementView::Multi(wrap_edits(f, a.tracer, src)),
            },
        )
    }
}

/// What it means for callers that a parameter is added.
pub open spec fn breaking_warning() -> Seq<char> {
    "BREAKING ABI CHANGE: every caller of this method (including agent-js scripts and other canisters) must be updated to pass a TraceHeader as the first argument."@
}

/// The edit that wraps the body of a function and gives it the header. Queries and the drain
/// are left alone.
pub open spec fn wrap_method_insert_header(f: FuncView, a: ActorView, src: Seq<char>) -> Option<
    CandidateView,
> {
    if !a.has_tracer || f.header_first || f.has_begin_trace || f.is_query || f.name
        == "__debug_drain"@ {
        None
    } else {
        let form = "?"@ + a.alias + ".TraceHeader"@;
        let param = "header : "@ + form;
        let text = if f.params_empty {
            param
        } else {
            param + ", "@
        };
        Some(
            CandidateView {
                rule: Rule::MoWrapMethodInsertHeader,
                start: byte_at(src, f.body_open) as int,
                end: byte_at(src, f.body_open) as int,
                fn_name: f.name,
                summary: "wrap `"@ + f.name + "` AND insert `header : "@ + form
                    + "` first param"@,
                warning: Some(breaking_warning()),
                replacement: ReplacementView::Multi(
                    wrap_edits(f, a.tracer, src).push(insertion(src, f.params_open, text)),
                ),
            },
        )
    }
}

fn make_wrap_edits(f: &PubFunc, tracer: &str, src: &[char]) -> (out: Vec<(Range<usize>, String)>)
    requires
        f.within(src@.len() as int),
        blen(src@) <= usize::MAX,
    ensures
        edits_view(out@) == wrap_edits(f@, tracer@, src@),
        forall|k: int|
            0 <= k < out@.len() ==> fits_range((#[trigger] out@[k]).0, encode_utf8(src@)),
{
    let mut inner = leading_indent_of_line(src, f.body_open);
    inner.append("  ");
    let caller = if f.is_shared {
        "msg.caller"
    } else {
        "Principal.fromActor(self)"
    };
    let mut begin = String::from_str("\n");
    begin.append(inner.as_str());
    begin.append("ignore ");
    begin.append(tracer);
    begin.append(".beginTrace(header);\n");
    begin.append(inner.as_str());
    begin.append(tracer);
    begin.append(".methodEntered(\"");
    begin.append(f.name.as_str());
    begin.append("\", ");
    begin.append(caller);
    begin.append(", []);");
    let mut exited = String::from_str("\n");
    exited.append(inner.as_str());
    exited.append(tracer);
    exited.append(".methodExited(null);");
    let start: usize = f.body_open + 1;
    let body = slice(src, start, f.body_close);
    let m = code_mask(body);
    let place: usize = match last_semicolon_in_code(body, m.as_slice()) {
        Some(k) => start + k + 1,
        None => start,
    };
    let first = byte_index(src, start);
    let last = byte_index(src, place);
    let mut out: Vec<(Range<usize>, String)> = Vec::new();
    out.push((first..first, begin));
    out.push((last..last, exited));
    assert(edits_view(out@) =~= wrap_edits(f@, tracer@, src@));
    out
}

/// The edit that wraps the body of a function which takes the header.
pub fn rule_wrap_method(f: &PubFunc, a: &ActorInfo, src: &[char]) -> (r: Option<Candidate>)
    requires
        f.within(src@.len() as int),
        blen(src@) <= usize::MAX,
    ensures
        match r {
            Some(c) => wrap_method(f@, a@, src@) == Some(c@) && placed(c@, src@),
            None => wrap_method(f@, a@, src@) is None,
        },
{
    if !a.has_tracer || !f.header_first || f.has_begin_trace {
        return None;
    }
    let at = byte_index(src, f.body_open);
    let mut summary = String::from_str("wrap `");
    summary.append(f.name.as_str());
    summary.append("` body with tracer.beginTrace / methodEntered / methodExited");
    Some(
        Candidate {
            rule: Rule::MoWrapMethod,
            byte_range: at..at,
            fn_name: f.name.clone(),
            summary,
            warning: None,
            replacement: Replacement::Multi(make_wrap_edits(f, a.tracer.as_str(), src)),
        },
    )
}

/// The edit that wraps the body of a function and gives it the header. Queries and the drain
/// are left alone.
pub fn rule_wrap_method_insert_header(f: &PubFunc, a: &ActorInfo, src: &[char]) -> (r: Option<
    Candidate,
>)
    requires
        f.within(src@.len() as int),
        blen(src@) <= usize::MAX,
    ensures
        match r {
            Some(c) => wrap_method_insert_header(f@, a@, src@) == Some(c@) && placed(c@, src@),
            None => wrap_method_insert_header(f@, a@, src@) is None,
        },
{
    if !a.has_tracer || f.header_first || f.has_begin_trace || f.is_query || same_text(
        f.name.as_str(),
        "__debug_drain",
    ) {
        return None;
    }
    let mut form = String::from_str("?");
    form.append(a.alias.as_str());
    form.append(".TraceHeader");
    let mut param = String::from_str("header : ");
    param.append(form.as_str());
    if !f.params_empty {
        param.append(", ");
    }
    let at = byte_index(src, f.body_open);
    let open = byte_index(src, f.params_open);
    let mut summary = String::from_str("wrap `");
    summary.append(f.name.as_str());
    summary.append("` AND insert `header : ");
    summary.append(form.as_str());
    summary.append("` first param");
    let mut edits = make_wrap_edits(f, a.tracer.as_str(), src);
    let ghost wrapped = edits_view(edits@);
    let ghost text = param@;
    edits.push((open..open, param));
    assert(edits_view(edits@) =~= wrapped.push(insertion(src@, f.params_open as int, text)));
    let warning = String::from_str(
        "BREAKING ABI CHANGE: every caller of this method (including agent-js scripts and other canisters) must be updated to pass a TraceHeader as the first argument.",
    );
    Some(
        Candidate {
            rule: Rule::MoWrapMethodInsertHeader,
            byte_range: at..at,
            fn_name: f.name.clone(),
            summary,
            warning: Some(warning),
            replacement: Replacement::Multi(edits),
        },
    )
}

// ---------- Notes ----------

/// The edit that notes the entry of a traced function.
pub open spec fn entry_note(f: FuncView, a: ActorView, src: Seq<char>) -> Option<CandidateView> {
    if !f.has_method_entered || f.has_entry_note {
        None
    } else {
        match entry_place(body_of(f, src), a.tracer) {
            Some(k) => {
                let at = byte_at(src, f.body_open + 1 + k) as int;
                Some(
                    CandidateView {
                        rule: Rule::MoEntryNote,
                        start: at,
                        end: at,
                        fn_name: f.name,
                        summary: "emit "@ + a.tracer + ".note(\""@ + f.name
                            + ":enter\") after methodEntered"@,
                        warning: None,
                        replacement: ReplacementView::InsertRaw(
                            indent_at(src, f.body_open) + "  "@ + a.tracer + ".note(\""@ + f.name
                                + ":enter\");\n"@,
                        ),
                    },
                )
            },
            None => None,
        }
    }
}

/// The edit that notes the entry of a traced function.
pub fn rule_entry_note(f: &PubFunc, a: &ActorInfo, src: &[char]) -> (r: Option<Candidate>)
    requires
        f.within(src@.len() as int),
        blen(src@) <= usize::MAX,
    ensures
        match r {
            Some(c) => entry_note(f@, a@, src@) == Some(c@) && placed(c@, src@),
            None => entry_note(f@, a@, src@) is None,
        },
{
    if !f.has_method_entered || f.has_entry_note {
        return None;
    }
    let start: usize = f.body_open + 1;
    let body = slice(src, start, f.body_close);
    let m = code_mask(body);
    match place_of_entry(body, m.as_slice(), a.tracer.as_str()) {
        Some(k) => {
            let at = byte_index(src, start + k);
            let mut text = leading_indent_of_line(src, f.body_open);
            text.append("  ");
            text.append(a.tracer.as_str());
            text.append(".note(\"");
            text.append(f.name.as_str());
            text.append(":enter\");\n");
            let mut summary = String::from_str("emit ");
            summary.append(a.tracer.as_str());
            summary.append(".note(\"");
            summary.append(f.name.as_str());
            summary.append(":enter\") after methodEntered");
            Some(
                Candidate {
                    rule: Rule::MoEntryNote,
                    byte_range: at..at,
                    fn_name: f.name.clone(),
                    summary,
                    warning: None,
                    replacement: Replacement::InsertRaw(text),
                },
            )
        },
        None => None,
    }
}

/// The white space that begins the line of position `at`, up to `at`.
pub open spec fn lead_of(src: Seq<char>, at: int) -> Seq<char> {
    let lead = src.subrange(line_start(src, at), at);
    lead.subrange(0, skip_space(lead, 0))
}

fn read_lead(src: &[char], at: usize) -> (r: String)
    requires
        at <= src@.len(),
    ensures
        r@ == lead_of(src@, at as int),
{
    let lead = slice(src, start_of_line(src, at), at);
    string_of(slice(lead, 0, space_end(lead, 0)))
}

/// The edit that notes a `Debug.trap` in a traced function. `at` is counted from the body's start.
pub open spec fn trap_note(f: FuncView, tracer: Seq<char>, at: int, src: Seq<char>) -> Option<
    CandidateView,
> {
    let place = f.body_open + 1 + at;
    if !f.has_begin_trace || contains(line_before(src, place), ":trapped\""@) {
        None
    } else {
        let start = byte_at(src, line_start(src, place)) as int;
        Some(
            CandidateView {
                rule: Rule::MoTrapNote,
                start,
                end: start,
                fn_name: f.name,
                summary: "emit "@ + tracer + ".note(\""@ + f.name
                    + ":trapped\") before this Debug.trap"@,
                warning: None,
                replacement: ReplacementView::InsertRaw(
                    lead_of(src, place) + tracer + ".note(\""@ + f.name + ":trapped\");\n"@,
                ),
            },
        )
    }
}

/// The edit that notes a `Debug.trap` in a traced function. `at` is counted from the body's start.
pub fn rule_trap_note(f: &PubFunc, tracer: &str, at: usize, src: &[char]) -> (r: Option<Candidate>)
    requires
        f.body_open + 1 + at < src@.len(),
        blen(src@) <= usize::MAX,
    ensures
        match r {
            Some(c) => trap_note(f@, tracer@, at as int, src@) == Some(c@) && placed(c@, src@),
            None => trap_note(f@, tracer@, at as int, src@) is None,
        },
{
    let len: usize = src.len();
    let place: usize = f.body_open + 1 + at;
    if !f.has_begin_trace || contains_str(previous_line(src, place), ":trapped\"") {
        return None;
    }
    let start = byte_index(src, start_of_line(src, place));
    let mut text = read_lead(src, place);
    text.append(tracer);
    text.append(".note(\"");
    text.append(f.name.as_str());
    text.append(":trapped\");\n");
    let mut summary = String::from_str("emit ");
    summary.append(tracer);
    summary.append(".note(\"");
    summary.append(f.name.as_str());
    summary.append(":trapped\") before this Debug.trap");
    Some(
        Candidate {
            rule: Rule::MoTrapNote,
            byte_range: start..start,
            fn_name: f.name.clone(),
            summary,
            warning: None,
            replacement: Replacement::InsertRaw(text),
        },
    )
}

/// The edit that notes a `throw` in a traced function. `at` is counted from the body's start.
pub open spec fn rollback_note(f: FuncView, tracer: Seq<char>, at: int, src: Seq<char>) -> Option<
    CandidateView,
> {
    let place = f.body_open + 1 + at;
    if !f.has_begin_trace || contains(line_before(src, place), ":rollback\""@) {
        None
    } else {
        let start = byte_at(src, line_start(src, place)) as int;
        Some(
            CandidateView {
                rule: Rule::MoRollbackNote,
                start,
                end: start,
                fn_name: f.name,
                summary: "emit "@ + tracer + ".note(\""@ + f.name
                    + ":rollback\") before this throw"@,
                warning: None,
                replacement: ReplacementView::InsertRaw(
                    lead_of(src, place) + tracer + ".note(\""@ + f.name + ":rollback\");\n"@,
                ),
            },
        )
    }
}

/// The edit that notes a `throw` in a traced function. `at` is counted from the body's start.
pub fn rule_rollback_note(f: &PubFunc, tracer: &str, at: usize, src: &[char]) -> (r: Option<
    Candidate,
>)
    requires
        f.body_open + 1 + at < src@.len(),
        blen(src@) <= usize::MAX,
    ensures
        match r {
            Some(c) => rollback_note(f@, tracer@, at as int, src@) == Some(c@) && placed(c@, src@),
            None => rollback_note(f@, tracer@, at as int, src@) is None,
        },
{
    let len: usize = src.len();
    let place: usize = f.body_open + 1 + at;
    if !f.has_begin_trace || contains_str(previous_line(src, place), ":rollback\"") {
        return None;
    }
    let start = byte_index(src, start_of_line(src, place));
    let mut text = read_lead(src, place);
    text.append(tracer);
    text.append(".note(\"");
    text.append(f.name.as_str());
    text.append(":rollback\");\n");
    let mut summary = String::from_str("emit ");
    summary.append(tracer);
    summary.append(".note(\"");
    summary.append(f.name.as_str());
    summary.append(":rollback\") before this throw");
    Some(
        Candidate {
            rule: Rule::MoRollbackNote,
            byte_range: start..start,
            fn_name: f.name.clone(),
            summary,
            warning: None,
            replacement: Replacement::InsertRaw(text),
        },
    )
}

/// What parts a statement from the next: its `;`, where it has none, and a line feed.
pub open spec fn statement_close(closed: bool) -> Seq<char> {
    if closed {
        "\n"@
    } else {
        ";\n"@
    }
}

/// The edit that snapshots a variable of the actor after an assignment in a traced function.
pub open spec fn mutation_snapshot(
    f: FuncView,
    tracer: Seq<char>,
    w: WriteView,
    src: Seq<char>,
) -> Option<CandidateView> {
    if !f.has_begin_trace {
        None
    } else {
        let at = byte_at(src, f.body_open + 1 + w.end) as int;
        Some(
            CandidateView {
                rule: Rule::MoMutationSnapshot,
                start: at,
                end: at,
                fn_name: f.name,
                summary: "snapshot `"@ + w.name + "` after this assignment"@,
                warning: None,
                replacement: ReplacementView::InsertAfterWithKey {
                    template: statement_close(w.closed) + lead_of(
                        src,
                        f.body_open + 1 + w.start,
                    ) + tracer + ".snapshotText(\"{KEY}\", debug_show "@ + w.name + ");"@,
                    default_key: w.name,
                },
            },
        )
    }
}

/// The edit that snapshots a variable of the actor after an assignment in a traced function.
pub fn rule_mutation_snapshot(f: &PubFunc, tracer: &str, w: &Write, src: &[char]) -> (r: Option<
    Candidate,
>)
    requires
        f.body_open + 1 + w.start < f.body_open + 1 + w.end <= src@.len(),
        blen(src@) <= usize::MAX,
    ensures
        match r {
            Some(c) => mutation_snapshot(f@, tracer@, w@, src@) == Some(c@) && placed(c@, src@),
            None => mutation_snapshot(f@, tracer@, w@, src@) is None,
        },
{
    if !f.has_begin_trace {
        return None;
    }
    let len: usize = src.len();
    let base: usize = f.body_open + 1;
    let at = byte_index(src, base + w.end);
    let mut template = if w.closed {
        String::from_str("\n")
    } else {
        String::from_str(";\n")
    };
    template.append(read_lead(src, base + w.start).as_str());
    template.append(tracer);
    template.append(".snapshotText(\"{KEY}\", debug_show ");
    template.append(w.name.as_str());
    template.append(");");
    let mut summary = String::from_str("snapshot `");
    summary.append(w.name.as_str());
    summary.append("` after this assignment");
    Some(
        Candidate {
            rule: Rule::MoMutationSnapshot,
            byte_range: at..at,
            fn_name: f.name.clone(),
            summary,
            warning: None,
            replacement: Replacement::InsertAfterWithKey { template, default_key: w.name.clone() },
        },
    )
}

} // verus!
