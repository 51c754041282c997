//! Keeping JavaScript callers in step with methods that gained a header.
//!
//! Two shapes are recognised: the stub `<method>: IDL.Func([..], ..)`, which
//! gains `Header, `, and the call `<receiver>.<method>(..)`, which gains
//! `trace.header(), `. What has it is left alone.

use vstd::prelude::*;
use vstd::string::*;
use vstd::utf8::*;

use crate::instrument::edit::{
    edit_key, first_overlap, fits, flats, sort_by_start, splice, spliced, FlatEdit, FlatView,
};
use crate::groups::{
    all_members, groups_view, law_put_adds, law_put_keeps_order, ordered, put, put_in, Group,
    GroupView,
};
use crate::instrument::Rule;
use crate::order::{law_sorted, law_sorted_has, sorted};
use crate::text::{
    blen, byte_at, byte_index, chars_of, ends_with, ends_with_str, find, find_str, ident_char,
    is_ident_char, join, joined, lines_of, match_at, matches_at, skip_space, slice, space_end,
    split_lines, starts_with, starts_with_str, texts, trim_start, trim_start_of, utf8_len,
};

verus! {

/// What a reference is.
#[derive(Debug, Clone, Copy, PartialEq, Eq, Structural)]
pub enum RefKind {
    IdlFunc,
    ActorCall,
}

impl RefKind {
    /// What a reference is, in words.
    pub open spec fn name(self) -> Seq<char> {
        match self {
            RefKind::IdlFunc => "IDL.Func"@,
            RefKind::ActorCall => "actor call"@,
        }
    }

    /// What a reference is, in words.
    pub fn as_str(self) -> (r: &'static str)
        ensures
            r@ == self.name(),
    {
        match self {
            RefKind::IdlFunc => "IDL.Func",
            RefKind::ActorCall => "actor call",
        }
    }
}

/// A place in a JavaScript file that wants the header.
#[derive(Debug)]
pub struct Reference {
    pub kind: RefKind,
    pub path: String,
    /// The line, counted from one.
    pub line_no: usize,
    pub line_text: String,
    /// The byte of the line before which the text goes.
    pub insert_col: usize,
    pub insertion: String,
}

/// A reference as a mathematical value.
pub struct RefView {
    pub kind: RefKind,
    pub path: Seq<char>,
    pub line_no: int,
    pub line_text: Seq<char>,
    pub insert_col: int,
    pub insertion: Seq<char>,
}

impl View for Reference {
    type V = RefView;

    open spec fn view(&self) -> RefView {
        RefView {
            kind: self.kind,
            path: self.path@,
            line_no: self.line_no as int,
            line_text: self.line_text@,
            insert_col: self.insert_col as int,
            insertion: self.insertion@,
        }
    }
}

/// The views of a sequence of references.
pub open spec fn refs_view(v: Seq<Reference>) -> Seq<RefView> {
    Seq::new(v.len(), |i: int| v[i]@)
}

// ---------- Finding ----------

/// The arguments begin with the header type.
pub open spec fn has_header_type(args: Seq<char>) -> bool {
    let t = trim_start(args);
    starts_with(t, "Header,"@) || starts_with(t, "Header ]"@) || starts_with(t, "Header]"@)
}

/// `c` can stand in a name; `named` says that it is a letter or a number.
pub open spec fn is_name_char(c: char, named: bool) -> bool {
    is_ident_char(c) || c == '$' || (c as u32 >= 128 && named)
}

/// `c` can stand in a path of names.
pub open spec fn is_path_char(c: char) -> bool {
    is_ident_char(c) || c == '$' || c == '.'
}

/// The end of the run of path characters that begins at `i`.
pub open spec fn path_end(line: Seq<char>, i: int) -> int
    decreases line.len() - i,
{
    if 0 <= i < line.len() && is_path_char(line[i]) {
        path_end(line, i + 1)
    } else {
        i
    }
}

/// Where the arguments of `IDL.Func(` begin, which stands at `i` behind white space. The name may
/// be the last of a path.
pub open spec fn func_open(line: Seq<char>, i: int) -> Option<int> {
    let a = skip_space(line, i);
    let e = path_end(line, a);
    let f = e - "IDL.Func"@.len();
    if e < line.len() && line[e] == '(' && a <= f && match_at(line, f, "IDL.Func"@) && (f == a
        || line[f - 1] == '.') {
        Some(e + 1)
    } else {
        None
    }
}

/// Where the arguments of the stub `<method>: IDL.Func(` begin, where it stands at `k` and no
/// longer name ends there.
#[verifier::opaque]
pub open spec fn stub_open(line: Seq<char>, method: Seq<char>, k: int) -> Option<int> {
    let needle = method + ":"@;
    if match_at(line, k, needle) && !(k > 0 && is_name_char(
        line[k - 1],
        alphanumeric(line[k - 1]),
    )) {
        func_open(line, k + needle.len())
    } else {
        None
    }
}

/// Where the arguments of the first stub of the method at or after `i` begin.
pub open spec fn first_stub(line: Seq<char>, method: Seq<char>, i: int) -> Option<int>
    decreases line.len() - i,
{
    if i < 0 || i >= line.len() {
        None
    } else if stub_open(line, method, i) is Some {
        stub_open(line, method, i)
    } else {
        first_stub(line, method, i + 1)
    }
}

/// Where the list that the arguments at `q` begin with opens. A header that stands before it is
/// passed over.
#[verifier::opaque]
pub open spec fn list_open(line: Seq<char>, q: int) -> Option<int> {
    let b = if match_at(line, q, "trace.header(), "@) {
        skip_space(line, q + "trace.header(), "@.len())
    } else {
        skip_space(line, q)
    };
    if b < line.len() && line[b] == '[' {
        Some(b + 1)
    } else {
        None
    }
}

/// Where the argument list of the first stub `<method>: IDL.Func([` in a line begins.
#[verifier::opaque]
pub open spec fn idl_args(line: Seq<char>, method: Seq<char>) -> Option<int> {
    match first_stub(line, method, 0) {
        Some(q) => list_open(line, q),
        None => None,
    }
}

/// Where the header type goes in a line: at the start of the argument list of
/// `<method>: IDL.Func([`, unless it is there.
pub open spec fn idl_place(line: Seq<char>, method: Seq<char>) -> Option<int> {
    match idl_args(line, method) {
        Some(at) => if has_header_type(line.subrange(at, line.len() as int)) {
            None
        } else {
            Some(at)
        },
        None => None,
    }
}

/// The reference that a line holds, where text goes at `place`.
pub open spec fn reference(
    kind: RefKind,
    insertion: Seq<char>,
    line: Seq<char>,
    place: Option<int>,
    path: Seq<char>,
    line_no: int,
) -> Option<RefView> {
    match place {
        Some(at) => Some(
            RefView {
                kind,
                path,
                line_no,
                line_text: line,
                insert_col: byte_at(line, at) as int,
                insertion,
            },
        ),
        None => None,
    }
}

/// The stub of `method` that a line holds.
pub open spec fn idl_ref(
    line: Seq<char>,
    method: Seq<char>,
    path: Seq<char>,
    line_no: int,
) -> Option<RefView> {
    reference(RefKind::IdlFunc, "Header, "@, line, idl_place(line, method), path, line_no)
}

/// Whether `c` can stand in a name; `named` says that it is a letter or a number.
pub fn name_char(c: char, named: bool) -> (r: bool)
    ensures
        r == is_name_char(c, named),
{
    ident_char(c) || c == '$' || (c as u32 >= 128 && named)
}

fn end_of_path(line: &[char], from: usize) -> (r: usize)
    requires
        from <= line@.len(),
    ensures
        r == path_end(line@, from as int),
        from <= r <= line@.len(),
{
    let mut i: usize = from;
    while i < line.len() && (ident_char(line[i]) || line[i] == '$' || line[i] == '.')
        invariant
            from <= i <= line@.len(),
            path_end(line@, from as int) == path_end(line@, i as int),
        decreases line@.len() - i,
    {
        i += 1;
    }
    i
}

fn find_func_open(line: &[char], i: usize) -> (r: Option<usize>)
    requires
        i <= line@.len(),
    ensures
        match r {
            Some(q) => func_open(line@, i as int) == Some(q as int) && q <= line@.len(),
            None => func_open(line@, i as int) is None,
        },
{
    proof {
        reveal_strlit("IDL.Func");
    }
    let n: usize = line.len();
    let a = space_end(line, i);
    let e = end_of_path(line, a);
    if e >= n || line[e] != '(' || e - a < 8 {
        return None;
    }
    let f: usize = e - 8;
    let name = chars_of("IDL.Func");
    if matches_at(line, f, name.as_slice()) && (f == a || line[f - 1] == '.') {
        Some(e + 1)
    } else {
        None
    }
}

fn find_stub_open(line: &[char], needle: &[char], method: &str, k: usize) -> (r: Option<usize>)
    requires
        k < line@.len(),
        needle@ == method@ + ":"@,
    ensures
        match r {
            Some(q) => stub_open(line@, method@, k as int) == Some(q as int) && q <= line@.len(),
            None => stub_open(line@, method@, k as int) is None,
        },
{
    proof {
        reveal(stub_open);
    }
    let n: usize = line.len();
    if !matches_at(line, k, needle) {
        return None;
    }
    if k > 0 && name_char(line[k - 1], is_alphanumeric(line[k - 1])) {
        return None;
    }
    find_func_open(line, k + needle.len())
}

fn find_list_open(line: &[char], q: usize) -> (r: Option<usize>)
    requires
        q <= line@.len(),
    ensures
        match r {
            Some(at) => list_open(line@, q as int) == Some(at as int) && at <= line@.len(),
            None => list_open(line@, q as int) is None,
        },
{
    proof {
        reveal(list_open);
    }
    let n: usize = line.len();
    let header = chars_of("trace.header(), ");
    let b = if matches_at(line, q, header.as_slice()) {
        space_end(line, q + header.len())
    } else {
        space_end(line, q)
    };
    if b < n && line[b] == '[' {
        Some(b + 1)
    } else {
        None
    }
}

fn find_idl_args(line: &[char], method: &str) -> (r: Option<usize>)
    ensures
        match r {
            Some(at) => idl_args(line@, method@) == Some(at as int) && at <= line@.len(),
            None => idl_args(line@, method@) is None,
        },
{
    proof {
        reveal(idl_args);
    }
    let n: usize = line.len();
    let mut needle = String::from_str(method);
    needle.append(":");
    let needle = chars_of(needle.as_str());
    let mut i: usize = 0;
    while i < n
        invariant
            i <= n == line@.len(),
            needle@ == method@ + ":"@,
            first_stub(line@, method@, 0) == first_stub(line@, method@, i as int),
        decreases n - i,
    {
        if let Some(q) = find_stub_open(line, needle.as_slice(), method, i) {
            proof {
                reveal(idl_args);
            }
            return find_list_open(line, q);
        }
        i += 1;
    }
    None
}

fn find_idl_place(line: &[char], method: &str) -> (r: Option<usize>)
    ensures
        match r {
            Some(at) => idl_place(line@, method@) == Some(at as int) && at <= line@.len(),
            None => idl_place(line@, method@) is None,
        },
{
    let n: usize = line.len();
    match find_idl_args(line, method) {
        Some(at) => {
            let t = trim_start_of(slice(line, at, n));
            if starts_with_str(t, "Header,") || starts_with_str(t, "Header ]") || starts_with_str(
                t,
                "Header]",
            ) {
                None
            } else {
                Some(at)
            }
        },
        None => None,
    }
}

/// The stub of `method` that a line holds.
pub fn match_idl_func(line: &str, method: &str, path: &str, line_no: usize) -> (r: Option<
    Reference,
>)
    ensures
        match r {
            Some(f) => idl_ref(line@, method@, path@, line_no as int) == Some(f@)
                && is_char_boundary(encode_utf8(line@), f.insert_col as int),
            None => idl_ref(line@, method@, path@, line_no as int) is None,
        },
{
    let chars = chars_of(line);
    let len = utf8_len(line);
    match find_idl_place(chars.as_slice(), method) {
        Some(at) => Some(
            Reference {
                kind: RefKind::IdlFunc,
                path: String::from_str(path),
                line_no,
                line_text: String::from_str(line),
                insert_col: byte_index(chars.as_slice(), at),
                insertion: String::from_str("Header, "),
            },
        ),
        None => None,
    }
}

/// `c` is a letter or a number, as `char::is_alphanumeric` says.
pub uninterp spec fn alphanumeric(c: char) -> bool;

/// Calls `char::is_alphanumeric`, whose answer depends on the character alone.
#[verifier::external_body]
fn is_alphanumeric(c: char) -> (r: bool)
    ensures
        r == alphanumeric(c),
{
    c.is_alphanumeric()
}

/// The arguments begin with the header.
pub open spec fn has_header_arg(args: Seq<char>) -> bool {
    let t = trim_start(args);
    starts_with(t, "trace.header()"@) || starts_with(t, "header()"@) || starts_with(
        t,
        "trace_header("@,
    )
}

/// Where `.<method>(` stands in a line.
pub open spec fn call_at(line: Seq<char>, method: Seq<char>) -> Option<int> {
    find(line, "."@ + method + "("@, 0)
}

/// What stands before the `.` of a call, which is never a space; `named` says that it is a letter
/// or a number.
pub open spec fn is_receiver(prev: char, named: bool) -> bool {
    prev != ' ' && (named || prev == '_' || prev == ']' || prev == ')')
}

/// Where the header goes in a line whose call `.<method>(` stands at `pos`, behind a receiver.
pub open spec fn args_place(line: Seq<char>, method: Seq<char>, pos: int) -> Option<int> {
    let at = pos + method.len() + 2;
    if has_header_arg(line.subrange(at, line.len() as int)) {
        None
    } else {
        Some(at)
    }
}

/// Where the header goes in a line: at the start of the arguments of `<receiver>.<method>(`,
/// unless it is there.
pub open spec fn call_place(line: Seq<char>, method: Seq<char>) -> Option<int> {
    match call_at(line, method) {
        Some(pos) => if pos > 0 && is_receiver(line[pos - 1], alphanumeric(line[pos - 1])) {
            args_place(line, method, pos)
        } else {
            None
        },
        None => None,
    }
}

/// The call of `method` that a line holds.
pub open spec fn call_ref(
    line: Seq<char>,
    method: Seq<char>,
    path: Seq<char>,
    line_no: int,
) -> Option<RefView> {
    reference(
        RefKind::ActorCall,
        "trace.header(), "@,
        line,
        call_place(line, method),
        path,
        line_no,
    )
}

/// Whether a call can have `prev` before its `.`; `named` says that it is a letter or a number.
pub fn receiver_ends(prev: char, named: bool) -> (r: bool)
    ensures
        r == is_receiver(prev, named),
{
    prev != ' ' && (named || prev == '_' || prev == ']' || prev == ')')
}

fn find_call_place(line: &[char], method: &str) -> (r: Option<usize>)
    ensures
        match r {
            Some(at) => call_place(line@, method@) == Some(at as int) && at <= line@.len(),
            None => call_place(line@, method@) is None,
        },
{
    let n: usize = line.len();
    let mut needle = String::from_str(".");
    needle.append(method);
    needle.append("(");
    let step: usize = chars_of(needle.as_str()).len();
    proof {
        reveal_strlit(".");
        reveal_strlit("(");
    }
    let pos = match find_str(line, needle.as_str(), 0) {
        Some(pos) => pos,
        None => {
            return None;
        },
    };
    if pos == 0 || !receiver_ends(line[pos - 1], is_alphanumeric(line[pos - 1])) {
        return None;
    }
    let at: usize = pos + step;
    let t = trim_start_of(slice(line, at, n));
    if starts_with_str(t, "trace.header()") || starts_with_str(t, "header()") || starts_with_str(
        t,
        "trace_header(",
    ) {
        None
    } else {
        Some(at)
    }
}

/// The call of `method` that a line holds.
pub fn match_actor_call(line: &str, method: &str, path: &str, line_no: usize) -> (r: Option<
    Reference,
>)
    ensures
        match r {
            Some(f) => call_ref(line@, method@, path@, line_no as int) == Some(f@)
                && is_char_boundary(encode_utf8(line@), f.insert_col as int),
            None => call_ref(line@, method@, path@, line_no as int) is None,
        },
{
    let chars = chars_of(line);
    let len = utf8_len(line);
    match find_call_place(chars.as_slice(), method) {
        Some(at) => Some(
            Reference {
                kind: RefKind::ActorCall,
                path: String::from_str(path),
                line_no,
                line_text: String::from_str(line),
                insert_col: byte_index(chars.as_slice(), at),
                insertion: String::from_str("trace.header(), "),
            },
        ),
        None => None,
    }
}

/// The item of an option as a sequence of at most one.
pub open spec fn one(r: Option<RefView>) -> Seq<RefView> {
    match r {
        Some(r) => seq![r],
        None => Seq::empty(),
    }
}

/// The references to `method` in the first `n` lines, stub before call.
pub open spec fn refs_in(
    lines: Seq<Seq<char>>,
    method: Seq<char>,
    path: Seq<char>,
    n: nat,
) -> Seq<RefView>
    decreases n,
{
    if n == 0 || n > lines.len() {
        Seq::empty()
    } else {
        refs_in(lines, method, path, (n - 1) as nat) + (one(
            idl_ref(lines[n - 1], method, path, n as int),
        ) + one(call_ref(lines[n - 1], method, path, n as int)))
    }
}

fn push_one(out: &mut Vec<Reference>, r: Option<Reference>)
    ensures
        refs_view(final(out)@) == refs_view(old(out)@) + one(
            match r {
                Some(r) => Some(r@),
                None => None,
            },
        ),
{
    let ghost before = refs_view(out@);
    match r {
        Some(r) => {
            let ghost found = r@;
            out.push(r);
            assert(refs_view(out@) =~= before + seq![found]);
        },
        None => {
            assert(before + Seq::<RefView>::empty() =~= before);
        },
    }
}

/// The references to `method` in the text `src` of the file at `path`.
pub fn find_references(method: &str, path: &str, src: &str) -> (out: Vec<Reference>)
    ensures
        refs_view(out@) == refs_in(lines_of(src@), method@, path@, lines_of(src@).len()),
        forall|k: int|
            0 <= k < out@.len() ==> falls_between(#[trigger] refs_view(out@)[k], lines_of(src@)),
{
    let chars = chars_of(src);
    let lines = split_lines(chars.as_slice());
    let ghost all = lines_of(src@);
    let mut out: Vec<Reference> = Vec::new();
    assert(refs_view(out@) =~= refs_in(all, method@, path@, 0));
    let mut i: usize = 0;
    while i < lines.len()
        invariant
            i <= lines@.len(),
            all == texts(lines@),
            refs_view(out@) == refs_in(all, method@, path@, i as nat),
            forall|k: int|
                0 <= k < out@.len() ==> falls_between(#[trigger] refs_view(out@)[k], all),
        decreases lines@.len() - i,
    {
        let ghost before = refs_view(out@);
        let line = lines[i].as_str();
        assert(line@ == all[i as int]);
        let stub = match_idl_func(line, method, path, i + 1);
        assert(stub matches Some(r) ==> falls_between(r@, all));
        push_one(&mut out, stub);
        let call = match_actor_call(line, method, path, i + 1);
        assert(call matches Some(r) ==> falls_between(r@, all));
        push_one(&mut out, call);
        proof {
            let a = one(idl_ref(all[i as int], method@, path@, i + 1));
            let b = one(call_ref(all[i as int], method@, path@, i + 1));
            assert(before + a + b =~= before + (a + b));
        }
        i += 1;
    }
    out
}

// ---------- Applying ----------

/// The insertion of a reference, as an edit of its line.
pub open spec fn insertion_of(r: RefView) -> FlatView {
    FlatView {
        rule: Rule::WrapMethodInsertHeader,
        start: r.insert_col,
        end: r.insert_col,
        text: r.insertion,
    }
}

/// The insertions that the first `n` references make in line `line_no` of `width` bytes, the last
/// first.
pub open spec fn insertions(rs: Seq<RefView>, line_no: int, width: int, n: nat) -> Seq<FlatView>
    decreases n,
{
    if n == 0 || n > rs.len() {
        Seq::empty()
    } else {
        let rest = insertions(rs, line_no, width, (n - 1) as nat);
        if rs[n - 1].line_no == line_no && rs[n - 1].insert_col <= width {
            seq![insertion_of(rs[n - 1])] + rest
        } else {
            rest
        }
    }
}

/// The insertions that references make in a line, by their places.
pub open spec fn line_insertions(rs: Seq<RefView>, line_no: int, line: Seq<char>) -> Seq<FlatView> {
    let es = insertions(rs, line_no, blen(line) as int, rs.len());
    sorted(es, edit_key(), es.len())
}

/// A line with the insertions of the references to it made.
pub open spec fn line_after(rs: Seq<RefView>, line_no: int, line: Seq<char>) -> Seq<char> {
    decode_utf8(spliced(encode_utf8(line), line_insertions(rs, line_no, line), 0, 0))
}

/// The lines with the insertions of the references to them made.
pub open spec fn lines_after(rs: Seq<RefView>, lines: Seq<Seq<char>>) -> Seq<Seq<char>> {
    Seq::new(lines.len(), |i: int| line_after(rs, i + 1, lines[i]))
}

/// The reference falls into a line of `lines`.
pub open spec fn falls_into(r: RefView, lines: Seq<Seq<char>>) -> bool {
    1 <= r.line_no <= lines.len() && r.insert_col <= blen(lines[r.line_no - 1])
}

/// The number of the first `n` references that fall into a line.
pub open spec fn edit_count(rs: Seq<RefView>, lines: Seq<Seq<char>>, n: nat) -> nat
    decreases n,
{
    if n == 0 || n > rs.len() {
        0
    } else {
        edit_count(rs, lines, (n - 1) as nat) + if falls_into(rs[n - 1], lines) {
            1nat
        } else {
            0nat
        }
    }
}

/// A text with the insertions of the references to its lines made. Lines are parted by line
/// feeds; the last has one where it had one.
pub open spec fn text_after(rs: Seq<RefView>, src: Seq<char>) -> Seq<char> {
    let lines = lines_after(rs, lines_of(src));
    let text = joined(lines, "\n"@, lines.len());
    if ends_with(src, "\n"@) {
        text + "\n"@
    } else {
        text
    }
}

/// The reference, where it falls into a line of `lines`, falls between characters.
pub open spec fn falls_between(r: RefView, lines: Seq<Seq<char>>) -> bool {
    falls_into(r, lines) ==> is_char_boundary(encode_utf8(lines[r.line_no - 1]), r.insert_col)
}

fn collect_insertions(rs: &[Reference], line_no: usize, width: usize) -> (out: Vec<FlatEdit>)
    ensures
        flats(out@) == insertions(refs_view(rs@), line_no as int, width as int, rs@.len()),
{
    let ghost all = refs_view(rs@);
    let mut out: Vec<FlatEdit> = Vec::new();
    assert(flats(out@) =~= insertions(all, line_no as int, width as int, 0));
    let mut i: usize = 0;
    while i < rs.len()
        invariant
            i <= rs@.len(),
            all == refs_view(rs@),
            flats(out@) == insertions(all, line_no as int, width as int, i as nat),
        decreases rs@.len() - i,
    {
        let r = &rs[i];
        assert(all[i as int] == r@);
        if r.line_no == line_no && r.insert_col <= width {
            let ghost before = flats(out@);
            let e = FlatEdit {
                rule: Rule::WrapMethodInsertHeader,
                start: r.insert_col,
                end: r.insert_col,
                text: r.insertion.clone(),
            };
            let ghost found = e@;
            out.insert(0, e);
            assert(flats(out@) =~= seq![found] + before);
        }
        i += 1;
    }
    out
}

proof fn lemma_no_overlap(es: Seq<FlatView>, i: int)
    requires
        0 <= i,
        forall|k: int| 0 <= k < es.len() ==> (#[trigger] es[k]).start == es[k].end,
    ensures
        first_overlap(es, i) is None,
    decreases es.len() - i,
{
    if i + 1 < es.len() {
        lemma_no_overlap(es, i + 1);
    }
}

fn apply_to_line(line: &str, rs: &[Reference], line_no: usize) -> (r: String)
    requires
        forall|k: int|
            0 <= k < rs@.len() ==> only_on(#[trigger] refs_view(rs@)[k], line_no as int, line@),
    ensures
        r@ == line_after(refs_view(rs@), line_no as int, line@),
{
    let width = utf8_len(line);
    let es = collect_insertions(rs, line_no, width);
    let ghost found = flats(es@);
    let ghost rv = refs_view(rs@);
    let sorted_es = sort_by_start(es);
    proof {
        lemma_insertions_of_line(rv, line_no as int, line@, rv.len());
        law_sorted(found, edit_key(), found.len());
        law_sorted_has(found, edit_key());
        let out = flats(sorted_es@);
        assert forall|k: int| 0 <= k < out.len() implies (#[trigger] out[k]).start == out[k].end
            && fits(out[k], encode_utf8(line@)) by {
            assert(found.contains(out[k]));
        }
        lemma_no_overlap(out, 0);
    }
    let out = splice(line, &sorted_es);
    proof {
        encode_utf8_decode_utf8(out@);
    }
    out
}

/// The reference, where it falls into the line, falls between characters.
spec fn only_on(r: RefView, line_no: int, line: Seq<char>) -> bool {
    r.insert_col >= 0 && (r.line_no == line_no && r.insert_col <= blen(line) ==> is_char_boundary(
        encode_utf8(line),
        r.insert_col,
    ))
}

proof fn lemma_insertions_of_line(rs: Seq<RefView>, line_no: int, line: Seq<char>, n: nat)
    requires
        n <= rs.len(),
        forall|i: int| 0 <= i < rs.len() ==> only_on(#[trigger] rs[i], line_no, line),
    ensures
        forall|k: int|
            0 <= k < insertions(rs, line_no, blen(line) as int, n).len() ==> {
                let e = #[trigger] insertions(rs, line_no, blen(line) as int, n)[k];
                e.start == e.end && fits(e, encode_utf8(line))
            },
    decreases n,
{
    if n > 0 {
        lemma_insertions_of_line(rs, line_no, line, (n - 1) as nat);
        let rest = insertions(rs, line_no, blen(line) as int, (n - 1) as nat);
        let all = insertions(rs, line_no, blen(line) as int, n);
        assert(only_on(rs[n - 1], line_no, line));
        assert forall|k: int| 0 <= k < all.len() implies {
            let e = #[trigger] all[k];
            e.start == e.end && fits(e, encode_utf8(line))
        } by {
            if all.len() > rest.len() && k > 0 {
                assert(all[k] == rest[k - 1]);
            }
        }
    }
}

fn count_edits(rs: &[Reference], lines: &Vec<String>) -> (n: usize)
    ensures
        n == edit_count(refs_view(rs@), texts(lines@), rs@.len()),
{
    let ghost all = refs_view(rs@);
    let mut n: usize = 0;
    let mut i: usize = 0;
    while i < rs.len()
        invariant
            i <= rs@.len(),
            n <= i,
            all == refs_view(rs@),
            n == edit_count(all, texts(lines@), i as nat),
        decreases rs@.len() - i,
    {
        let r = &rs[i];
        assert(all[i as int] == r@);
        if r.line_no > 0 && r.line_no <= lines.len() && r.insert_col <= utf8_len(
            lines[r.line_no - 1].as_str(),
        ) {
            n += 1;
        }
        i += 1;
    }
    n
}

/// Make the insertions of the references to the lines of `src`, and say how many were made.
pub fn apply(src: &str, references: &[Reference]) -> (r: (String, usize))
    requires
        forall|k: int|
            0 <= k < references@.len() ==> falls_between(
                #[trigger] refs_view(references@)[k],
                lines_of(src@),
            ),
    ensures
        r.0@ == text_after(refs_view(references@), src@),
        r.1 == edit_count(refs_view(references@), lines_of(src@), references@.len()),
{
    let chars = chars_of(src);
    let lines = split_lines(chars.as_slice());
    let ghost all = lines_of(src@);
    let ghost rv = refs_view(references@);
    let mut done: Vec<String> = Vec::new();
    let mut i: usize = 0;
    while i < lines.len()
        invariant
            i <= lines@.len(),
            all == texts(lines@),
            rv == refs_view(references@),
            forall|k: int| 0 <= k < rv.len() ==> falls_between(#[trigger] rv[k], all),
            texts(done@) == lines_after(rv, all).subrange(0, i as int),
        decreases lines@.len() - i,
    {
        let ghost before = texts(done@);
        assert(lines@[i as int]@ == all[i as int]);
        assert forall|k: int| 0 <= k < rv.len() implies only_on(
            #[trigger] rv[k],
            i + 1,
            all[i as int],
        ) by {
            assert(falls_between(rv[k], all));
            assert(rv[k] == references@[k]@);
        }
        done.push(apply_to_line(lines[i].as_str(), references, i + 1));
        assert(texts(done@) =~= before.push(lines_after(rv, all)[i as int]));
        i += 1;
        assert(texts(done@) =~= lines_after(rv, all).subrange(0, i as int));
    }
    assert(texts(done@) =~= lines_after(rv, all));
    let mut out = join(&done, "\n");
    if ends_with_str(chars.as_slice(), "\n") {
        out.append("\n");
    }
    (out, count_edits(references, &lines))
}

// ---------- By file ----------

/// The first `n` references by the files that they are in.
pub open spec fn files(rs: Seq<Reference>, n: nat) -> Seq<GroupView<Reference>>
    decreases n,
{
    if n == 0 || n > rs.len() {
        Seq::empty()
    } else {
        put_in(files(rs, (n - 1) as nat), rs[n - 1].path@, Seq::empty(), rs[n - 1])
    }
}

/// The references by the files that they are in, each file once.
pub fn by_path(references: Vec<Reference>) -> (out: Vec<Group<Reference>>)
    ensures
        groups_view(out@) == files(references@, references@.len()),
{
    let ghost all = references@;
    let ghost mut done: nat = 0;
    let mut rest = references;
    let mut gs: Vec<Group<Reference>> = Vec::new();
    assert(all.subrange(0, all.len() as int) =~= all);
    assert(groups_view(gs@) =~= Seq::<GroupView<Reference>>::empty());
    while rest.len() > 0
        invariant
            done + rest@.len() == all.len(),
            rest@ == all.subrange(done as int, all.len() as int),
            groups_view(gs@) == files(all, done),
        decreases rest@.len(),
    {
        let r = rest.remove(0);
        assert(r == all[done as int]);
        put(&mut gs, r.path.clone(), String::new(), r);
        proof {
            done = done + 1;
        }
        assert(rest@ =~= all.subrange(done as int, all.len() as int));
    }
    gs
}

/// No file comes twice, and no reference is lost.
pub proof fn law_files_hold_all(rs: Seq<Reference>, n: nat)
    requires
        n <= rs.len(),
    ensures
        ordered(files(rs, n)),
        all_members(files(rs, n)) == rs.subrange(0, n as int).to_multiset(),
    decreases n,
{
    if n == 0 {
        assert(rs.subrange(0, 0) =~= Seq::<Reference>::empty());
        assert(all_members(files(rs, 0)) =~= rs.subrange(0, 0).to_multiset()) by {
            broadcast use vstd::seq_lib::group_to_multiset_ensures;

        }
    } else {
        let m = (n - 1) as nat;
        let r = rs[n - 1];
        law_files_hold_all(rs, m);
        law_put_keeps_order(files(rs, m), r.path@, Seq::empty(), r);
        law_put_adds(files(rs, m), r.path@, Seq::empty(), r);
        let before = rs.subrange(0, m as int);
        assert(rs.subrange(0, n as int) =~= before.push(r));
        vstd::seq_lib::to_multiset_build(before, r);
    }
}

} // verus!
