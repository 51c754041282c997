//! Which places of a JavaScript file want the header, and what becomes of their
//! lines.

use vstd::prelude::*;
use vstd::string::*;
use vstd::utf8::*;

use crate::instrument::agent_js::{
    alphanumeric, edit_count, lines_after, text_after, call_at, call_ref, first_stub, func_open,
    idl_args, idl_ref, insertion_of, insertions, line_after, line_insertions, list_open, one,
    path_end, refs_in, stub_open, RefKind, RefView,
};
use crate::instrument::agent_js_rerun::{lemma_joined_front, lemma_splice_one};
use crate::instrument::edit::{spliced, FlatView};
use crate::order::{slot, sorted};
use crate::text::{
    joined, lemma_line_end, line_end, line_text, lines_from, lines_of, next_line, blen, byte_at,
    find, is_ident_char, is_space, lemma_byte_at, lemma_find, match_at, skip_space, starts_with,
    trim_start,
};

verus! {

/// Behind white space, `s` goes on with `p` at `i`.
pub open spec fn goes_on(s: Seq<char>, i: int, p: Seq<char>) -> bool {
    exists|a: int|
        i <= a && a + p.len() <= s.len() && #[trigger] s.subrange(a, a + p.len()) == p && (forall|
            k: int,
        |
            i <= k < a ==> is_space(#[trigger] s[k]))
}

proof fn lemma_skip(s: Seq<char>, i: int)
    requires
        0 <= i <= s.len(),
    ensures
        i <= skip_space(s, i) <= s.len(),
        forall|k: int| i <= k < skip_space(s, i) ==> is_space(#[trigger] s[k]),
        skip_space(s, i) < s.len() ==> !is_space(s[skip_space(s, i)]),
    decreases s.len() - i,
{
    if i < s.len() && is_space(s[i]) {
        lemma_skip(s, i + 1);
    }
}

proof fn lemma_skip_is(s: Seq<char>, i: int, e: int)
    requires
        0 <= i <= e < s.len(),
        forall|k: int| i <= k < e ==> is_space(#[trigger] s[k]),
        !is_space(s[e]),
    ensures
        skip_space(s, i) == e,
    decreases e - i,
{
    if i < e {
        assert(is_space(s[i]));
        lemma_skip_is(s, i + 1, e);
    }
}

proof fn lemma_goes_on(s: Seq<char>, i: int, p: Seq<char>)
    requires
        0 <= i <= s.len(),
        p.len() > 0,
        !is_space(p[0]),
    ensures
        starts_with(trim_start(s.subrange(i, s.len() as int)), p) <==> goes_on(s, i, p),
{
    let t = s.subrange(i, s.len() as int);
    lemma_skip(t, 0);
    let n = skip_space(t, 0);
    let u = trim_start(t);
    assert(u =~= s.subrange(i + n, s.len() as int));
    if starts_with(u, p) {
        assert(s.subrange(i + n, i + n + p.len()) =~= u.subrange(0, p.len() as int));
        assert forall|k: int| i <= k < i + n implies is_space(#[trigger] s[k]) by {
            assert(t[k - i] == s[k]);
        }
    }
    if goes_on(s, i, p) {
        let a = choose|a: int|
            i <= a && a + p.len() <= s.len() && #[trigger] s.subrange(a, a + p.len()) == p && (
            forall|k: int| i <= k < a ==> is_space(#[trigger] s[k]));
        assert(s.subrange(a, a + p.len())[0] == s[a]);
        assert forall|k: int| 0 <= k < a - i implies is_space(#[trigger] t[k]) by {
            assert(t[k] == s[k + i]);
        }
        assert(t[a - i] == s[a]);
        lemma_skip_is(t, 0, a - i);
        assert(u.subrange(0, p.len() as int) =~= s.subrange(a, a + p.len()));
    }
}

/// The first call of a method in a line, on a receiver, is given the header as its first argument,
/// unless it has it. `p` is where the `.` of the call stands.
pub proof fn law_call_is_given_the_header(
    line: Seq<char>,
    method: Seq<char>,
    path: Seq<char>,
    line_no: int,
    p: int,
)
    requires
        0 < p,
        p + method.len() + 2 <= line.len(),
        line.subrange(p, p + method.len() + 2) == "."@ + method + "("@,
        forall|k: int|
            0 <= k < p ==> #[trigger] line.subrange(k, k + method.len() + 2) != "."@ + method
                + "("@,
        line[p - 1] != ' ',
        alphanumeric(line[p - 1]) || line[p - 1] == '_' || line[p - 1] == ']' || line[p - 1] == ')',
    ensures
        ({
            let at = p + method.len() + 2;
            let there = goes_on(line, at, "trace.header()"@) || goes_on(line, at, "header()"@)
                || goes_on(line, at, "trace_header("@);
            &&& there ==> call_ref(line, method, path, line_no) is None
            &&& !there ==> call_ref(line, method, path, line_no) == Some(
                RefView {
                    kind: RefKind::ActorCall,
                    path,
                    line_no,
                    line_text: line,
                    insert_col: byte_at(line, at) as int,
                    insertion: "trace.header(), "@,
                },
            )
        }),
{
    reveal_strlit(".");
    reveal_strlit("(");
    reveal_strlit("trace.header()");
    reveal_strlit("header()");
    reveal_strlit("trace_header(");
    let w = "."@ + method + "("@;
    assert(w.len() == method.len() + 2);
    lemma_find(line, w, 0);
    assert(match_at(line, p, w));
    let k = find(line, w, 0)->0;
    if k < p {
        assert(line.subrange(k, k + method.len() + 2) == w);
    }
    assert(call_at(line, method) == Some(p));
    let at = p + method.len() + 2;
    lemma_goes_on(line, at, "trace.header()"@);
    lemma_goes_on(line, at, "header()"@);
    lemma_goes_on(line, at, "trace_header("@);
}

/// Where a line holds no call of the method, it is left alone, and so is a call with nothing or a
/// space before its `.`.
pub proof fn law_no_call_no_reference(
    line: Seq<char>,
    method: Seq<char>,
    path: Seq<char>,
    line_no: int,
)
    requires
        forall|k: int|
            0 < k && k + method.len() + 2 <= line.len() && #[trigger] line[k - 1] != ' '
                ==> line.subrange(k, k + method.len() + 2) != "."@ + method + "("@,
    ensures
        call_ref(line, method, path, line_no) is None,
{
    reveal_strlit(".");
    reveal_strlit("(");
    let w = "."@ + method + "("@;
    lemma_find(line, w, 0);
    if let Some(k) = find(line, w, 0) {
        if k > 0 {
            assert(line[k - 1] == line[k - 1]);
        }
    }
}

proof fn lemma_first_stub_at(line: Seq<char>, method: Seq<char>, i: int, k: int)
    requires
        0 <= i <= k < line.len(),
        stub_open(line, method, k) is Some,
        forall|j: int| i <= j < k ==> #[trigger] stub_open(line, method, j) is None,
    ensures
        first_stub(line, method, i) == stub_open(line, method, k),
    decreases k - i,
{
    if i < k {
        assert(stub_open(line, method, i) is None);
        lemma_first_stub_at(line, method, i + 1, k);
    }
}

/// The stub `<method>: IDL.Func([` of a line is given the header type as its first argument, unless
/// it has it. `k` is where the stub stands; no other one of the name stands before it, and it is no
/// part of a longer name.
pub proof fn law_stub_is_given_the_header(
    line: Seq<char>,
    method: Seq<char>,
    path: Seq<char>,
    line_no: int,
    k: int,
)
    requires
        0 <= k,
        k + method.len() + 12 <= line.len(),
        line.subrange(k, k + method.len() + 12) == method + ": IDL.Func(["@,
        forall|j: int|
            0 <= j < k ==> #[trigger] line.subrange(j, j + method.len() + 1) != method + ":"@,
        k > 0 ==> !is_ident_char(line[k - 1]) && line[k - 1] != '$' && (line[k - 1] as u32) < 128,
    ensures
        ({
            let at = k + method.len() + 12;
            let there = goes_on(line, at, "Header,"@) || goes_on(line, at, "Header ]"@) || goes_on(
                line,
                at,
                "Header]"@,
            );
            &&& there ==> idl_ref(line, method, path, line_no) is None
            &&& !there ==> idl_ref(line, method, path, line_no) == Some(
                RefView {
                    kind: RefKind::IdlFunc,
                    path,
                    line_no,
                    line_text: line,
                    insert_col: byte_at(line, at) as int,
                    insertion: "Header, "@,
                },
            )
        }),
{
    reveal_strlit(":");
    reveal_strlit(": IDL.Func([");
    reveal_strlit("IDL.Func");
    reveal_strlit("Header,");
    reveal_strlit("Header ]");
    reveal_strlit("Header]");
    reveal_strlit("trace.header(), ");
    reveal(stub_open);
    reveal(list_open);
    reveal(idl_args);
    let n = method.len() as int;
    let e = k + n;
    let w = line.subrange(k, e + 12);
    let text = method + ": IDL.Func(["@;
    assert forall|x: int| 0 <= x < 12 implies #[trigger] line[e + x] == ": IDL.Func(["@[x] by {
        assert(w[n + x] == line[e + x]);
        assert(text[n + x] == ": IDL.Func(["@[x]);
    }
    assert(line[e + 0] == ':');
    assert(line[e + 1] == ' ');
    assert(line[e + 2] == 'I');
    assert(line[e + 3] == 'D');
    assert(line[e + 4] == 'L');
    assert(line[e + 5] == '.');
    assert(line[e + 6] == 'F');
    assert(line[e + 7] == 'u');
    assert(line[e + 8] == 'n');
    assert(line[e + 9] == 'c');
    assert(line[e + 10] == '(');
    assert(line[e + 11] == '[');
    assert(line.subrange(k, e) =~= w.subrange(0, n));
    assert(text.subrange(0, n) =~= method);
    assert(line.subrange(k, e + 1) =~= method + ":"@);
    assert(line.subrange(e + 2, e + 10) =~= "IDL.Func"@);
    lemma_skip_is(line, e + 1, e + 2);
    reveal_with_fuel(path_end, 10);
    assert(path_end(line, e + 2) == e + 10);
    assert(func_open(line, e + 1) == Some(e + 11));
    assert(stub_open(line, method, k) == Some(e + 11));
    assert forall|j: int| 0 <= j < k implies #[trigger] stub_open(line, method, j) is None by {
        assert(line.subrange(j, j + method.len() + 1) != method + ":"@);
    }
    lemma_first_stub_at(line, method, 0, k);
    if match_at(line, e + 11, "trace.header(), "@) {
        assert(line.subrange(e + 11, e + 27)[0] == line[e + 11]);
    }
    lemma_skip_is(line, e + 11, e + 11);
    assert(list_open(line, e + 11) == Some(e + 12));
    let at = e + 12;
    lemma_goes_on(line, at, "Header,"@);
    lemma_goes_on(line, at, "Header ]"@);
    lemma_goes_on(line, at, "Header]"@);
}

/// Where the name stands nowhere in a line with a `:` behind it, the line holds no stub of it.
pub proof fn law_no_stub_no_reference(
    line: Seq<char>,
    method: Seq<char>,
    path: Seq<char>,
    line_no: int,
)
    requires
        forall|j: int| #[trigger] line.subrange(j, j + method.len() + 1) != method + ":"@,
    ensures
        idl_ref(line, method, path, line_no) is None,
{
    reveal_strlit(":");
    reveal(idl_args);
    lemma_no_stub(line, method, 0);
}

proof fn lemma_no_stub(line: Seq<char>, method: Seq<char>, i: int)
    requires
        forall|j: int| #[trigger] line.subrange(j, j + method.len() + 1) != method + ":"@,
    ensures
        first_stub(line, method, i) is None,
    decreases line.len() - i,
{
    reveal_strlit(":");
    if 0 <= i < line.len() {
        reveal(stub_open);
        assert(line.subrange(i, i + method.len() + 1) != method + ":"@);
        lemma_no_stub(line, method, i + 1);
    }
}

/// The references of a file are those of its lines, each with the number of its line, counted from
/// one: every one of them and no others.
pub proof fn law_every_line_is_searched(
    lines: Seq<Seq<char>>,
    method: Seq<char>,
    path: Seq<char>,
    n: nat,
    r: RefView,
)
    requires
        n <= lines.len(),
    ensures
        refs_in(lines, method, path, n).contains(r) <==> exists|i: int|
            0 <= i < n && (idl_ref(#[trigger] lines[i], method, path, i + 1) == Some(r) || call_ref(
                lines[i],
                method,
                path,
                i + 1,
            ) == Some(r)),
    decreases n,
{
    if n > 0 {
        law_every_line_is_searched(lines, method, path, (n - 1) as nat, r);
        let before = refs_in(lines, method, path, (n - 1) as nat);
        let a = one(idl_ref(lines[n - 1], method, path, n as int));
        let b = one(call_ref(lines[n - 1], method, path, n as int));
        let all = before + (a + b);
        if before.contains(r) {
            let x = choose|x: int| 0 <= x < before.len() && before[x] == r;
            assert(all[x] == r);
        }
        if idl_ref(lines[n - 1], method, path, n as int) == Some(r) {
            assert(all[before.len() as int] == r);
        }
        if call_ref(lines[n - 1], method, path, n as int) == Some(r) {
            assert(all[before.len() as int + a.len()] == r);
        }
        if all.contains(r) && !before.contains(r) {
            let x = choose|x: int| 0 <= x < all.len() && all[x] == r;
            if x < before.len() {
                assert(before[x] == r);
            }
            assert(lines[n - 1] == lines[n - 1]);
        }
    }
}

/// A line with one reference to it gains its text at its place, and nothing else.
pub proof fn law_line_gains_the_text(r: RefView, line: Seq<char>, at: int)
    requires
        0 <= at <= line.len(),
        r.insert_col == byte_at(line, at),
    ensures
        line_after(seq![r], r.line_no, line) == line.subrange(0, at) + r.insertion + line.subrange(
            at,
            line.len() as int,
        ),
{
    let e = insertion_of(r);
    lemma_byte_at(line, at, line.len() as int);
    assert(line.subrange(0, line.len() as int) =~= line);
    reveal_with_fuel(insertions, 2);
    let es = insertions(seq![r], r.line_no, blen(line) as int, 1);
    assert(es =~= seq![e]);
    reveal_with_fuel(sorted, 2);
    reveal_with_fuel(slot, 2);
    assert(line_insertions(seq![r], r.line_no, line) =~= seq![e]);
    lemma_splice_one(line, e, at);
    encode_utf8_decode_utf8(
        line.subrange(0, at) + r.insertion + line.subrange(at, line.len() as int),
    );
}

proof fn lemma_no_insertions(rs: Seq<RefView>, line_no: int, width: int, n: nat)
    requires
        n <= rs.len(),
        forall|i: int| 0 <= i < rs.len() ==> (#[trigger] rs[i]).line_no != line_no,
    ensures
        insertions(rs, line_no, width, n) == Seq::<FlatView>::empty(),
    decreases n,
{
    if n > 0 {
        assert(rs[n - 1].line_no != line_no);
        lemma_no_insertions(rs, line_no, width, (n - 1) as nat);
    }
}

/// A line with no reference to it stays as it is.
pub proof fn law_other_lines_stay(rs: Seq<RefView>, line_no: int, line: Seq<char>)
    requires
        forall|i: int| 0 <= i < rs.len() ==> (#[trigger] rs[i]).line_no != line_no,
    ensures
        line_after(rs, line_no, line) == line,
{
    lemma_no_insertions(rs, line_no, blen(line) as int, rs.len());
    let bytes = encode_utf8(line);
    assert(line_insertions(rs, line_no, line) =~= Seq::<FlatView>::empty());
    assert(spliced(bytes, Seq::<FlatView>::empty(), 0, 0) =~= bytes);
    encode_utf8_decode_utf8(line);
}

proof fn lemma_lines_joined(s: Seq<char>, i: int)
    requires
        0 <= i < s.len(),
        forall|k: int| 0 <= k < s.len() ==> #[trigger] s[k] != '\r',
    ensures
        lines_from(s, i).len() > 0,
        s.subrange(i, s.len() as int) == joined(lines_from(s, i), "\n"@, lines_from(s, i).len()) + (
        if s.last() == '\n' {
            "\n"@
        } else {
            Seq::empty()
        }),
    decreases s.len() - i,
{
    reveal_strlit("\n");
    lemma_line_end(s, i);
    let e = line_end(s, i);
    let next = next_line(s, i);
    let first = line_text(s, i);
    if i < e {
        assert(s[e - 1] != '\r');
    }
    assert(first == s.subrange(i, e));
    let rest = lines_from(s, next);
    let all = lines_from(s, i);
    assert(all == seq![first] + rest);
    let whole = s.subrange(i, s.len() as int);
    if next < s.len() {
        lemma_lines_joined(s, next);
        lemma_joined_front(all, "\n"@, all.len());
        assert(all.drop_first() =~= rest);
        assert(whole =~= first + "\n"@ + s.subrange(next, s.len() as int));
        let tail = joined(rest, "\n"@, rest.len());
        let end = if s.last() == '\n' {
            "\n"@
        } else {
            Seq::empty()
        };
        assert(first + "\n"@ + (tail + end) =~= first + "\n"@ + tail + end);
    } else {
        assert(rest =~= Seq::<Seq<char>>::empty());
        assert(all =~= seq![first]);
        assert(joined(all, "\n"@, 1) == first);
        if e < s.len() {
            assert(whole =~= first + "\n"@);
        } else {
            assert(s.last() == s[e - 1]);
            assert(whole =~= first + Seq::empty());
        }
    }
}

/// A text without references stays as it is, where its lines end in line feeds alone.
pub proof fn law_no_references_no_change(src: Seq<char>)
    requires
        forall|k: int| 0 <= k < src.len() ==> #[trigger] src[k] != '\r',
    ensures
        text_after(Seq::empty(), src) == src,
{
    reveal_strlit("\n");
    let none = Seq::<RefView>::empty();
    let lines = lines_of(src);
    let after = lines_after(none, lines);
    assert forall|i: int| 0 <= i < lines.len() implies #[trigger] after[i] == lines[i] by {
        law_other_lines_stay(none, i + 1, lines[i]);
    }
    assert(after =~= lines);
    if src.len() > 0 {
        lemma_lines_joined(src, 0);
        assert(src.subrange(0, src.len() as int) =~= src);
        let n = src.len() as int;
        let t = src.subrange(n - 1, n);
        assert(t[0] == src.last());
        if src.last() == '\n' {
            assert(t =~= "\n"@);
        }
        assert(joined(lines, "\n"@, lines.len()) + Seq::empty() =~= joined(
            lines,
            "\n"@,
            lines.len(),
        ));
    } else {
        assert(text_after(none, src) =~= src);
    }
}

proof fn lemma_edit_count(rs: Seq<RefView>, lines: Seq<Seq<char>>, n: nat)
    requires
        n <= rs.len(),
        forall|i: int|
            0 <= i < rs.len() ==> 1 <= (#[trigger] rs[i]).line_no <= lines.len()
                && rs[i].insert_col <= blen(lines[rs[i].line_no - 1]),
    ensures
        edit_count(rs, lines, n) == n,
    decreases n,
{
    if n > 0 {
        assert(rs[n - 1].line_no <= lines.len());
        lemma_edit_count(rs, lines, (n - 1) as nat);
    }
}

/// Every reference that falls into a line counts as an edit.
pub proof fn law_edits_are_counted(rs: Seq<RefView>, lines: Seq<Seq<char>>)
    requires
        forall|i: int|
            0 <= i < rs.len() ==> 1 <= (#[trigger] rs[i]).line_no <= lines.len()
                && rs[i].insert_col <= blen(lines[rs[i].line_no - 1]),
    ensures
        edit_count(rs, lines, rs.len()) == rs.len(),
{
    lemma_edit_count(rs, lines, rs.len());
}

/// The first call of a method in a line is left alone where no receiver stands before its `.`.
pub proof fn law_call_needs_a_receiver(
    line: Seq<char>,
    method: Seq<char>,
    path: Seq<char>,
    line_no: int,
    p: int,
)
    requires
        0 <= p,
        p + method.len() + 2 <= line.len(),
        line.subrange(p, p + method.len() + 2) == "."@ + method + "("@,
        forall|k: int|
            0 <= k < p ==> #[trigger] line.subrange(k, k + method.len() + 2) != "."@ + method
                + "("@,
        p == 0 || line[p - 1] == ' ' || !(alphanumeric(line[p - 1]) || line[p - 1] == '_' || line[p
            - 1] == ']' || line[p - 1] == ')'),
    ensures
        call_ref(line, method, path, line_no) is None,
{
    reveal_strlit(".");
    reveal_strlit("(");
    let w = "."@ + method + "("@;
    assert(w.len() == method.len() + 2);
    lemma_find(line, w, 0);
    assert(match_at(line, p, w));
    let k = find(line, w, 0)->0;
    if k < p {
        assert(line.subrange(k, k + method.len() + 2) == w);
    }
    assert(call_at(line, method) == Some(p));
}

proof fn lemma_no_stub_of(line: Seq<char>, method: Seq<char>, i: int)
    requires
        forall|j: int|
            0 <= j && j + method.len() + 1 <= line.len() && #[trigger] line.subrange(
                j,
                j + method.len() + 1,
            ) == method + ":"@ ==> j > 0 && (is_ident_char(line[j - 1]) || line[j - 1] == '$'),
    ensures
        first_stub(line, method, i) is None,
    decreases line.len() - i,
{
    reveal_strlit(":");
    if 0 <= i < line.len() {
        reveal(stub_open);
        assert((method + ":"@).len() == method.len() + 1);
        if match_at(line, i, method + ":"@) {
            assert(line.subrange(i, i + method.len() + 1) == method + ":"@);
        }
        lemma_no_stub_of(line, method, i + 1);
    }
}

/// The end of a longer name is no stub of the method.
pub proof fn law_longer_name_is_no_stub(
    line: Seq<char>,
    method: Seq<char>,
    path: Seq<char>,
    line_no: int,
)
    requires
        forall|j: int|
            0 <= j && j + method.len() + 1 <= line.len() && #[trigger] line.subrange(
                j,
                j + method.len() + 1,
            ) == method + ":"@ ==> j > 0 && (is_ident_char(line[j - 1]) || line[j - 1] == '$'),
    ensures
        idl_ref(line, method, path, line_no) is None,
{
    reveal(idl_args);
    lemma_no_stub_of(line, method, 0);
}

} // verus!
