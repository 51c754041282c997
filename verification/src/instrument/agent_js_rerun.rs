//! Making the insertions a second time changes nothing.

use vstd::prelude::*;
use vstd::string::*;
use vstd::utf8::*;

use crate::instrument::agent_js::{
    alphanumeric, args_place, call_at, call_place, call_ref, has_header_arg, has_header_type,
    first_stub, idl_args, idl_place, idl_ref, insertion_of, insertions, is_name_char, is_path_char,
    line_after, lines_after, list_open, one, path_end, refs_in, stub_open, text_after, RefView,
};
use crate::instrument::edit::{edit_key, spliced, FlatView};
use crate::instrument::insertion::{
    inserted, keeps_off, lemma_begins_still, lemma_begins_with, lemma_find_inserted,
    lemma_find_prefix, lemma_skip_grows, lemma_skip_same, moved,
};
use crate::order::{slot, sorted};
use crate::text::{
    blen, byte_at, ends_with, is_space, joined, lemma_byte_at, lemma_encode_add, lemma_find,
    lemma_line_end, line_end, line_text, lines_from, lines_of, match_at, next_line, skip_space,
    starts_with, trim_start,
};

verus! {

/// The name holds no space and no opening bracket. Every identifier is such a name.
pub open spec fn plain_name(m: Seq<char>) -> bool {
    forall|i: int| 0 <= i < m.len() ==> #[trigger] m[i] != ' ' && m[i] != '('
}

proof fn lemma_front(s: Seq<char>, at: int, t: Seq<char>)
    requires
        0 <= at <= s.len(),
    ensures
        inserted(s, at, t).subrange(0, at) == s.subrange(0, at),
        inserted(s, at, t).subrange(at, inserted(s, at, t).len() as int) == t + s.subrange(
            at,
            s.len() as int,
        ),
        inserted(s, at, t).len() == s.len() + t.len(),
        forall|x: int| 0 <= x < at ==> #[trigger] inserted(s, at, t)[x] == s[x],
{
    assert(inserted(s, at, t).subrange(0, at) =~= s.subrange(0, at));
    assert(inserted(s, at, t).subrange(at, inserted(s, at, t).len() as int) =~= t + s.subrange(
        at,
        s.len() as int,
    ));
}

// ---------- Stubs ----------

/// The stub that is found is the first.
proof fn lemma_first_stub(line: Seq<char>, method: Seq<char>, i: int) -> (k: int)
    requires
        0 <= i,
    ensures
        match first_stub(line, method, i) {
            Some(q) => i <= k < line.len() && stub_open(line, method, k) == Some(q) && forall|
                j: int,
            |
                i <= j < k ==> #[trigger] stub_open(line, method, j) is None,
            None => forall|j: int| i <= j ==> #[trigger] stub_open(line, method, j) is None,
        },
    decreases line.len() - i,
{
    reveal(stub_open);
    reveal_strlit(":");
    if i < line.len() && stub_open(line, method, i) is None {
        let k = lemma_first_stub(line, method, i + 1);
        assert forall|j: int|
            i <= j && (first_stub(line, method, i) is Some ==> j < k) implies #[trigger] stub_open(
            line,
            method,
            j,
        ) is None by {
            if j > i {
                assert(i + 1 <= j);
            }
        }
        k
    } else {
        i
    }
}

/// The first stub is the one that is found.
proof fn lemma_stub_found(line: Seq<char>, method: Seq<char>, i: int, k: int)
    requires
        0 <= i <= k,
        stub_open(line, method, k) is Some,
        forall|j: int| i <= j < k ==> #[trigger] stub_open(line, method, j) is None,
    ensures
        first_stub(line, method, i) == stub_open(line, method, k),
{
    let f = lemma_first_stub(line, method, i);
    if first_stub(line, method, i) is None {
        assert(stub_open(line, method, k) is None);
    } else if f < k {
        assert(stub_open(line, method, f) is None);
    } else if k < f {
        assert(stub_open(line, method, k) is None);
    }
}

/// A stub begins at `k`; its name ends at `e`, its path begins at `a`, its arguments at `q`.
#[verifier::opaque]
spec fn stub_parts(line: Seq<char>, method: Seq<char>, k: int, e: int, a: int, q: int) -> bool {
    &&& 0 <= k
    &&& e == k + method.len()
    &&& e < a
    &&& a + 9 <= q <= line.len()
    &&& line.subrange(k, e) == method
    &&& line[e] == ':'
    &&& forall|x: int| e < x < a ==> is_space(#[trigger] line[x])
    &&& forall|x: int| a <= x < q - 1 ==> is_path_char(#[trigger] line[x])
    &&& line[q - 1] == '('
    &&& line.subrange(q - 9, q - 1) == "IDL.Func"@
    &&& q - 9 == a || line[q - 10] == '.'
    &&& k > 0 ==> !is_name_char(line[k - 1], alphanumeric(line[k - 1]))
}

proof fn lemma_path(line: Seq<char>, i: int)
    requires
        0 <= i <= line.len(),
    ensures
        i <= path_end(line, i) <= line.len(),
        forall|x: int| i <= x < path_end(line, i) ==> is_path_char(#[trigger] line[x]),
    decreases line.len() - i,
{
    if i < line.len() && is_path_char(line[i]) {
        lemma_path(line, i + 1);
    }
}

proof fn lemma_path_to(line: Seq<char>, i: int, k: int)
    requires
        0 <= i <= k < line.len(),
        !is_path_char(line[k]),
        forall|x: int| i <= x < k ==> is_path_char(#[trigger] line[x]),
    ensures
        path_end(line, i) == k,
    decreases k - i,
{
    if i < k {
        lemma_path_to(line, i + 1, k);
    }
}

/// What a stub is made of.
proof fn lemma_stub(line: Seq<char>, method: Seq<char>, k: int) -> (a: int)
    requires
        stub_open(line, method, k) is Some,
    ensures
        stub_parts(line, method, k, k + method.len(), a, stub_open(line, method, k)->0),
        0 <= k,
        k + method.len() < a,
        a + 9 <= stub_open(line, method, k)->0 <= line.len(),
        line[stub_open(line, method, k)->0 - 1] == '(',
        line[k + method.len()] == ':',
        line.subrange(k, k + method.len()) == method,
        k > 0 ==> !is_name_char(line[k - 1], alphanumeric(line[k - 1])),
{
    reveal(stub_open);
    reveal(stub_parts);
    reveal_strlit("IDL.Func");
    reveal_strlit(":");
    let needle = method + ":"@;
    let e = k + method.len();
    let w = line.subrange(k, e + 1);
    assert(w[e - k] == line[e]);
    assert(line.subrange(k, e) =~= w.subrange(0, e - k));
    assert(needle.subrange(0, e - k) =~= method);
    let a = skip_space(line, e + 1);
    lemma_skip_grows(line, e + 1);
    lemma_path(line, a);
    assert(a < line.len());
    lemma_skip_same(line, line, e + 1);
    a
}

/// What is made so is a stub.
proof fn lemma_stub_made(line: Seq<char>, method: Seq<char>, k: int, a: int, q: int)
    requires
        stub_parts(line, method, k, k + method.len(), a, q),
    ensures
        stub_open(line, method, k) == Some(q),
{
    reveal(stub_open);
    reveal(stub_parts);
    reveal_strlit("IDL.Func");
    reveal_strlit(":");
    let needle = method + ":"@;
    let e = k + method.len();
    let w = line.subrange(k, e + 1);
    assert(w =~= line.subrange(k, e).push(':'));
    assert(needle =~= method.push(':'));
    assert(is_path_char(line[a]));
    lemma_skip_to(line, e + 1, a);
    lemma_path_to(line, a, q - 1);
}

/// White space ends where something else stands behind it.
proof fn lemma_skip_to(s: Seq<char>, i: int, k: int)
    requires
        0 <= i <= k < s.len(),
        !is_space(s[k]),
        forall|x: int| i <= x < k ==> is_space(#[trigger] s[x]),
    ensures
        skip_space(s, i) == k,
    decreases k - i,
{
    if i < k {
        lemma_skip_to(s, i + 1, k);
    }
}

/// A stub is one in every other text that goes on as this one does, `n` further on.
proof fn lemma_stub_carried(s: Seq<char>, t: Seq<char>, method: Seq<char>, k: int, n: int)
    requires
        0 <= k + n,
        stub_open(s, method, k) matches Some(q) && q + n <= t.len() && forall|x: int|
            k + n <= x < q + n ==> #[trigger] t[x] == s[x - n],
        k + n > 0 ==> !is_name_char(t[k + n - 1], alphanumeric(t[k + n - 1])),
    ensures
        stub_open(t, method, k + n) == Some(stub_open(s, method, k)->0 + n),
{
    reveal(stub_parts);
    let q = stub_open(s, method, k)->0;
    let a = lemma_stub(s, method, k);
    let e = k + method.len();
    assert(t.subrange(k + n, e + n) =~= s.subrange(k, e));
    assert(t.subrange(q + n - 9, q + n - 1) =~= s.subrange(q - 9, q - 1));
    assert(t[e + n] == s[e] && t[q + n - 1] == s[q - 1] && t[q + n - 10] == s[q - 10] || q - 9
        == a);
    lemma_stub_made(t, method, k + n, a + n, q + n);
}

/// A stub is one in every other text that agrees up to where its arguments begin.
proof fn lemma_stub_prefix(s: Seq<char>, t: Seq<char>, method: Seq<char>, k: int, n: int)
    requires
        n <= s.len(),
        n <= t.len(),
        forall|x: int| 0 <= x < n ==> #[trigger] t[x] == s[x],
        stub_open(s, method, k) is Some,
        stub_open(s, method, k)->0 <= n,
    ensures
        stub_open(t, method, k) == stub_open(s, method, k),
{
    reveal(stub_parts);
    let a = lemma_stub(s, method, k);
    if k > 0 {
        assert(t[k - 1] == s[k - 1]);
    }
    lemma_stub_carried(s, t, method, k, 0);
}

/// Where a bracket stands in a stub of a plain name.
proof fn lemma_stub_bracket(
    line: Seq<char>,
    method: Seq<char>,
    k: int,
    a: int,
    q: int,
    x: int,
)
    requires
        stub_parts(line, method, k, k + method.len(), a, q),
        k <= x < q,
        line[x] == '(' || line[x] == '[',
        plain_name(method),
    ensures
        line[x] == '(' ==> x == q - 1,
        line[x] == '[' ==> x < k + method.len(),
{
    reveal(stub_parts);
    let e = k + method.len();
    if x < e {
        assert(line.subrange(k, e)[x - k] == line[x]);
        assert(method[x - k] == line[x]);
    } else if x == e || x == q - 1 {
    } else if x < a {
        assert(is_space(line[x]));
    } else {
        assert(is_path_char(line[x]));
    }
}

/// What stands between the arguments of a stub and the list that they begin with.
proof fn lemma_list(line: Seq<char>, q: int)
    requires
        0 <= q <= line.len(),
        list_open(line, q) is Some,
    ensures
        ({
            let p = list_open(line, q)->0;
            let named = match_at(line, q, "trace.header(), "@);
            let from = if named {
                q + 16
            } else {
                q
            };
            &&& from < p <= line.len()
            &&& line[p - 1] == '['
            &&& forall|x: int| from <= x < p - 1 ==> is_space(#[trigger] line[x])
        }),
{
    reveal(list_open);
    reveal_strlit("trace.header(), ");
    let from = if match_at(line, q, "trace.header(), "@) {
        q + 16
    } else {
        q
    };
    lemma_skip_grows(line, from);
    lemma_skip_same(line, line, from);
}

/// A list opens in every other text that goes on as this one does, `n` further on.
proof fn lemma_list_carried(s: Seq<char>, t: Seq<char>, q: int, n: int)
    requires
        0 <= q <= s.len(),
        0 <= q + n,
        list_open(s, q) matches Some(p) && p + n <= t.len() && forall|x: int|
            q + n <= x < p + n ==> #[trigger] t[x] == s[x - n],
    ensures
        list_open(t, q + n) == Some(list_open(s, q)->0 + n),
{
    reveal(list_open);
    reveal_strlit("trace.header(), ");
    let h = "trace.header(), "@;
    let p = list_open(s, q)->0;
    lemma_list(s, q);
    assert(t[p + n - 1] == s[p - 1]);
    if match_at(s, q, h) {
        assert(t.subrange(q + n, q + n + 16) =~= s.subrange(q, q + 16));
        lemma_skip_to(t, q + n + 16, p + n - 1);
    } else {
        assert(t[q + n] == s[q]);
        assert(!match_at(t, q + n, h)) by {
            if match_at(t, q + n, h) {
                assert(t.subrange(q + n, q + n + 16)[0] == t[q + n]);
                assert(s[q] == 't');
                if q < p - 1 {
                    assert(is_space(s[q]));
                }
            }
        }
        lemma_skip_to(t, q + n, p + n - 1);
    }
}

/// No stub begins before a list that was not there before the list got the header type.
proof fn lemma_no_stub_typed(line: Seq<char>, method: Seq<char>, p: int, j: int)
    requires
        plain_name(method),
        0 < p <= line.len(),
        line[p - 1] == '[',
        0 <= j < p,
        stub_open(line, method, j) is None,
    ensures
        stub_open(inserted(line, p, "Header, "@), method, j) is None,
{
    reveal_strlit("Header, ");
    let t = "Header, "@;
    let u = inserted(line, p, t);
    lemma_front(line, p, t);
    if stub_open(u, method, j) is Some {
        let r = stub_open(u, method, j)->0;
        let g = lemma_stub(u, method, j);
        let e = j + method.len();
        if r <= p {
            lemma_stub_prefix(u, line, method, j, p);
        } else {
            lemma_stub_bracket(u, method, j, g, r, p - 1);
            assert(u[e] == ':');
            if e < p + 8 {
                assert(u[e] == t[e - p]);
            }
            assert(u.subrange(j, e)[p + 7 - j] == u[p + 7]);
            assert(u[p + 7] == t[7]);
            assert(method[p + 7 - j] == ' ');
        }
    }
}

/// A stub that got the header type is left alone.
proof fn lemma_idl_settled(line: Seq<char>, method: Seq<char>)
    requires
        plain_name(method),
        idl_place(line, method) is Some,
    ensures
        idl_place(inserted(line, idl_place(line, method)->0, "Header, "@), method) is None,
{
    reveal(idl_args);
    reveal_strlit("Header, ");
    reveal_strlit("Header,");
    let p = idl_place(line, method)->0;
    let t = "Header, "@;
    let u = inserted(line, p, t);
    let k = lemma_first_stub(line, method, 0);
    let q = first_stub(line, method, 0)->0;
    let a = lemma_stub(line, method, k);
    lemma_list(line, q);
    lemma_front(line, p, t);
    lemma_stub_prefix(line, u, method, k, p);
    assert forall|j: int| 0 <= j < k implies #[trigger] stub_open(u, method, j) is None by {
        assert(stub_open(line, method, j) is None);
        lemma_no_stub_typed(line, method, p, j);
    }
    lemma_stub_found(u, method, 0, k);
    lemma_list_carried(line, u, q, 0);
    assert(t.subrange(0, 7) =~= "Header,"@);
    lemma_begins_with(t, line.subrange(p, line.len() as int), "Header,"@);
}

/// The stubs behind an insertion move with it.
proof fn lemma_stub_shift(line: Seq<char>, method: Seq<char>, c: int, t: Seq<char>, k: int)
    requires
        0 < c <= k <= line.len(),
        line[c - 1] == '(',
        t.len() > 0,
        t[t.len() - 1] == ' ',
    ensures
        match stub_open(line, method, k) {
            Some(q) => stub_open(inserted(line, c, t), method, k + t.len()) == Some(q + t.len()),
            None => stub_open(inserted(line, c, t), method, k + t.len()) is None,
        },
{
    let u = inserted(line, c, t);
    let n = t.len() as int;
    if k > c {
        assert(u[k + n - 1] == line[k - 1]);
    } else {
        assert(u[k + n - 1] == t[n - 1]);
    }
    if stub_open(line, method, k) is Some {
        let a = lemma_stub(line, method, k);
        lemma_stub_carried(line, u, method, k, n);
    } else if stub_open(u, method, k + n) is Some {
        let a = lemma_stub(u, method, k + n);
        lemma_stub_carried(u, line, method, k + n, -n);
    }
}

/// No stub begins before a call's opening bracket, or in the header that the call got, that was
/// not there before.
proof fn lemma_no_new_stub(line: Seq<char>, method: Seq<char>, c: int, k: int)
    requires
        plain_name(method),
        0 < c <= line.len(),
        line[c - 1] == '(',
        0 <= k < c + 16,
        k < c ==> stub_open(line, method, k) is None,
    ensures
        stub_open(inserted(line, c, "trace.header(), "@), method, k) is None,
{
    reveal_strlit("trace.header(), ");
    let t = "trace.header(), "@;
    let u = inserted(line, c, t);
    lemma_front(line, c, t);
    if stub_open(u, method, k) is Some {
        let q = stub_open(u, method, k)->0;
        let a = lemma_stub(u, method, k);
        let e = k + method.len();
        assert(u[c + 15] == t[15]);
        if q <= c {
            lemma_stub_prefix(u, line, method, k, c);
        } else if k < c {
            lemma_stub_bracket(u, method, k, a, q, c - 1);
        } else {
            if e < c + 16 {
                assert(u[e] == t[e - c]);
            } else {
                assert(u.subrange(k, e)[c + 15 - k] == u[c + 15]);
                assert(method[c + 15 - k] == ' ');
            }
        }
    }
}

/// A list that opens does so before a call's opening bracket that stands behind where the arguments
/// begin.
proof fn lemma_list_short(u: Seq<char>, q: int, c: int)
    requires
        0 <= q < c < u.len(),
        u[c - 1] == '(',
        u[c] == 't',
        list_open(u, q) is Some,
    ensures
        list_open(u, q)->0 < c,
{
    reveal_strlit("trace.header(), ");
    let t = "trace.header(), "@;
    let p = list_open(u, q)->0;
    lemma_list(u, q);
    if c <= p {
        assert(c - 1 < p - 1);
        if match_at(u, q, t) && c - 1 < q + 16 {
            let w = u.subrange(q, q + 16);
            assert(w[c - 1 - q] == u[c - 1]);
            assert(c - 1 - q == 12);
            assert(w[13] == u[c]);
        } else {
            assert(is_space(u[c - 1]));
        }
    }
}

/// The list of a stub is found where it was, or not at all, once a call behind where the arguments
/// begin got the header.
proof fn lemma_list_before(line: Seq<char>, q: int, c: int)
    requires
        0 <= q < c <= line.len(),
        line[c - 1] == '(',
        list_open(inserted(line, c, "trace.header(), "@), q) is Some,
    ensures
        list_open(inserted(line, c, "trace.header(), "@), q) == list_open(line, q),
        list_open(line, q)->0 < c,
{
    reveal_strlit("trace.header(), ");
    let t = "trace.header(), "@;
    let u = inserted(line, c, t);
    lemma_front(line, c, t);
    assert(u[c] == t[0]);
    assert(u[c - 1] == line[c - 1]);
    lemma_list_short(u, q, c);
    lemma_list_carried(u, line, q, 0);
}

/// The list of a stub whose arguments begin with the header that a call got.
proof fn lemma_list_at(line: Seq<char>, c: int)
    requires
        0 < c <= line.len(),
    ensures
        ({
            let u = inserted(line, c, "trace.header(), "@);
            list_open(u, c) is None || (list_open(line, c) matches Some(p) && list_open(u, c)
                == Some(p + 16))
        }),
{
    reveal(list_open);
    reveal_strlit("trace.header(), ");
    let t = "trace.header(), "@;
    let u = inserted(line, c, t);
    assert(u.subrange(c, c + 16) =~= t);
    if list_open(u, c) is Some {
        let p = list_open(u, c)->0;
        lemma_list(u, c);
        assert forall|x: int| c <= x < line.len() implies #[trigger] line[x] == u[x + 16] by {}
        assert(line[p - 17] == u[p - 1]);
        assert forall|x: int| c <= x < p - 17 implies is_space(#[trigger] line[x]) by {
            assert(is_space(u[x + 16]));
        }
        assert(!match_at(line, c, t)) by {
            if match_at(line, c, t) {
                assert(line.subrange(c, c + 16)[0] == line[c]);
            }
        }
        lemma_skip_to(line, c, p - 17);
    }
}

/// No stub comes to want the header type where a call gets the header.
proof fn lemma_idl_stays(line: Seq<char>, method: Seq<char>)
    requires
        plain_name(method),
        idl_place(line, method) is None,
        call_at(line, method) is Some,
    ensures
        idl_place(
            inserted(line, call_at(line, method)->0 + method.len() + 2, "trace.header(), "@),
            method,
        ) is None,
{
    reveal(idl_args);
    reveal_strlit("trace.header(), ");
    let t = "trace.header(), "@;
    let c = call_at(line, method)->0 + method.len() + 2;
    let u = inserted(line, c, t);
    lemma_call_settled(line, method);
    lemma_front(line, c, t);
    let k = lemma_first_stub(line, method, 0);
    if first_stub(line, method, 0) is Some {
        let q = first_stub(line, method, 0)->0;
        let a = lemma_stub(line, method, k);
        let k2 = moved(k, c, t.len());
        if k < c {
            assert(q <= c) by {
                if c < q {
                    lemma_stub_bracket(line, method, k, a, q, c - 1);
                }
            }
            lemma_stub_prefix(line, u, method, k, c);
        } else {
            lemma_stub_shift(line, method, c, t, k);
        }
        assert forall|j: int| 0 <= j < k2 implies #[trigger] stub_open(u, method, j) is None by {
            if j < c + 16 {
                if j < c {
                    assert(stub_open(line, method, j) is None);
                }
                lemma_no_new_stub(line, method, c, j);
            } else {
                assert(stub_open(line, method, j - 16) is None);
                lemma_stub_shift(line, method, c, t, j - 16);
            }
        }
        lemma_stub_found(u, method, 0, k2);
        if k < c {
            if q < c {
                if list_open(u, q) is Some {
                    lemma_list_before(line, q, c);
                }
            } else {
                lemma_list_at(line, c);
            }
        } else if list_open(u, q + 16) is Some {
            lemma_list(u, q + 16);
            lemma_list_carried(u, line, q + 16, -16);
        }
        if idl_args(u, method) is Some {
            let p = idl_args(line, method)->0;
            lemma_list(line, q);
            assert(idl_args(u, method) == Some(moved(p, c, t.len())));
            lemma_type_stays(line, c, t, p);
        }
    } else {
        let k2 = lemma_first_stub(u, method, 0);
        if first_stub(u, method, 0) is Some {
            if k2 < c + 16 {
                if k2 < c {
                    assert(stub_open(line, method, k2) is None);
                }
                lemma_no_new_stub(line, method, c, k2);
            } else {
                assert(stub_open(line, method, k2 - 16) is None);
                lemma_stub_shift(line, method, c, t, k2 - 16);
            }
        }
    }
}

/// Arguments that begin with the header type do so still.
proof fn lemma_type_stays(line: Seq<char>, p: int, t: Seq<char>, at: int)
    requires
        0 < p <= line.len(),
        line[p - 1] == '(',
        0 < at <= line.len(),
        at != p,
        has_header_type(line.subrange(at, line.len() as int)),
    ensures
        has_header_type(
            inserted(line, p, t).subrange(
                moved(at, p, t.len()),
                inserted(line, p, t).len() as int,
            ),
        ),
{
    reveal_strlit("Header,");
    reveal_strlit("Header ]");
    reveal_strlit("Header]");
    let u = inserted(line, p, t);
    let tail = line.subrange(at, line.len() as int);
    if at < p {
        assert(u.subrange(at, u.len() as int) =~= inserted(tail, p - at, t));
        if starts_with(trim_start(tail), "Header,"@) {
            lemma_begins_still(tail, p - at, t, "Header,"@);
        } else if starts_with(trim_start(tail), "Header ]"@) {
            lemma_begins_still(tail, p - at, t, "Header ]"@);
        } else {
            lemma_begins_still(tail, p - at, t, "Header]"@);
        }
    } else {
        assert(u.subrange(at + t.len(), u.len() as int) =~= tail);
    }
}

// ---------- Calls ----------

/// A call does not lie across where the list of a stub opens.
proof fn lemma_list_off_call(line: Seq<char>, method: Seq<char>, j: int, k: int)
    requires
        plain_name(method),
        stub_open(line, method, j) matches Some(q) && list_open(line, q) is Some,
        match_at(line, k, "."@ + method + "("@),
    ensures
        ({
            let p = list_open(line, stub_open(line, method, j)->0)->0;
            k + method.len() + 2 <= p || p <= k
        }),
{
    reveal_strlit("trace.header(), ");
    reveal_strlit(".");
    reveal_strlit("(");
    let h = "trace.header(), "@;
    let needle = "."@ + method + "("@;
    let q = stub_open(line, method, j)->0;
    let a = lemma_stub(line, method, j);
    let p = list_open(line, q)->0;
    lemma_list(line, q);
    let r = k + method.len() + 2;
    let w = line.subrange(k, r);
    assert(w[0] == line[k]);
    if k < p && p < r {
        if k <= q - 1 {
            assert(w[q - 1 - k] == line[q - 1]);
            if k < q - 1 {
                assert(needle[q - 1 - k] == method[q - 1 - k - 1]);
            }
        } else if match_at(line, q, h) && k < q + 16 {
            let v = line.subrange(q, q + 16);
            assert(v[k - q] == line[k]);
            assert(k - q == 5);
            assert(v[12] == line[q + 12]);
            assert(w[7] == line[q + 12]);
            assert(needle[7] == method[6]);
        } else if k < p - 1 {
            assert(is_space(line[k]));
        }
    }
}

/// A call is found where it was once a stub got the header type.
proof fn lemma_call_moves(line: Seq<char>, method: Seq<char>, p: int)
    requires
        plain_name(method),
        idl_args(line, method) == Some(p),
    ensures
        0 < p <= line.len(),
        line[p - 1] == '[',
        match call_at(line, method) {
            Some(k) => call_at(inserted(line, p, "Header, "@), method) == Some(moved(k, p, 8))
                && 0 <= k && k + method.len() + 2 <= line.len() && line[k + method.len() + 1] == '('
                && (k + method.len() + 2 <= p || p <= k),
            None => call_at(inserted(line, p, "Header, "@), method) is None,
        },
{
    reveal(idl_args);
    reveal_strlit("Header, ");
    reveal_strlit(".");
    reveal_strlit("(");
    let t = "Header, "@;
    let needle = "."@ + method + "("@;
    let j = lemma_first_stub(line, method, 0);
    let a = lemma_stub(line, method, j);
    lemma_list(line, first_stub(line, method, 0)->0);
    assert(keeps_off(needle, line, p, t)) by {
        assert forall|k: int| #[trigger] match_at(line, k, needle) implies k + needle.len() <= p
            || p <= k by {
            lemma_list_off_call(line, method, j, k);
        }
        assert forall|x: int| 0 <= x < needle.len() implies #[trigger] needle[x] != ' ' by {
            if 0 < x < needle.len() - 1 {
                assert(needle[x] == method[x - 1]);
            }
        }
    }
    lemma_find(line, needle, 0);
    lemma_find_inserted(line, p, t, needle, 0);
    if call_at(line, method) is Some {
        let k = call_at(line, method)->0;
        assert(line.subrange(k, k + needle.len())[needle.len() - 1] == line[k + needle.len() - 1]);
    }
}

/// No call comes to want the header where a stub gets the header type.
proof fn lemma_call_stays(line: Seq<char>, method: Seq<char>, p: int)
    requires
        plain_name(method),
        call_place(line, method) is None,
        idl_args(line, method) == Some(p),
    ensures
        call_place(inserted(line, p, "Header, "@), method) is None,
{
    reveal(idl_args);
    reveal_strlit("Header, ");
    let t = "Header, "@;
    let u = inserted(line, p, t);
    lemma_call_moves(line, method, p);
    lemma_front(line, p, t);
    if call_at(line, method) is Some {
        let k = call_at(line, method)->0;
        let k2 = moved(k, p, 8);
        if k > 0 {
            if k == p {
                assert(u[k2 - 1] == t[7]);
            } else {
                assert(u[k2 - 1] == line[k - 1]);
                if args_place(line, method, k) is None {
                    lemma_arg_stays(line, p, t, k + method.len() + 2);
                }
            }
        }
    }
}

/// Arguments that begin with the header do so still.
proof fn lemma_arg_stays(line: Seq<char>, p: int, t: Seq<char>, at: int)
    requires
        0 < p <= line.len(),
        line[p - 1] == '[',
        0 < at <= line.len(),
        at != p,
        has_header_arg(line.subrange(at, line.len() as int)),
    ensures
        has_header_arg(
            inserted(line, p, t).subrange(
                moved(at, p, t.len()),
                inserted(line, p, t).len() as int,
            ),
        ),
{
    reveal_strlit("trace.header()");
    reveal_strlit("header()");
    reveal_strlit("trace_header(");
    let u = inserted(line, p, t);
    let tail = line.subrange(at, line.len() as int);
    if at < p {
        assert(u.subrange(at, u.len() as int) =~= inserted(tail, p - at, t));
        if starts_with(trim_start(tail), "trace.header()"@) {
            lemma_begins_still(tail, p - at, t, "trace.header()"@);
        } else if starts_with(trim_start(tail), "header()"@) {
            lemma_begins_still(tail, p - at, t, "header()"@);
        } else {
            lemma_begins_still(tail, p - at, t, "trace_header("@);
        }
    } else {
        assert(u.subrange(at + t.len(), u.len() as int) =~= tail);
    }
}

/// A call that got the header is left alone.
proof fn lemma_call_settled(line: Seq<char>, method: Seq<char>)
    requires
        call_at(line, method) is Some,
    ensures
        0 <= call_at(line, method)->0,
        call_at(line, method)->0 + method.len() + 2 <= line.len(),
        line[call_at(line, method)->0 + method.len() + 1] == '(',
        call_place(
            inserted(line, call_at(line, method)->0 + method.len() + 2, "trace.header(), "@),
            method,
        ) is None,
{
    reveal_strlit("trace.header(), ");
    reveal_strlit("trace.header()");
    reveal_strlit(".");
    reveal_strlit("(");
    let needle = "."@ + method + "("@;
    let k = call_at(line, method)->0;
    lemma_find(line, needle, 0);
    assert(line.subrange(k, k + needle.len())[needle.len() - 1] == line[k + needle.len() - 1]);
    let p = k + needle.len();
    let t = "trace.header(), "@;
    let u = inserted(line, p, t);
    lemma_front(line, p, t);
    lemma_find_prefix(line, u, needle, 0, p);
    assert(t.subrange(0, 14) =~= "trace.header()"@);
    lemma_begins_with(t, line.subrange(p, line.len() as int), "trace.header()"@);
}

// ---------- A line ----------

/// The line with its stub's insertion made.
pub open spec fn with_type(line: Seq<char>, method: Seq<char>) -> Seq<char> {
    match idl_place(line, method) {
        Some(p) => inserted(line, p, "Header, "@),
        None => line,
    }
}

/// Where the call's insertion goes once the stub's is made.
pub open spec fn call_after(line: Seq<char>, method: Seq<char>) -> Option<int> {
    match call_place(line, method) {
        Some(q) => match idl_place(line, method) {
            Some(p) => Some(moved(q, p, "Header, "@.len())),
            None => Some(q),
        },
        None => None,
    }
}

/// The line with the insertions made of the references to `method` in it.
pub open spec fn settled_line(line: Seq<char>, method: Seq<char>) -> Seq<char> {
    match call_after(line, method) {
        Some(q) => inserted(with_type(line, method), q, "trace.header(), "@),
        None => with_type(line, method),
    }
}

/// A line whose insertions are made holds no reference that wants one.
proof fn lemma_line_settled(line: Seq<char>, method: Seq<char>)
    requires
        plain_name(method),
    ensures
        idl_place(settled_line(line, method), method) is None,
        call_place(settled_line(line, method), method) is None,
{
    reveal_strlit("Header, ");
    let typed = with_type(line, method);
    if idl_place(line, method) is Some {
        lemma_idl_settled(line, method);
        let p = idl_place(line, method)->0;
        lemma_call_moves(line, method, p);
        if call_place(line, method) is None {
            lemma_call_stays(line, method, p);
        }
    }
    if call_place(line, method) is Some {
        let q = call_after(line, method)->0;
        lemma_call_settled(line, method);
        lemma_call_settled(typed, method);
        assert(q == call_at(typed, method)->0 + method.len() + 2);
        lemma_idl_stays(typed, method);
    }
}

// ---------- The insertions of a line ----------

/// All insertions that references make in a line of `width` bytes.
spec fn picks(rs: Seq<RefView>, line_no: int, width: int) -> Seq<FlatView> {
    insertions(rs, line_no, width, rs.len())
}

proof fn lemma_insertions_front(
    a: Seq<RefView>,
    b: Seq<RefView>,
    line_no: int,
    width: int,
    n: nat,
)
    requires
        n <= a.len(),
    ensures
        insertions(a + b, line_no, width, n) == insertions(a, line_no, width, n),
    decreases n,
{
    if n > 0 {
        lemma_insertions_front(a, b, line_no, width, (n - 1) as nat);
        assert((a + b)[n - 1] == a[n - 1]);
    }
}

proof fn lemma_picks_add(a: Seq<RefView>, b: Seq<RefView>, line_no: int, width: int)
    ensures
        picks(a + b, line_no, width) == picks(b, line_no, width) + picks(a, line_no, width),
    decreases b.len(),
{
    if b.len() == 0 {
        assert(a + b =~= a);
        assert(picks(b, line_no, width) + picks(a, line_no, width) =~= picks(a, line_no, width));
    } else {
        let c = b.drop_last();
        let last = b.last();
        lemma_picks_add(a, c, line_no, width);
        assert(a + b =~= (a + c) + seq![last]);
        lemma_insertions_front(a + c, seq![last], line_no, width, (a + c).len());
        assert(b =~= c + seq![last]);
        lemma_insertions_front(c, seq![last], line_no, width, c.len());
        assert((a + b)[(a + b).len() - 1] == last);
        let x = picks(c, line_no, width);
        let y = picks(a, line_no, width);
        assert(seq![insertion_of(last)] + (x + y) =~= seq![insertion_of(last)] + x + y);
    }
}

proof fn lemma_picks_one(r: Option<RefView>, line_no: int, width: int)
    ensures
        picks(one(r), line_no, width) == match r {
            Some(r) => if r.line_no == line_no && r.insert_col <= width {
                seq![insertion_of(r)]
            } else {
                Seq::empty()
            },
            None => Seq::empty(),
        },
{
    reveal_with_fuel(insertions, 2);
    if r is Some {
        assert(seq![insertion_of(r->0)] + Seq::<FlatView>::empty() =~= seq![insertion_of(r->0)]);
    }
}

/// The insertions of the references to `method` in the line itself, the last first.
spec fn own_insertions(line: Seq<char>, method: Seq<char>) -> Seq<FlatView> {
    let call = match call_place(line, method) {
        Some(q) => seq![
            FlatView {
                rule: crate::instrument::Rule::WrapMethodInsertHeader,
                start: byte_at(line, q) as int,
                end: byte_at(line, q) as int,
                text: "trace.header(), "@,
            },
        ],
        None => Seq::empty(),
    };
    let stub = match idl_place(line, method) {
        Some(p) => seq![
            FlatView {
                rule: crate::instrument::Rule::WrapMethodInsertHeader,
                start: byte_at(line, p) as int,
                end: byte_at(line, p) as int,
                text: "Header, "@,
            },
        ],
        None => Seq::empty(),
    };
    call + stub
}

proof fn lemma_places(line: Seq<char>, method: Seq<char>)
    ensures
        idl_place(line, method) matches Some(p) ==> 0 < p <= line.len() && line[p - 1] == '['
            && byte_at(line, p) <= blen(line),
        call_place(line, method) matches Some(q) ==> 0 < q <= line.len() && line[q - 1] == '('
            && byte_at(line, q) <= blen(line),
{
    reveal(idl_args);
    if idl_place(line, method) is Some {
        let k = lemma_first_stub(line, method, 0);
        let a = lemma_stub(line, method, k);
        lemma_list(line, first_stub(line, method, 0)->0);
        lemma_byte_at(line, 0, idl_place(line, method)->0);
    }
    if call_place(line, method) is Some {
        lemma_call_settled(line, method);
        lemma_byte_at(line, 0, call_place(line, method)->0);
    }
}

/// The references in the first `n` lines make, in one of these lines, its own insertions.
proof fn lemma_own_insertions(
    lines: Seq<Seq<char>>,
    method: Seq<char>,
    path: Seq<char>,
    n: nat,
    line_no: int,
)
    requires
        n <= lines.len(),
        1 <= line_no <= lines.len(),
    ensures
        picks(refs_in(lines, method, path, n), line_no, blen(lines[line_no - 1]) as int) == if line_no
            <= n {
            own_insertions(lines[line_no - 1], method)
        } else {
            Seq::empty()
        },
    decreases n,
{
    let width = blen(lines[line_no - 1]) as int;
    if n > 0 {
        let line = lines[n - 1];
        let before = refs_in(lines, method, path, (n - 1) as nat);
        let a = one(idl_ref(line, method, path, n as int));
        let b = one(call_ref(line, method, path, n as int));
        lemma_own_insertions(lines, method, path, (n - 1) as nat, line_no);
        lemma_picks_add(before, a + b, line_no, width);
        lemma_picks_add(a, b, line_no, width);
        lemma_picks_one(idl_ref(line, method, path, n as int), line_no, width);
        lemma_picks_one(call_ref(line, method, path, n as int), line_no, width);
        lemma_places(line, method);
        let none = Seq::<FlatView>::empty();
        assert(none + none =~= none);
        if n == line_no {
            assert(own_insertions(line, method) + none =~= own_insertions(line, method));
        } else {
            let done = picks(before, line_no, width);
            assert(none + done =~= done);
        }
    }
}

// ---------- The bytes of a line ----------

/// The bytes of a part of a text.
pub proof fn lemma_part(s: Seq<char>, i: int, j: int)
    requires
        0 <= i <= j <= s.len(),
    ensures
        encode_utf8(s).subrange(byte_at(s, i) as int, byte_at(s, j) as int) == encode_utf8(
            s.subrange(i, j),
        ),
        byte_at(s, i) <= byte_at(s, j) <= encode_utf8(s).len(),
{
    lemma_byte_at(s, i, j);
    let a = s.subrange(0, i);
    let b = s.subrange(i, j);
    let c = s.subrange(j, s.len() as int);
    lemma_encode_add(a, b);
    lemma_encode_add(a + b, c);
    assert(a + b + c =~= s);
    assert(encode_utf8(s).subrange(byte_at(s, i) as int, byte_at(s, j) as int) =~= encode_utf8(b));
}

/// One insertion, in bytes and in characters.
pub proof fn lemma_splice_one(s: Seq<char>, e: FlatView, p: int)
    requires
        0 <= p <= s.len(),
        e.start == byte_at(s, p),
        e.end == e.start,
    ensures
        spliced(encode_utf8(s), seq![e], 0, 0) == encode_utf8(inserted(s, p, e.text)),
{
    reveal_with_fuel(spliced, 2);
    lemma_part(s, 0, p);
    lemma_part(s, p, s.len() as int);
    lemma_byte_at(s, 0, p);
    let a = s.subrange(0, p);
    let b = s.subrange(p, s.len() as int);
    lemma_encode_add(a, e.text);
    lemma_encode_add(a + e.text, b);
    assert(spliced(encode_utf8(s), seq![e], 0, 0) =~= encode_utf8(a) + encode_utf8(e.text)
        + encode_utf8(b));
}

/// Two insertions, in bytes and in characters.
pub proof fn lemma_splice_two(s: Seq<char>, e: FlatView, p: int, f: FlatView, q: int)
    requires
        0 <= p <= q <= s.len(),
        e.start == byte_at(s, p),
        e.end == e.start,
        f.start == byte_at(s, q),
        f.end == f.start,
    ensures
        spliced(encode_utf8(s), seq![e, f], 0, 0) == encode_utf8(
            s.subrange(0, p) + e.text + s.subrange(p, q) + f.text + s.subrange(q, s.len() as int),
        ),
{
    reveal_with_fuel(spliced, 3);
    lemma_part(s, 0, p);
    lemma_part(s, p, q);
    lemma_part(s, q, s.len() as int);
    lemma_byte_at(s, 0, p);
    lemma_byte_at(s, q, s.len() as int);
    let a = s.subrange(0, p);
    let b = s.subrange(p, q);
    let c = s.subrange(q, s.len() as int);
    lemma_encode_add(a, e.text);
    lemma_encode_add(a + e.text, b);
    lemma_encode_add(a + e.text + b, f.text);
    lemma_encode_add(a + e.text + b + f.text, c);
    assert(spliced(encode_utf8(s), seq![e, f], 0, 0) =~= encode_utf8(a) + encode_utf8(e.text)
        + encode_utf8(b) + encode_utf8(f.text) + encode_utf8(c));
}

/// The insertions of a line make the settled line.
proof fn lemma_line_after(
    lines: Seq<Seq<char>>,
    method: Seq<char>,
    path: Seq<char>,
    line_no: int,
)
    requires
        1 <= line_no <= lines.len(),
    ensures
        line_after(refs_in(lines, method, path, lines.len()), line_no, lines[line_no - 1])
            == settled_line(lines[line_no - 1], method),
{
    reveal_strlit("Header, ");
    reveal_strlit("trace.header(), ");
    let line = lines[line_no - 1];
    lemma_own_insertions(lines, method, path, lines.len(), line_no);
    lemma_places(line, method);
    let es = own_insertions(line, method);
    let key = edit_key();
    let done = settled_line(line, method);
    reveal_with_fuel(sorted, 3);
    reveal_with_fuel(slot, 3);
    encode_utf8_decode_utf8(done);
    match (idl_place(line, method), call_place(line, method)) {
        (Some(p), Some(q)) => {
            let call = es[0];
            let stub = es[1];
            assert(p != q);
            if p < q {
                lemma_byte_at(line, p, q);
                assert(sorted(es, key, 2) =~= seq![stub, call]);
                lemma_splice_two(line, stub, p, call, q);
                assert(done =~= line.subrange(0, p) + stub.text + line.subrange(p, q) + call.text
                    + line.subrange(q, line.len() as int));
            } else {
                lemma_byte_at(line, q, p);
                assert(sorted(es, key, 2) =~= seq![call, stub]);
                lemma_splice_two(line, call, q, stub, p);
                assert(done =~= line.subrange(0, q) + call.text + line.subrange(q, p) + stub.text
                    + line.subrange(p, line.len() as int));
            }
        },
        (Some(p), None) => {
            assert(sorted(es, key, 1) =~= seq![es[0]]);
            lemma_splice_one(line, es[0], p);
        },
        (None, Some(q)) => {
            assert(sorted(es, key, 1) =~= seq![es[0]]);
            lemma_splice_one(line, es[0], q);
        },
        (None, None) => {
            assert(es.len() == 0);
            assert(spliced(encode_utf8(line), sorted(es, key, 0), 0, 0) =~= encode_utf8(line));
        },
    }
}

// ---------- The lines of a text ----------

/// A line without the carriage return at its end.
spec fn stripped(x: Seq<char>) -> Seq<char> {
    if x.len() > 0 && x[x.len() - 1] == '\r' {
        x.drop_last()
    } else {
        x
    }
}

/// The text holds no line feed.
spec fn is_line(x: Seq<char>) -> bool {
    forall|i: int| 0 <= i < x.len() ==> #[trigger] x[i] != '\n'
}

proof fn lemma_line_end_shift(a: Seq<char>, b: Seq<char>, i: int)
    requires
        0 <= i <= b.len(),
    ensures
        line_end(a + b, a.len() + i) == a.len() + line_end(b, i),
    decreases b.len() - i,
{
    if i < b.len() {
        assert((a + b)[a.len() + i] == b[i]);
        if b[i] != '\n' {
            lemma_line_end_shift(a, b, i + 1);
        }
    }
}

/// The lines behind a front are those of the rest.
proof fn lemma_lines_shift(a: Seq<char>, b: Seq<char>, i: int)
    requires
        0 <= i <= b.len(),
    ensures
        lines_from(a + b, a.len() + i) == lines_from(b, i),
    decreases b.len() - i,
{
    if i < b.len() {
        lemma_line_end(b, i);
        lemma_line_end_shift(a, b, i);
        let e = line_end(b, i);
        lemma_lines_shift(a, b, next_line(b, i));
        if e > i {
            assert((a + b)[a.len() + e - 1] == b[e - 1]);
        }
        assert((a + b).subrange(a.len() + i, a.len() + e) =~= b.subrange(i, e));
        if e > i {
            assert((a + b).subrange(a.len() + i, a.len() + e - 1) =~= b.subrange(i, e - 1));
        }
    }
}

proof fn lemma_end_of_plain(x: Seq<char>, rest: Seq<char>, i: int)
    requires
        is_line(x),
        0 <= i <= x.len(),
        rest.len() == 0 || rest[0] == '\n',
    ensures
        line_end(x + rest, i) == x.len(),
    decreases x.len() - i,
{
    if i < x.len() {
        assert((x + rest)[i] == x[i]);
        lemma_end_of_plain(x, rest, i + 1);
    } else if rest.len() > 0 {
        assert((x + rest)[i] == rest[0]);
    }
}

/// A line with its line feed in front of a text.
proof fn lemma_first_line(x: Seq<char>, rest: Seq<char>)
    requires
        is_line(x),
    ensures
        lines_of(x + seq!['\n'] + rest) == seq![stripped(x)] + lines_of(rest),
{
    let s = x + seq!['\n'] + rest;
    let tail = seq!['\n'] + rest;
    assert(s =~= x + tail);
    lemma_end_of_plain(x, tail, 0);
    let front = x + seq!['\n'];
    lemma_lines_shift(front, rest, 0);
    if x.len() > 0 {
        assert(s[x.len() - 1] == x[x.len() - 1]);
    }
    assert(line_text(s, 0) =~= stripped(x));
}

/// A text without line feeds is one line.
proof fn lemma_last_line(x: Seq<char>)
    requires
        is_line(x),
        x.len() > 0,
    ensures
        lines_of(x) == seq![x],
{
    let none = Seq::<char>::empty();
    assert(x + none =~= x);
    lemma_end_of_plain(x, none, 0);
    assert(x.subrange(0, x.len() as int) =~= x);
    assert(lines_from(x, x.len() as int) =~= Seq::<Seq<char>>::empty());
    assert(lines_of(x) =~= seq![x]);
}

/// The first part stands before the others.
pub proof fn lemma_joined_front(parts: Seq<Seq<char>>, sep: Seq<char>, n: nat)
    requires
        2 <= n <= parts.len(),
    ensures
        joined(parts, sep, n) == parts[0] + sep + joined(parts.drop_first(), sep, (n - 1) as nat),
    decreases n,
{
    let rest = parts.drop_first();
    if n > 2 {
        lemma_joined_front(parts, sep, (n - 1) as nat);
        assert(rest[n - 2] == parts[n - 1]);
        assert(joined(parts, sep, n) =~= parts[0] + sep + joined(rest, sep, (n - 1) as nat));
    } else {
        assert(rest[0] == parts[1]);
        assert(joined(parts, sep, 1) == parts[0]);
        assert(joined(rest, sep, 1) == rest[0]);
    }
}

/// Each line of the joined parts is a part, or a part without a carriage return at its end.
spec fn come_from(lines: Seq<Seq<char>>, parts: Seq<Seq<char>>) -> bool {
    &&& lines.len() == parts.len()
    &&& forall|i: int|
        0 <= i < lines.len() ==> #[trigger] lines[i] == parts[i] || lines[i] == stripped(parts[i])
}

proof fn lemma_come_from(x: Seq<char>, lines: Seq<Seq<char>>, parts: Seq<Seq<char>>)
    requires
        parts.len() > 0,
        x == stripped(parts[0]) || x == parts[0],
        come_from(lines, parts.drop_first()),
    ensures
        come_from(seq![x] + lines, parts),
{
    let all = seq![x] + lines;
    assert forall|i: int| 0 <= i < all.len() implies #[trigger] all[i] == parts[i] || all[i]
        == stripped(parts[i]) by {
        if i > 0 {
            assert(all[i] == lines[i - 1]);
            assert(parts.drop_first()[i - 1] == parts[i]);
        }
    }
}

/// The lines of lines that are joined, with a line feed behind the last or none.
proof fn lemma_lines_of_joined(parts: Seq<Seq<char>>, closed: bool)
    requires
        parts.len() > 0,
        forall|i: int| 0 <= i < parts.len() ==> is_line(#[trigger] parts[i]),
        !closed ==> parts[parts.len() - 1].len() > 0,
    ensures
        come_from(
            lines_of(
                if closed {
                    joined(parts, seq!['\n'], parts.len()) + seq!['\n']
                } else {
                    joined(parts, seq!['\n'], parts.len())
                },
            ),
            parts,
        ),
    decreases parts.len(),
{
    let sep = seq!['\n'];
    let n = parts.len();
    let end = if closed {
        sep
    } else {
        Seq::empty()
    };
    let text = joined(parts, sep, n) + end;
    assert(!closed ==> text =~= joined(parts, sep, n));
    let rest = parts.drop_first();
    let none = Seq::<Seq<char>>::empty();
    if n == 1 {
        assert(rest.len() == 0);
        assert(come_from(none, rest));
        if closed {
            assert(text =~= parts[0] + sep + Seq::<char>::empty());
            lemma_first_line(parts[0], Seq::empty());
            assert(lines_of(Seq::<char>::empty()) =~= none);
            lemma_come_from(stripped(parts[0]), none, parts);
        } else {
            lemma_last_line(parts[0]);
            assert(seq![parts[0]] + none =~= seq![parts[0]]);
            lemma_come_from(parts[0], none, parts);
        }
    } else {
        assert forall|i: int| 0 <= i < rest.len() implies is_line(#[trigger] rest[i]) by {
            assert(rest[i] == parts[i + 1]);
        }
        lemma_lines_of_joined(rest, closed);
        lemma_joined_front(parts, sep, n);
        let tail = joined(rest, sep, (n - 1) as nat) + end;
        assert(!closed ==> tail =~= joined(rest, sep, (n - 1) as nat));
        assert(text =~= parts[0] + sep + tail);
        lemma_first_line(parts[0], tail);
        lemma_come_from(stripped(parts[0]), lines_of(tail), parts);
    }
}

/// The lines of a text hold no line feed; where the text does not end in one, the last is not
/// empty.
proof fn lemma_lines(s: Seq<char>, i: int)
    requires
        0 <= i <= s.len(),
    ensures
        forall|k: int| 0 <= k < lines_from(s, i).len() ==> is_line(#[trigger] lines_from(s, i)[k]),
        i < s.len() ==> lines_from(s, i).len() > 0,
        i < s.len() && s[s.len() - 1] != '\n' ==> lines_from(s, i)[lines_from(s, i).len()
            - 1].len() > 0,
    decreases s.len() - i,
{
    if i < s.len() {
        lemma_line_end(s, i);
        let e = line_end(s, i);
        let next = next_line(s, i);
        lemma_lines(s, next);
        let first = line_text(s, i);
        let rest = lines_from(s, next);
        let all = lines_from(s, i);
        assert(all == seq![first] + rest);
        assert forall|k: int| 0 <= k < all.len() implies is_line(#[trigger] all[k]) by {
            if k > 0 {
                assert(all[k] == rest[k - 1]);
            }
        }
        if s[s.len() - 1] != '\n' {
            if next < s.len() {
                assert(all[all.len() - 1] == rest[rest.len() - 1]);
            } else {
                assert(e == s.len());
                assert(rest.len() == 0);
            }
        }
    }
}

// ---------- A carriage return at the end ----------

/// Arguments that begin with `h` do so without the carriage return at their end.
proof fn lemma_begins_stripped(tail: Seq<char>, h: Seq<char>)
    requires
        h.len() > 0,
        h[h.len() - 1] != '\r',
        starts_with(trim_start(tail.push('\r')), h),
    ensures
        starts_with(trim_start(tail), h),
{
    let u = tail.push('\r');
    let k = skip_space(u, 0);
    lemma_skip_grows(u, 0);
    let rest = u.subrange(k, u.len() as int);
    assert(k < u.len());
    lemma_skip_same(u, u, 0);
    assert(is_space('\r'));
    assert(k < tail.len());
    assert(k + h.len() <= tail.len()) by {
        if k + h.len() == u.len() {
            assert(rest.subrange(0, h.len() as int)[h.len() - 1] == u[u.len() - 1]);
        }
    }
    lemma_skip_same(u, tail, 0);
    let short = tail.subrange(k, tail.len() as int);
    assert(short.subrange(0, h.len() as int) =~= rest.subrange(0, h.len() as int));
}

/// A line that wants no insertion wants none without the carriage return at its end.
proof fn lemma_stripped_settled(y: Seq<char>, method: Seq<char>)
    requires
        idl_place(y.push('\r'), method) is None,
        call_place(y.push('\r'), method) is None,
    ensures
        idl_place(y, method) is None,
        call_place(y, method) is None,
{
    reveal(idl_args);
    let x = y.push('\r');
    let n = y.len() as int;
    assert(x.subrange(0, n) =~= y);
    assert(y.subrange(0, n) =~= y);
    if idl_place(y, method) is Some {
        let p = idl_place(y, method)->0;
        let k = lemma_first_stub(y, method, 0);
        let q = first_stub(y, method, 0)->0;
        let a = lemma_stub(y, method, k);
        lemma_list(y, q);
        lemma_stub_prefix(y, x, method, k, n);
        assert forall|j: int| 0 <= j < k implies #[trigger] stub_open(x, method, j) is None by {
            if stub_open(x, method, j) is Some {
                let g = lemma_stub(x, method, j);
                assert(x[n] == '\r');
                lemma_stub_prefix(x, y, method, j, n);
                assert(stub_open(y, method, j) is None);
            }
        }
        lemma_stub_found(x, method, 0, k);
        lemma_list_carried(y, x, q, 0);
        let tail = y.subrange(p, n);
        assert(x.subrange(p, x.len() as int) =~= tail.push('\r'));
        reveal_strlit("Header,");
        reveal_strlit("Header ]");
        reveal_strlit("Header]");
        let t = trim_start(tail.push('\r'));
        if starts_with(t, "Header,"@) {
            lemma_begins_stripped(tail, "Header,"@);
        } else if starts_with(t, "Header ]"@) {
            lemma_begins_stripped(tail, "Header ]"@);
        } else {
            lemma_begins_stripped(tail, "Header]"@);
        }
    }
    if call_place(y, method) is Some {
        let needle = "."@ + method + "("@;
        let k = call_at(y, method)->0;
        let p = call_place(y, method)->0;
        lemma_call_settled(y, method);
        lemma_find(y, needle, 0);
        lemma_find_prefix(y, x, needle, 0, n);
        assert(x[k - 1] == y[k - 1]);
        let tail = y.subrange(p, n);
        assert(x.subrange(p, x.len() as int) =~= tail.push('\r'));
        reveal_strlit("trace.header()");
        reveal_strlit("header()");
        reveal_strlit("trace_header(");
        let t = trim_start(tail.push('\r'));
        if starts_with(t, "trace.header()"@) {
            lemma_begins_stripped(tail, "trace.header()"@);
        } else if starts_with(t, "header()"@) {
            lemma_begins_stripped(tail, "header()"@);
        } else {
            lemma_begins_stripped(tail, "trace_header("@);
        }
    }
}

// ---------- A text ----------

/// Lines that want no insertion hold no references.
proof fn lemma_no_refs(lines: Seq<Seq<char>>, method: Seq<char>, path: Seq<char>, n: nat)
    requires
        n <= lines.len(),
        forall|i: int|
            0 <= i < lines.len() ==> idl_place(#[trigger] lines[i], method) is None && call_place(
                lines[i],
                method,
            ) is None,
    ensures
        refs_in(lines, method, path, n) == Seq::<RefView>::empty(),
    decreases n,
{
    if n > 0 {
        lemma_no_refs(lines, method, path, (n - 1) as nat);
        assert(idl_place(lines[n - 1], method) is None);
        let none = Seq::<RefView>::empty();
        assert(none + (none + none) =~= none);
    }
}

/// A line with its insertions made is still one line.
proof fn lemma_settled_is_line(line: Seq<char>, method: Seq<char>)
    requires
        is_line(line),
    ensures
        is_line(settled_line(line, method)),
        settled_line(line, method).len() >= line.len(),
{
    reveal_strlit("Header, ");
    reveal_strlit("trace.header(), ");
    lemma_places(line, method);
}

/// A line with its insertions made wants none, nor does it without a carriage return at its end.
proof fn lemma_stays_settled(line: Seq<char>, after: Seq<char>, method: Seq<char>)
    requires
        plain_name(method),
        after == settled_line(line, method) || after == stripped(settled_line(line, method)),
    ensures
        idl_place(after, method) is None,
        call_place(after, method) is None,
{
    lemma_line_settled(line, method);
    if after != settled_line(line, method) {
        assert(after.push('\r') =~= settled_line(line, method));
        lemma_stripped_settled(after, method);
    }
}

/// Once the insertions are made of all references to a method in a text, the text holds no
/// reference to it that wants one: making them again changes nothing.
pub proof fn law_second_run_finds_nothing(src: Seq<char>, method: Seq<char>, path: Seq<char>)
    requires
        plain_name(method),
    ensures
        ({
            let refs = refs_in(lines_of(src), method, path, lines_of(src).len());
            let after = lines_of(text_after(refs, src));
            refs_in(after, method, path, after.len()) == Seq::<RefView>::empty()
        }),
{
    reveal_strlit("\n");
    let lines = lines_of(src);
    let refs = refs_in(lines, method, path, lines.len());
    let parts = lines_after(refs, lines);
    let closed = ends_with(src, "\n"@);
    lemma_lines(src, 0);
    assert("\n"@ =~= seq!['\n']);
    assert forall|i: int| 0 <= i < parts.len() implies #[trigger] parts[i] == settled_line(
        lines[i],
        method,
    ) && is_line(parts[i]) && parts[i].len() >= lines[i].len() by {
        lemma_line_after(lines, method, path, i + 1);
        assert(is_line(lines[i]));
        lemma_settled_is_line(lines[i], method);
    }
    let text = text_after(refs, src);
    if lines.len() == 0 {
        assert(src.len() == 0);
        assert(text =~= Seq::<char>::empty());
        assert(lines_of(text) =~= Seq::<Seq<char>>::empty());
        lemma_no_refs(lines_of(text), method, path, 0);
    } else {
        if !closed {
            let end = src.subrange(src.len() - 1, src.len() as int);
            assert(end[0] == src[src.len() - 1]);
            if src[src.len() - 1] == '\n' {
                assert(end =~= "\n"@);
            }
        }
        lemma_lines_of_joined(parts, closed);
        let after = lines_of(text);
        assert forall|i: int| 0 <= i < after.len() implies idl_place(
            #[trigger] after[i],
            method,
        ) is None && call_place(after[i], method) is None by {
            assert(parts[i] == settled_line(lines[i], method));
            lemma_stays_settled(lines[i], after[i], method);
        }
        lemma_no_refs(after, method, path, after.len());
    }
}

} // verus!
