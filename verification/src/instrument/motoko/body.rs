//! What the body of a Motoko function does: the notes, traps, throws and
//! assignments in it.

use vstd::prelude::*;
use vstd::string::*;

use crate::instrument::motoko::funcs::{after_semis, skip_semis};
use crate::instrument::motoko::scan::{
    after_gap, code_end, end_of_code, find_code, find_in_code, find_matching, find_name,
    find_name_in_code, lemma_code_end, lemma_find_code, lemma_find_name, mask, matches_name,
    matching, name_match, skip_gap, word_at, word_in_code,
};
use crate::text::{
    back_space, chars_of, contains, contains_str, end_of_line, ends_with, ends_with_str,
    find_quoted, ident_char, ident_end, ident_run, is_ident_char, is_space, line_end, quoted,
    same_chars, skip_space, slice, space, space_end, starts_with, starts_with_str, string_of, texts,
    trim_start, trim_start_of,
};

verus! {

// ---------- The entry note ----------

/// Where the entry note goes: behind the call of `methodEntered`, with its `;` and line feed.
pub open spec fn entry_place_in(body: Seq<char>, m: Seq<bool>, tracer: Seq<char>) -> Option<int> {
    let p = tracer + ".methodEntered("@;
    match find_name(body, m, p, 0) {
        Some(at) => match matching(body, m, '(', ')', at + p.len() - 1) {
            Some(close) => {
                let after = after_semis(body, close + 1);
                if after < body.len() && body[after] == '\n' {
                    Some(after + 1)
                } else {
                    Some(after)
                }
            },
            None => None,
        },
        None => None,
    }
}

/// Where the entry note goes in a body.
pub open spec fn entry_place(body: Seq<char>, tracer: Seq<char>) -> Option<int> {
    entry_place_in(body, mask(body), tracer)
}

/// Where the entry note goes: behind the call of `methodEntered`, with its `;` and line feed.
pub fn place_of_entry(body: &[char], m: &[bool], tracer: &str) -> (r: Option<usize>)
    requires
        m@.len() == body@.len(),
    ensures
        match r {
            Some(k) => entry_place_in(body@, m@, tracer@) == Some(k as int) && k <= body@.len(),
            None => entry_place_in(body@, m@, tracer@) is None,
        },
{
    let n: usize = body.len();
    let mut pat = String::from_str(tracer);
    pat.append(".methodEntered(");
    let step: usize = chars_of(pat.as_str()).len();
    match find_name_in_code(body, m, pat.as_str(), 0) {
        Some(at) => match find_matching(body, m, '(', ')', at + step - 1) {
            Some(close) => {
                let after = skip_semis(body, close + 1);
                if after < n && body[after] == '\n' {
                    Some(after + 1)
                } else {
                    Some(after)
                }
            },
            None => None,
        },
        None => None,
    }
}

/// The end of the `n`th line below the one that holds `i`, or of the text.
pub open spec fn lines_below(s: Seq<char>, i: int, n: nat) -> int
    decreases n,
{
    let e = line_end(s, i);
    if n == 0 || e >= s.len() {
        e
    } else {
        lines_below(s, e + 1, (n - 1) as nat)
    }
}

fn end_of_lines_below(s: &[char], at: usize, n: usize) -> (r: usize)
    requires
        at <= s@.len(),
    ensures
        r == lines_below(s@, at as int, n as nat),
        at <= r <= s@.len(),
{
    let len: usize = s.len();
    let mut i: usize = at;
    let mut k: usize = n;
    let mut e: usize = end_of_line(s, at);
    while k > 0 && e < len
        invariant
            k <= n,
            len == s@.len(),
            at <= i <= e <= len,
            e == line_end(s@, i as int),
            lines_below(s@, at as int, n as nat) == lines_below(s@, i as int, k as nat),
        decreases k,
    {
        i = e + 1;
        k -= 1;
        e = end_of_line(s, i);
    }
    e
}

/// A call `p` from `i` on, before `limit`, is given a text that ends in `:enter`. The search ends
/// at the first call that stands later or has no text after it.
pub open spec fn enter_note_from(
    s: Seq<char>,
    m: Seq<bool>,
    p: Seq<char>,
    limit: int,
    i: int,
) -> bool
    decreases s.len() - i,
{
    match find_name(s, m, p, i) {
        Some(at) => {
            proof {
                lemma_find_name(s, m, p, i);
            }
            let next = at + p.len();
            if at >= limit {
                false
            } else {
                match quoted(s, next) {
                    Some((x, y)) => ends_with(s.subrange(x, y), ":enter"@) || enter_note_from(
                        s,
                        m,
                        p,
                        limit,
                        next,
                    ),
                    None => false,
                }
            }
        },
        None => false,
    }
}

/// `<tracer>.note(".. :enter")` stands where the entry note goes, behind white space.
pub open spec fn note_behind_entry(body: Seq<char>, m: Seq<bool>, tracer: Seq<char>) -> bool {
    match entry_place_in(body, m, tracer) {
        Some(k) => {
            let p = tracer + ".note("@;
            let at = skip_space(body, k);
            name_match(body, m, at, p) && match quoted(body, at + p.len()) {
                Some((x, y)) => ends_with(body.subrange(x, y), ":enter"@),
                None => false,
            }
        },
        None => false,
    }
}

/// One of the first ten lines of the body calls `<tracer>.note(".. :enter")`, or that call stands
/// directly behind the one of `methodEntered`.
pub open spec fn has_note_in(body: Seq<char>, m: Seq<bool>, tracer: Seq<char>) -> bool {
    enter_note_from(body, m, tracer + ".note("@, lines_below(body, 0, 9), 0) || note_behind_entry(
        body,
        m,
        tracer,
    )
}

/// The entry is noted near the top of the body, or directly behind `methodEntered`.
pub open spec fn has_entry_note(body: Seq<char>, tracer: Seq<char>) -> bool {
    has_note_in(body, mask(body), tracer)
}

fn note_near_top(body: &[char], m: &[bool], tracer: &str) -> (r: bool)
    requires
        m@.len() == body@.len(),
    ensures
        r == enter_note_from(body@, m@, tracer@ + ".note("@, lines_below(body@, 0, 9), 0),
{
    let mut pat = String::from_str(tracer);
    pat.append(".note(");
    let step: usize = chars_of(pat.as_str()).len();
    let n: usize = body.len();
    let limit = end_of_lines_below(body, 0, 9);
    let mut i: usize = 0;
    loop
        invariant
            n == body@.len(),
            m@.len() == body@.len(),
            step == pat@.len(),
            i <= n,
            limit == lines_below(body@, 0, 9),
            enter_note_from(body@, m@, tracer@ + ".note("@, limit as int, 0) == enter_note_from(
                body@,
                m@,
                pat@,
                limit as int,
                i as int,
            ),
        decreases n - i,
    {
        match find_name_in_code(body, m, pat.as_str(), i) {
            Some(at) => {
                if at >= limit {
                    return false;
                }
                match find_quoted(body, at + step) {
                    Some((x, y)) => {
                        if ends_with_str(slice(body, x, y), ":enter") {
                            return true;
                        }
                    },
                    None => {
                        return false;
                    },
                }
                i = at + step;
            },
            None => {
                return false;
            },
        }
    }
}

fn note_at_entry(body: &[char], m: &[bool], tracer: &str) -> (r: bool)
    requires
        m@.len() == body@.len(),
    ensures
        r == note_behind_entry(body@, m@, tracer@),
{
    let mut pat = String::from_str(tracer);
    pat.append(".note(");
    let pat = chars_of(pat.as_str());
    let n: usize = body.len();
    match place_of_entry(body, m, tracer) {
        Some(k) => {
            let at = space_end(body, k);
            if !matches_name(body, m, at, pat.as_slice()) {
                return false;
            }
            match find_quoted(body, at + pat.len()) {
                Some((x, y)) => ends_with_str(slice(body, x, y), ":enter"),
                None => false,
            }
        },
        None => false,
    }
}

/// Whether the entry is noted near the top of the body, or directly behind `methodEntered`.
pub fn body_has_entry_note(body: &[char], m: &[bool], tracer: &str) -> (r: bool)
    requires
        m@.len() == body@.len(),
    ensures
        r == has_note_in(body@, m@, tracer@),
{
    note_near_top(body, m, tracer) || note_at_entry(body, m, tracer)
}

// ---------- Traps and throws ----------

/// The calls of `Debug.trap` from `i` on.
pub open spec fn traps_from(s: Seq<char>, m: Seq<bool>, i: int) -> Seq<int>
    decreases s.len() - i,
{
    match find_name(s, m, "Debug.trap"@, i) {
        Some(at) => {
            proof {
                lemma_find_name(s, m, "Debug.trap"@, i);
            }
            let next = at + "Debug.trap"@.len();
            let rest = traps_from(s, m, next);
            if starts_with(trim_start(s.subrange(next, s.len() as int)), "("@) {
                seq![at] + rest
            } else {
                rest
            }
        },
        None => Seq::empty(),
    }
}

/// The calls of `Debug.trap` in a body.
pub open spec fn traps(body: Seq<char>) -> Seq<int> {
    traps_from(body, mask(body), 0)
}

/// A sequence of positions as mathematical integers.
pub open spec fn places(v: Seq<usize>) -> Seq<int> {
    Seq::new(v.len(), |i: int| v[i] as int)
}

/// The calls of `Debug.trap` in a body.
pub fn find_trap_calls(body: &[char], m: &[bool]) -> (out: Vec<usize>)
    requires
        m@.len() == body@.len(),
    ensures
        places(out@) == traps_from(body@, m@, 0),
        forall|k: int| 0 <= k < out@.len() ==> out@[k] < body@.len(),
{
    let n: usize = body.len();
    let mut out: Vec<usize> = Vec::new();
    let mut i: usize = 0;
    proof {
        reveal_strlit("Debug.trap");
    }
    loop
        invariant
            n == body@.len(),
            m@.len() == body@.len(),
            "Debug.trap"@.len() == 10,
            i <= n,
            places(out@) + traps_from(body@, m@, i as int) == traps_from(body@, m@, 0),
            forall|k: int| 0 <= k < out@.len() ==> out@[k] < body@.len(),
        decreases n - i,
    {
        match find_name_in_code(body, m, "Debug.trap", i) {
            Some(at) => {
                let ghost before = out@;
                let next: usize = at + 10;
                if starts_with_str(trim_start_of(slice(body, next, n)), "(") {
                    out.push(at);
                    assert(places(out@) =~= places(before) + seq![at as int]);
                    assert(places(before) + (seq![at as int] + traps_from(body@, m@, next as int))
                        =~= places(out@) + traps_from(body@, m@, next as int));
                }
                i = next;
            },
            None => {
                assert(places(out@) + Seq::<int>::empty() =~= places(out@));
                return out;
            },
        }
    }
}

/// The places from `i` on where the word `w` stands in code.
pub open spec fn words_from(s: Seq<char>, m: Seq<bool>, w: Seq<char>, i: int) -> Seq<int>
    decreases s.len() - i,
{
    if i < 0 || i >= s.len() {
        Seq::empty()
    } else if word_at(s, m, i, w) {
        seq![i] + words_from(s, m, w, i + 1)
    } else {
        words_from(s, m, w, i + 1)
    }
}

/// The `throw` expressions in a body.
pub open spec fn throws(body: Seq<char>) -> Seq<int> {
    words_from(body, mask(body), "throw"@, 0)
}

/// The `throw` expressions in a body.
pub fn find_throws(body: &[char], m: &[bool]) -> (out: Vec<usize>)
    requires
        m@.len() == body@.len(),
    ensures
        places(out@) == words_from(body@, m@, "throw"@, 0),
        forall|k: int| 0 <= k < out@.len() ==> out@[k] < body@.len(),
{
    let n: usize = body.len();
    let mut out: Vec<usize> = Vec::new();
    let mut i: usize = 0;
    while i < n
        invariant
            n == body@.len(),
            m@.len() == body@.len(),
            i <= n,
            places(out@) + words_from(body@, m@, "throw"@, i as int) == words_from(
                body@,
                m@,
                "throw"@,
                0,
            ),
            forall|k: int| 0 <= k < out@.len() ==> out@[k] < body@.len(),
        decreases n - i,
    {
        let ghost before = out@;
        if word_in_code(body, m, i, "throw") {
            out.push(i);
            assert(places(out@) =~= places(before) + seq![i as int]);
            assert(places(before) + (seq![i as int] + words_from(body@, m@, "throw"@, i + 1))
                =~= places(out@) + words_from(body@, m@, "throw"@, i + 1));
        }
        i += 1;
    }
    assert(places(out@) + Seq::<int>::empty() =~= places(out@));
    out
}

// ---------- Variables and assignments ----------

/// The name that the `var` at `i` declares, which may be empty.
pub open spec fn var_name(s: Seq<char>, m: Seq<bool>, i: int) -> Seq<char> {
    let a = skip_gap(s, m, i + 3);
    s.subrange(a, ident_end(s, a))
}

/// The variables that are declared from `i` on outside any braces, where `depth` braces are open.
pub open spec fn vars_from(s: Seq<char>, m: Seq<bool>, i: int, depth: int) -> Seq<Seq<char>>
    decreases s.len() - i,
{
    if i < 0 || i >= s.len() {
        Seq::empty()
    } else if m[i] && s[i] == '{' {
        vars_from(s, m, i + 1, depth + 1)
    } else if m[i] && s[i] == '}' {
        vars_from(s, m, i + 1, depth - 1)
    } else if depth == 0 && word_at(s, m, i, "var"@) {
        seq![var_name(s, m, i)] + vars_from(s, m, i + 1, depth)
    } else {
        vars_from(s, m, i + 1, depth)
    }
}

/// The actor's own variables.
pub open spec fn actor_vars(body: Seq<char>) -> Seq<Seq<char>> {
    vars_from(body, mask(body), 0, 0)
}

fn declared_name(s: &[char], m: &[bool], at: usize) -> (r: String)
    requires
        m@.len() == s@.len(),
        word_at(s@, m@, at as int, "var"@),
    ensures
        r@ == var_name(s@, m@, at as int),
{
    let n: usize = s.len();
    proof {
        reveal_strlit("var");
    }
    let a = after_gap(s, m, at + 3);
    string_of(slice(s, a, ident_run(s, a)))
}

/// The actor's own variables.
pub fn find_actor_vars(body: &[char], m: &[bool]) -> (out: Vec<String>)
    requires
        m@.len() == body@.len(),
    ensures
        texts(out@) == vars_from(body@, m@, 0, 0),
{
    let n: usize = body.len();
    let mut out: Vec<String> = Vec::new();
    let mut depth: i128 = 0;
    let mut i: usize = 0;
    while i < n
        invariant
            n == body@.len(),
            m@.len() == body@.len(),
            i <= n,
            -i <= depth <= i,
            texts(out@) + vars_from(body@, m@, i as int, depth as int) == vars_from(
                body@,
                m@,
                0,
                0,
            ),
        decreases n - i,
    {
        let ghost before = out@;
        if m[i] && body[i] == '{' {
            depth += 1;
        } else if m[i] && body[i] == '}' {
            depth -= 1;
        } else if depth == 0 && word_in_code(body, m, i, "var") {
            let name = declared_name(body, m, i);
            let ghost found = name@;
            out.push(name);
            assert(texts(out@) =~= texts(before) + seq![found]);
            assert(texts(before) + (seq![found] + vars_from(body@, m@, i + 1, depth as int))
                =~= texts(out@) + vars_from(body@, m@, i + 1, depth as int));
        }
        i += 1;
    }
    assert(texts(out@) + Seq::<Seq<char>>::empty() =~= texts(out@));
    out
}

/// Somewhere from `i` up to `end` a `var` declares `name`.
pub open spec fn declares(s: Seq<char>, m: Seq<bool>, name: Seq<char>, i: int, end: int) -> bool
    decreases end - i,
{
    if i >= end {
        false
    } else {
        (word_at(s, m, i, "var"@) && var_name(s, m, i) == name) || declares(
            s,
            m,
            name,
            i + 1,
            end,
        )
    }
}

fn declares_before(s: &[char], m: &[bool], name: &[char], end: usize) -> (r: bool)
    requires
        m@.len() == s@.len(),
        end <= s@.len(),
    ensures
        r == declares(s@, m@, name@, 0, end as int),
{
    let mut i: usize = 0;
    while i < end
        invariant
            m@.len() == s@.len(),
            i <= end <= s@.len(),
            declares(s@, m@, name@, 0, end as int) == declares(
                s@,
                m@,
                name@,
                i as int,
                end as int,
            ),
        decreases end - i,
    {
        if word_in_code(s, m, i, "var") {
            let found = declared_name(s, m, i);
            let chars = chars_of(found.as_str());
            if same_chars(chars.as_slice(), name) {
                return true;
            }
        }
        i += 1;
    }
    false
}

/// Where the name that ends at `n` begins.
pub open spec fn name_start(s: Seq<char>, n: int) -> int
    decreases n,
{
    if 0 < n <= s.len() && is_ident_char(s[n - 1]) {
        name_start(s, n - 1)
    } else {
        n
    }
}

/// Where a statement ends, and whether a `;` stands there.
pub struct StatementEnd {
    pub at: int,
    pub closed: bool,
}

/// Where the statement from `i` on ends, where `depth` brackets are open: behind its `;`, or
/// behind its last code where the block around it ends first; none in other brackets.
pub open spec fn statement_end(s: Seq<char>, m: Seq<bool>, i: int, depth: int) -> Option<
    StatementEnd,
>
    decreases s.len() - i,
{
    if i < 0 || i > s.len() {
        None
    } else if i == s.len() {
        if depth == 0 {
            Some(StatementEnd { at: code_end(s, m, i), closed: false })
        } else {
            None
        }
    } else if !m[i] {
        statement_end(s, m, i + 1, depth)
    } else if s[i] == '(' || s[i] == '{' || s[i] == '[' {
        statement_end(s, m, i + 1, depth + 1)
    } else if s[i] == ')' || s[i] == '}' || s[i] == ']' {
        if depth > 0 {
            statement_end(s, m, i + 1, depth - 1)
        } else if s[i] == '}' {
            Some(StatementEnd { at: code_end(s, m, i), closed: false })
        } else {
            None
        }
    } else if s[i] == ';' && depth == 0 {
        Some(StatementEnd { at: i + 1, closed: true })
    } else {
        statement_end(s, m, i + 1, depth)
    }
}

fn end_of_statement(s: &[char], m: &[bool], from: usize) -> (r: Option<(usize, bool)>)
    requires
        m@.len() == s@.len(),
        0 < from <= s@.len(),
        m@[from - 1],
        !is_space(s@[from - 1]),
    ensures
        match r {
            Some((e, closed)) => statement_end(s@, m@, from as int, 0) == Some(
                StatementEnd { at: e as int, closed },
            ) && from <= e <= s@.len(),
            None => statement_end(s@, m@, from as int, 0) is None,
        },
{
    let n: usize = s.len();
    let mut depth: usize = 0;
    let mut i: usize = from;
    while i < n
        invariant
            n == s@.len(),
            m@.len() == s@.len(),
            0 < from <= i <= n,
            m@[from - 1],
            !is_space(s@[from - 1]),
            depth <= i - from,
            statement_end(s@, m@, from as int, 0) == statement_end(
                s@,
                m@,
                i as int,
                depth as int,
            ),
        decreases n - i,
    {
        if m[i] {
            let c = s[i];
            if c == '(' || c == '{' || c == '[' {
                depth += 1;
            } else if c == ')' || c == '}' || c == ']' {
                if depth == 0 {
                    if c == '}' {
                        proof {
                            lemma_code_end(s@, m@, i as int, from as int);
                        }
                        return Some((end_of_code(s, m, i), false));
                    }
                    return None;
                }
                depth -= 1;
            } else if c == ';' && depth == 0 {
                return Some((i + 1, true));
            }
        }
        i += 1;
    }
    if depth == 0 {
        proof {
            lemma_code_end(s@, m@, n as int, from as int);
        }
        Some((end_of_code(s, m, n), false))
    } else {
        None
    }
}

/// A snapshot is taken in the rest of the line at `i` or in the five lines below it.
pub open spec fn snapshot_near(s: Seq<char>, i: int) -> bool {
    let near = s.subrange(i, lines_below(s, i, 5));
    contains(near, "snapshotText"@) || contains(near, "snapshotBlob"@)
}

fn has_snapshot_near(s: &[char], at: usize) -> (r: bool)
    requires
        at <= s@.len(),
    ensures
        r == snapshot_near(s@, at as int),
{
    let near = slice(s, at, end_of_lines_below(s, at, 5));
    contains_str(near, "snapshotText") || contains_str(near, "snapshotBlob")
}

/// An assignment: the name that is assigned, where it stands, and where the statement ends.
pub struct Write {
    pub name: String,
    pub start: usize,
    pub end: usize,
    /// A `;` ends the statement.
    pub closed: bool,
}

/// An assignment as a mathematical value.
pub struct WriteView {
    pub name: Seq<char>,
    pub start: int,
    pub end: int,
    pub closed: bool,
}

impl View for Write {
    type V = WriteView;

    open spec fn view(&self) -> WriteView {
        WriteView {
            name: self.name@,
            start: self.start as int,
            end: self.end as int,
            closed: self.closed,
        }
    }
}

/// The views of a sequence of assignments.
pub open spec fn writes_view(v: Seq<Write>) -> Seq<WriteView> {
    Seq::new(v.len(), |i: int| v[i]@)
}

/// The assignment whose `:=` stands at `at`, where it assigns one of `vars` by its name alone,
/// which no `var` before it hides, and no snapshot follows.
pub open spec fn write_at(s: Seq<char>, m: Seq<bool>, vars: Seq<Seq<char>>, at: int) -> Option<
    WriteView,
> {
    let e = back_space(s, at);
    let b = name_start(s, e);
    let name = s.subrange(b, e);
    let before = code_end(s, m, b);
    let is_field = before > 0 && s[before - 1] == '.';
    if b < e && !is_field && vars.contains(name) && !declares(s, m, name, 0, b) {
        match statement_end(s, m, at + 2, 0) {
            Some(end) => if snapshot_near(s, end.at) {
                None
            } else {
                Some(WriteView { name, start: b, end: end.at, closed: end.closed })
            },
            None => None,
        }
    } else {
        None
    }
}

fn holds_name(vars: &Vec<String>, name: &[char]) -> (r: bool)
    ensures
        r == texts(vars@).contains(name@),
{
    let mut i: usize = 0;
    while i < vars.len()
        invariant
            i <= vars@.len(),
            forall|k: int| 0 <= k < i ==> #[trigger] texts(vars@)[k] != name@,
        decreases vars@.len() - i,
    {
        let chars = chars_of(vars[i].as_str());
        if same_chars(chars.as_slice(), name) {
            assert(texts(vars@)[i as int] == name@);
            return true;
        }
        i += 1;
    }
    false
}

fn find_write(s: &[char], m: &[bool], vars: &Vec<String>, at: usize) -> (r: Option<Write>)
    requires
        m@.len() == s@.len(),
        at + 2 <= s@.len(),
        m@[at + 1],
        s@[at + 1] == '=',
    ensures
        match r {
            Some(w) => write_at(s@, m@, texts(vars@), at as int) == Some(w@) && w.start < w.end
                <= s@.len(),
            None => write_at(s@, m@, texts(vars@), at as int) is None,
        },
{
    let mut e: usize = at;
    while e > 0 && space(s[e - 1])
        invariant
            e <= at <= s@.len(),
            back_space(s@, at as int) == back_space(s@, e as int),
        decreases e,
    {
        e -= 1;
    }
    let mut b: usize = e;
    while b > 0 && ident_char(s[b - 1])
        invariant
            b <= e <= s@.len(),
            name_start(s@, e as int) == name_start(s@, b as int),
        decreases b,
    {
        b -= 1;
    }
    let before = end_of_code(s, m, b);
    let is_field = before > 0 && s[before - 1] == '.';
    let name = slice(s, b, e);
    if b < e && !is_field && holds_name(vars, name) && !declares_before(s, m, name, b) {
        match end_of_statement(s, m, at + 2) {
            Some((end, closed)) => if has_snapshot_near(s, end) {
                None
            } else {
                Some(Write { name: string_of(name), start: b, end, closed })
            },
            None => None,
        }
    } else {
        None
    }
}

/// The assignments to `vars` from `i` on that want a snapshot.
pub open spec fn writes_from(s: Seq<char>, m: Seq<bool>, vars: Seq<Seq<char>>, i: int) -> Seq<
    WriteView,
>
    decreases s.len() - i,
{
    match find_code(s, m, ":="@, i) {
        Some(at) => {
            proof {
                lemma_find_code(s, m, ":="@, i);
            }
            let rest = writes_from(s, m, vars, at + ":="@.len());
            match write_at(s, m, vars, at) {
                Some(w) => seq![w] + rest,
                None => rest,
            }
        },
        None => Seq::empty(),
    }
}

/// The assignments to `vars` in a body that want a snapshot.
pub open spec fn writes(body: Seq<char>, vars: Seq<Seq<char>>) -> Seq<WriteView> {
    writes_from(body, mask(body), vars, 0)
}

/// The assignments to `vars` in a body that want a snapshot.
pub fn find_writes(body: &[char], m: &[bool], vars: &Vec<String>) -> (out: Vec<Write>)
    requires
        m@.len() == body@.len(),
    ensures
        writes_view(out@) == writes_from(body@, m@, texts(vars@), 0),
        forall|k: int|
            0 <= k < out@.len() ==> (#[trigger] out@[k]).start < out@[k].end <= body@.len(),
{
    let n: usize = body.len();
    let ghost names = texts(vars@);
    let mut out: Vec<Write> = Vec::new();
    let mut i: usize = 0;
    proof {
        reveal_strlit(":=");
    }
    loop
        invariant
            n == body@.len(),
            m@.len() == body@.len(),
            names == texts(vars@),
            ":="@.len() == 2,
            i <= n,
            writes_view(out@) + writes_from(body@, m@, names, i as int) == writes_from(
                body@,
                m@,
                names,
                0,
            ),
            forall|k: int|
                0 <= k < out@.len() ==> (#[trigger] out@[k]).start < out@[k].end <= body@.len(),
        decreases n - i,
    {
        match find_in_code(body, m, ":=", i) {
            Some(at) => {
                let ghost before = out@;
                let ghost rest = writes_from(body@, m@, names, at + 2);
                assert(body@[at + 1] == '=') by {
                    reveal_strlit(":=");
                    assert(body@.subrange(at as int, at + ":="@.len())[1] == body@[at + 1]);
                }
                if let Some(w) = find_write(body, m, vars, at) {
                    let ghost found = w@;
                    out.push(w);
                    assert(writes_view(out@) =~= writes_view(before) + seq![found]);
                    assert(writes_view(before) + (seq![found] + rest) =~= writes_view(out@) + rest);
                }
                i = at + 2;
            },
            None => {
                assert(writes_view(out@) + Seq::<WriteView>::empty() =~= writes_view(out@));
                return out;
            },
        }
    }
}

} // verus!
