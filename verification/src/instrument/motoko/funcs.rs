//! The public functions of a Motoko actor.

use vstd::prelude::*;
use vstd::string::*;

use crate::instrument::motoko::body::{
    body_has_entry_note, find_throws, find_trap_calls, find_writes, has_entry_note, places, throws,
    traps, writes, writes_view, Write, WriteView,
};
use crate::instrument::motoko::scan::{
    after_gap, code_mask, find_name, find_name_in_code, find_matching, lemma_matching,
    lemma_skip_gap, mask, matching, skip_gap, word_at, word_in_code,
};
use crate::text::{
    ascii_space, blen, chars_of, contains, contains_str, ident_char, ident_end, ident_run,
    is_ascii_space, is_ident_char, lemma_byte_at, match_at, matches_at, same_text, slice,
    string_of, texts, trim, trim_of, trim_start, trim_start_of,
};

verus! {

/// A public function of the actor. Positions are those of characters in the file.
pub struct PubFunc {
    pub name: String,
    /// The position of the body's `{`.
    pub body_open: usize,
    /// The position of the body's `}`.
    pub body_close: usize,
    /// The position after the `(` of the parameter list.
    pub params_open: usize,
    pub params_empty: bool,
    /// The first parameter is a trace header.
    pub header_first: bool,
    pub is_query: bool,
    pub is_shared: bool,
    pub has_begin_trace: bool,
    pub has_method_entered: bool,
    pub has_entry_note: bool,
    /// The calls of `Debug.trap` in the body, counted from the body's start.
    pub traps: Vec<usize>,
    /// The `throw` expressions in the body, counted from the body's start.
    pub throws: Vec<usize>,
    /// The assignments to variables of the actor that want a snapshot, counted from the body's
    /// start.
    pub writes: Vec<Write>,
}

/// A public function as a mathematical value.
pub struct FuncView {
    pub name: Seq<char>,
    pub body_open: int,
    pub body_close: int,
    pub params_open: int,
    pub params_empty: bool,
    pub header_first: bool,
    pub is_query: bool,
    pub is_shared: bool,
    pub has_begin_trace: bool,
    pub has_method_entered: bool,
    pub has_entry_note: bool,
    pub traps: Seq<int>,
    pub throws: Seq<int>,
    pub writes: Seq<WriteView>,
}

impl View for PubFunc {
    type V = FuncView;

    open spec fn view(&self) -> FuncView {
        FuncView {
            name: self.name@,
            body_open: self.body_open as int,
            body_close: self.body_close as int,
            params_open: self.params_open as int,
            params_empty: self.params_empty,
            header_first: self.header_first,
            is_query: self.is_query,
            is_shared: self.is_shared,
            has_begin_trace: self.has_begin_trace,
            has_method_entered: self.has_method_entered,
            has_entry_note: self.has_entry_note,
            traps: places(self.traps@),
            throws: places(self.throws@),
            writes: writes_view(self.writes@),
        }
    }
}

impl PubFunc {
    /// The function's positions lie in a file of `len` characters.
    pub open spec fn within(self, len: int) -> bool {
        &&& self.params_open <= self.body_open < self.body_close < len
        &&& forall|k: int|
            0 <= k < self.traps@.len() ==> self.body_open + 1 + #[trigger] self.traps@[k]
                < self.body_close
        &&& forall|k: int|
            0 <= k < self.throws@.len() ==> self.body_open + 1 + #[trigger] self.throws@[k]
                < self.body_close
        &&& forall|k: int|
            0 <= k < self.writes@.len() ==> self.body_open + 1 + (
            #[trigger] self.writes@[k]).start < self.body_open + 1 + self.writes@[k].end
                <= self.body_close
    }
}

// ---------- The words before `func` ----------

/// The keyword `func` stands at `i`.
pub open spec fn func_at(s: Seq<char>, m: Seq<bool>, i: int) -> bool {
    &&& match_at(s, i, "func"@)
    &&& m[i]
    &&& i > 0 ==> !is_ident_char(s[i - 1])
    &&& i + 4 < s.len() ==> !is_ident_char(s[i + 4])
}

fn is_func_at(s: &[char], m: &[bool], at: usize) -> (r: bool)
    requires
        m@.len() == s@.len(),
    ensures
        r == func_at(s@, m@, at as int),
        r ==> at + 4 <= s@.len(),
{
    let n: usize = s.len();
    let pat = chars_of("func");
    proof {
        reveal_strlit("func");
    }
    matches_at(s, at, pat.as_slice()) && m[at] && !(at > 0 && ident_char(s[at - 1])) && !(at + 4 < n
        && ident_char(s[at + 4]))
}

/// A character that may stand among the words before `func`.
pub open spec fn is_prefix_char(c: char) -> bool {
    is_ascii_space(c) || c == ')' || c == '(' || c == ',' || is_ident_char(c)
}

/// The word `w` stands among the modifiers before position `i`: code on the way back from there
/// over words and brackets, outside the brackets. Comments are passed over.
pub open spec fn modified_by(s: Seq<char>, m: Seq<bool>, w: Seq<char>, i: int, depth: int) -> bool
    decreases i,
{
    if i <= 0 || i > s.len() {
        false
    } else if !m[i - 1] {
        modified_by(s, m, w, i - 1, depth)
    } else if !is_prefix_char(s[i - 1]) {
        false
    } else if s[i - 1] == ')' {
        modified_by(s, m, w, i - 1, depth + 1)
    } else if s[i - 1] == '(' {
        modified_by(s, m, w, i - 1, depth - 1)
    } else {
        (depth == 0 && word_at(s, m, i - 1, w)) || modified_by(s, m, w, i - 1, depth)
    }
}

/// Whether the word `w` stands among the modifiers before `at`.
fn has_modifier(s: &[char], m: &[bool], w: &str, at: usize) -> (r: bool)
    requires
        m@.len() == s@.len(),
        at <= s@.len(),
    ensures
        r == modified_by(s@, m@, w@, at as int, 0),
{
    let mut depth: i128 = 0;
    let mut i: usize = at;
    while i > 0
        invariant
            m@.len() == s@.len(),
            i <= at <= s@.len(),
            i - at <= depth <= at - i,
            modified_by(s@, m@, w@, at as int, 0) == modified_by(
                s@,
                m@,
                w@,
                i as int,
                depth as int,
            ),
        decreases i,
    {
        if m[i - 1] {
            let c = s[i - 1];
            if !(ascii_space(c) || c == ')' || c == '(' || c == ',' || ident_char(c)) {
                return false;
            }
            if c == ')' {
                depth += 1;
            } else if c == '(' {
                depth -= 1;
            } else if depth == 0 && word_in_code(s, m, i - 1, w) {
                return true;
            }
        }
        i -= 1;
    }
    false
}

// ---------- The parameters ----------

/// The first comma from `i` on that stands in code outside brackets, or the end.
pub open spec fn first_comma(
    s: Seq<char>,
    m: Seq<bool>,
    i: int,
    parens: int,
    braces: int,
    brackets: int,
) -> int
    decreases s.len() - i,
{
    if i < 0 || i >= s.len() {
        s.len() as int
    } else if !m[i] {
        first_comma(s, m, i + 1, parens, braces, brackets)
    } else if s[i] == '(' {
        first_comma(s, m, i + 1, parens + 1, braces, brackets)
    } else if s[i] == ')' {
        first_comma(s, m, i + 1, parens - 1, braces, brackets)
    } else if s[i] == '{' {
        first_comma(s, m, i + 1, parens, braces + 1, brackets)
    } else if s[i] == '}' {
        first_comma(s, m, i + 1, parens, braces - 1, brackets)
    } else if s[i] == '[' {
        first_comma(s, m, i + 1, parens, braces, brackets + 1)
    } else if s[i] == ']' {
        first_comma(s, m, i + 1, parens, braces, brackets - 1)
    } else if s[i] == ',' && parens == 0 && braces == 0 && brackets == 0 {
        i
    } else {
        first_comma(s, m, i + 1, parens, braces, brackets)
    }
}

/// The first parameter is an optional trace header.
pub open spec fn header_first(params: Seq<char>, alias: Seq<char>) -> bool {
    let first = trim(params.subrange(0, first_comma(params, mask(params), 0, 0, 0, 0)));
    trim_start(params).len() > 0 && (contains(first, "?"@ + alias + ".TraceHeader"@) || contains(
        first,
        "?TraceHeader"@,
    ) || contains(first, "?Trace.TraceHeader"@))
}

fn end_of_first_param(s: &[char], m: &[bool]) -> (r: usize)
    requires
        m@.len() == s@.len(),
    ensures
        r == first_comma(s@, m@, 0, 0, 0, 0),
        r <= s@.len(),
{
    let n: usize = s.len();
    let mut parens: i128 = 0;
    let mut braces: i128 = 0;
    let mut brackets: i128 = 0;
    let mut i: usize = 0;
    while i < n
        invariant
            n == s@.len(),
            m@.len() == s@.len(),
            i <= n,
            -i <= parens <= i,
            -i <= braces <= i,
            -i <= brackets <= i,
            first_comma(s@, m@, 0, 0, 0, 0) == first_comma(
                s@,
                m@,
                i as int,
                parens as int,
                braces as int,
                brackets as int,
            ),
        decreases n - i,
    {
        if m[i] {
            let c = s[i];
            if c == '(' {
                parens += 1;
            } else if c == ')' {
                parens -= 1;
            } else if c == '{' {
                braces += 1;
            } else if c == '}' {
                braces -= 1;
            } else if c == '[' {
                brackets += 1;
            } else if c == ']' {
                brackets -= 1;
            } else if c == ',' && parens == 0 && braces == 0 && brackets == 0 {
                return i;
            }
        }
        i += 1;
    }
    n
}

/// Whether the first parameter is an optional trace header.
pub fn first_param_is_trace_header(params: &[char], alias: &str) -> (r: bool)
    ensures
        r == header_first(params@, alias@),
{
    if trim_start_of(params).len() == 0 {
        return false;
    }
    let m = code_mask(params);
    let first = trim_of(slice(params, 0, end_of_first_param(params, m.as_slice())));
    let mut aliased = String::from_str("?");
    aliased.append(alias);
    aliased.append(".TraceHeader");
    contains_str(first, aliased.as_str()) || contains_str(first, "?TraceHeader") || contains_str(
        first,
        "?Trace.TraceHeader",
    )
}

// ---------- Functions ----------

/// Where the parts of a function stand: `func <name>(<params>) .. { <body> }`.
pub struct Shape {
    pub name_start: int,
    pub name_end: int,
    pub params_open: int,
    pub params_close: int,
    pub body_open: int,
    pub body_close: int,
}

/// A word of a type behind which a type follows.
pub open spec fn is_type_prefix(w: Seq<char>) -> bool {
    w == "async"@ || w == "actor"@ || w == "object"@ || w == "module"@ || w == "shared"@ || w
        == "query"@ || w == "and"@ || w == "or"@
}

/// The first `{` in code at or after `i`, where no `;` comes before it.
pub open spec fn brace_before_semi(s: Seq<char>, m: Seq<bool>, i: int) -> Option<int>
    decreases s.len() - i,
{
    if i < 0 || i >= s.len() {
        None
    } else if m[i] && s[i] == '{' {
        Some(i)
    } else if m[i] && s[i] == ';' {
        None
    } else {
        brace_before_semi(s, m, i + 1)
    }
}

/// Where the body of a function opens whose parameters end before `i`: at the first `{` in code
/// that begins no type. `wants` says that a type is to follow, so that a `{` begins one.
pub open spec fn body_from(s: Seq<char>, m: Seq<bool>, i: int, wants: bool) -> Option<int>
    decreases s.len() - i,
{
    if i < 0 || i >= s.len() {
        None
    } else if !m[i] || is_ascii_space(s[i]) {
        body_from(s, m, i + 1, wants)
    } else if is_ident_char(s[i]) {
        proof {
            lemma_ident_end(s, i);
        }
        let e = ident_end(s, i);
        body_from(s, m, e, is_type_prefix(s.subrange(i, e)))
    } else if s[i] == '{' && !wants {
        Some(i)
    } else if s[i] == '{' || s[i] == '(' || s[i] == '[' {
        proof {
            lemma_matching(s, m, s[i], closer(s[i]), i);
        }
        match matching(s, m, s[i], closer(s[i]), i) {
            Some(k) => body_from(s, m, k + 1, false),
            None => None,
        }
    } else if s[i] == ';' {
        None
    } else if s[i] == '=' {
        brace_before_semi(s, m, i + 1)
    } else if s[i] == '>' {
        body_from(s, m, i + 1, i > 0 && s[i - 1] == '-')
    } else if s[i] == ':' || s[i] == '?' || s[i] == '.' || s[i] == ',' || s[i] == '<' {
        body_from(s, m, i + 1, true)
    } else {
        body_from(s, m, i + 1, wants)
    }
}

/// The bracket that closes `open`.
pub open spec fn closer(open: char) -> char {
    if open == '{' {
        '}'
    } else if open == '(' {
        ')'
    } else {
        ']'
    }
}

pub proof fn lemma_ident_end(s: Seq<char>, i: int)
    requires
        0 <= i < s.len(),
        is_ident_char(s[i]),
    ensures
        i < ident_end(s, i) <= s.len(),
{
    lemma_ident_grows(s, i + 1);
}

proof fn lemma_ident_grows(s: Seq<char>, i: int)
    requires
        0 <= i <= s.len(),
    ensures
        i <= ident_end(s, i) <= s.len(),
    decreases s.len() - i,
{
    if i < s.len() && is_ident_char(s[i]) {
        lemma_ident_grows(s, i + 1);
    }
}

fn follows_type(w: &[char]) -> (r: bool)
    ensures
        r == is_type_prefix(w@),
{
    let word = string_of(w);
    same_text(word.as_str(), "async") || same_text(word.as_str(), "actor") || same_text(
        word.as_str(),
        "object",
    ) || same_text(word.as_str(), "module") || same_text(word.as_str(), "shared") || same_text(
        word.as_str(),
        "query",
    ) || same_text(word.as_str(), "and") || same_text(word.as_str(), "or")
}

fn find_brace_before_semi(s: &[char], m: &[bool], from: usize) -> (r: Option<usize>)
    requires
        m@.len() == s@.len(),
    ensures
        match r {
            Some(k) => brace_before_semi(s@, m@, from as int) == Some(k as int) && from <= k
                < s@.len() && m@[k as int] && s@[k as int] == '{',
            None => brace_before_semi(s@, m@, from as int) is None,
        },
{
    let mut i: usize = from;
    while i < s.len()
        invariant
            m@.len() == s@.len(),
            from <= i,
            brace_before_semi(s@, m@, from as int) == brace_before_semi(s@, m@, i as int),
        decreases s@.len() - i,
    {
        if m[i] {
            if s[i] == '{' {
                return Some(i);
            }
            if s[i] == ';' {
                return None;
            }
        }
        i += 1;
    }
    None
}

fn find_body(s: &[char], m: &[bool], from: usize) -> (r: Option<usize>)
    requires
        m@.len() == s@.len(),
        from <= s@.len(),
    ensures
        match r {
            Some(k) => body_from(s@, m@, from as int, false) == Some(k as int) && from <= k
                < s@.len() && m@[k as int] && s@[k as int] == '{',
            None => body_from(s@, m@, from as int, false) is None,
        },
{
    let n: usize = s.len();
    let mut wants = false;
    let mut i: usize = from;
    while i < n
        invariant
            n == s@.len(),
            m@.len() == s@.len(),
            from <= i <= n,
            body_from(s@, m@, from as int, false) == body_from(s@, m@, i as int, wants),
        decreases n - i,
    {
        let c = s[i];
        if !m[i] || ascii_space(c) {
            i += 1;
        } else if ident_char(c) {
            proof {
                lemma_ident_end(s@, i as int);
            }
            let e = ident_run(s, i);
            wants = follows_type(slice(s, i, e));
            i = e;
        } else if c == '{' && !wants {
            return Some(i);
        } else if c == '{' || c == '(' || c == '[' {
            let close = if c == '{' {
                '}'
            } else if c == '(' {
                ')'
            } else {
                ']'
            };
            match find_matching(s, m, c, close, i) {
                Some(k) => {
                    wants = false;
                    i = k + 1;
                },
                None => {
                    return None;
                },
            }
        } else if c == ';' {
            return None;
        } else if c == '=' {
            return find_brace_before_semi(s, m, i + 1);
        } else {
            if c == '>' {
                wants = i > 0 && s[i - 1] == '-';
            } else if c == ':' || c == '?' || c == '.' || c == ',' || c == '<' {
                wants = true;
            }
            i += 1;
        }
    }
    None
}

pub proof fn lemma_body_from(s: Seq<char>, m: Seq<bool>, i: int, wants: bool)
    ensures
        body_from(s, m, i, wants) matches Some(k) ==> 0 <= i <= k < s.len(),
    decreases s.len() - i,
{
    if i < 0 || i >= s.len() {
    } else if !m[i] || is_ascii_space(s[i]) {
        lemma_body_from(s, m, i + 1, wants);
    } else if is_ident_char(s[i]) {
        lemma_ident_end(s, i);
        let e = ident_end(s, i);
        lemma_body_from(s, m, e, is_type_prefix(s.subrange(i, e)));
    } else if s[i] == '{' && !wants {
    } else if s[i] == '{' || s[i] == '(' || s[i] == '[' {
        lemma_matching(s, m, s[i], closer(s[i]), i);
        if let Some(k) = matching(s, m, s[i], closer(s[i]), i) {
            lemma_body_from(s, m, k + 1, false);
        }
    } else if s[i] == ';' {
    } else if s[i] == '=' {
        lemma_brace(s, m, i + 1);
    } else if s[i] == '>' {
        lemma_body_from(s, m, i + 1, i > 0 && s[i - 1] == '-');
    } else if s[i] == ':' || s[i] == '?' || s[i] == '.' || s[i] == ',' || s[i] == '<' {
        lemma_body_from(s, m, i + 1, true);
    } else {
        lemma_body_from(s, m, i + 1, wants);
    }
}

pub proof fn lemma_brace(s: Seq<char>, m: Seq<bool>, i: int)
    ensures
        brace_before_semi(s, m, i) matches Some(k) ==> 0 <= i <= k < s.len(),
    decreases s.len() - i,
{
    if 0 <= i < s.len() && !(m[i] && s[i] == '{') && !(m[i] && s[i] == ';') {
        lemma_brace(s, m, i + 1);
    }
}

/// The function whose keyword stands at `i`.
pub open spec fn shape_at(s: Seq<char>, m: Seq<bool>, i: int) -> Option<Shape> {
    let a = skip_gap(s, m, i + 4);
    let e = ident_end(s, a);
    let p = skip_gap(s, m, e);
    if e > a && p < s.len() && s[p] == '(' {
        match matching(s, m, '(', ')', p) {
            Some(q) => match body_from(s, m, q + 1, false) {
                Some(open) => match matching(s, m, '{', '}', open) {
                    Some(close) => Some(
                        Shape {
                            name_start: a,
                            name_end: e,
                            params_open: p + 1,
                            params_close: q,
                            body_open: open,
                            body_close: close,
                        },
                    ),
                    None => None,
                },
                None => None,
            },
            None => None,
        }
    } else {
        None
    }
}

/// The first position at or after `i` that holds neither `;` nor a space.
pub open spec fn after_semis(s: Seq<char>, i: int) -> int
    decreases s.len() - i,
{
    if 0 <= i < s.len() && (s[i] == ';' || s[i] == ' ') {
        after_semis(s, i + 1)
    } else {
        i
    }
}

/// The first position at or after `from` that holds neither `;` nor a space.
pub fn skip_semis(s: &[char], from: usize) -> (r: usize)
    requires
        from <= s@.len(),
    ensures
        r == after_semis(s@, from as int),
        from <= r <= s@.len(),
{
    let n: usize = s.len();
    let mut i: usize = from;
    while i < n && (s[i] == ';' || s[i] == ' ')
        invariant
            n == s@.len(),
            from <= i <= n,
            after_semis(s@, from as int) == after_semis(s@, i as int),
        decreases n - i,
    {
        i += 1;
    }
    i
}

/// A function ends after its keyword, within the text.
pub proof fn lemma_shape_at(s: Seq<char>, m: Seq<bool>, i: int)
    ensures
        shape_at(s, m, i) matches Some(h) ==> i < h.body_close < s.len() && 0 <= h.body_close,
{
    let a = skip_gap(s, m, i + 4);
    let e = ident_end(s, a);
    let p = skip_gap(s, m, e);
    lemma_skip_gap(s, m, i + 4);
    lemma_skip_gap(s, m, e);
    lemma_matching(s, m, '(', ')', p);
    if let Some(q) = matching(s, m, '(', ')', p) {
        lemma_body_from(s, m, q + 1, false);
        if let Some(open) = body_from(s, m, q + 1, false) {
            lemma_matching(s, m, '{', '}', open);
        }
    }
}

pub proof fn lemma_after_semis(s: Seq<char>, i: int)
    requires
        0 <= i <= s.len(),
    ensures
        i <= after_semis(s, i) <= s.len(),
    decreases s.len() - i,
{
    if i < s.len() && (s[i] == ';' || s[i] == ' ') {
        lemma_after_semis(s, i + 1);
    }
}

/// The names that the search for functions goes by.
pub struct Names {
    pub alias: Seq<char>,
    pub tracer: Seq<char>,
    pub vars: Seq<Seq<char>>,
}

/// The function of shape `h` whose keyword stands at `i` in the actor body `s`, which begins at
/// `offset` in the file.
pub open spec fn func_view(s: Seq<char>, i: int, h: Shape, offset: int, names: Names) -> FuncView {
    let params = s.subrange(h.params_open, h.params_close);
    let body = s.subrange(h.body_open + 1, h.body_close);
    FuncView {
        name: s.subrange(h.name_start, h.name_end),
        body_open: offset + h.body_open,
        body_close: offset + h.body_close,
        params_open: offset + h.params_open,
        params_empty: trim(params).len() == 0,
        header_first: header_first(params, names.alias),
        is_query: modified_by(s, mask(s), "query"@, i, 0),
        is_shared: modified_by(s, mask(s), "shared"@, i, 0),
        has_begin_trace: find_name(body, mask(body), names.tracer + ".beginTrace("@, 0) is Some,
        has_method_entered: find_name(
            body,
            mask(body),
            names.tracer + ".methodEntered("@,
            0,
        ) is Some,
        has_entry_note: has_entry_note(body, names.tracer),
        traps: traps(body),
        throws: throws(body),
        writes: writes(body, names.vars),
    }
}

/// The public functions of the actor body `s` from `i` on.
pub open spec fn funcs_from(
    s: Seq<char>,
    m: Seq<bool>,
    i: int,
    offset: int,
    names: Names,
) -> Seq<FuncView>
    decreases s.len() - i,
{
    if i < 0 || i + 4 > s.len() {
        Seq::empty()
    } else if !func_at(s, m, i) {
        funcs_from(s, m, i + 1, offset, names)
    } else if !modified_by(s, m, "public"@, i, 0) {
        funcs_from(s, m, i + 4, offset, names)
    } else {
        match shape_at(s, m, i) {
            Some(h) => {
                proof {
                    lemma_shape_at(s, m, i);
                    lemma_after_semis(s, h.body_close + 1);
                }
                seq![func_view(s, i, h, offset, names)] + funcs_from(
                    s,
                    m,
                    after_semis(s, h.body_close + 1),
                    offset,
                    names,
                )
            },
            None => funcs_from(s, m, i + 4, offset, names),
        }
    }
}

/// The public functions of the actor body `s`, which begins at `offset` in the file.
pub open spec fn public_funcs(s: Seq<char>, offset: int, names: Names) -> Seq<FuncView> {
    funcs_from(s, mask(s), 0, offset, names)
}

/// The views of a sequence of functions.
pub open spec fn funcs_view(v: Seq<PubFunc>) -> Seq<FuncView> {
    Seq::new(v.len(), |i: int| v[i]@)
}

/// Where the parts of a function stand, as machine integers.
struct Parts {
    name_start: usize,
    name_end: usize,
    params_open: usize,
    params_close: usize,
    body_open: usize,
    body_close: usize,
}

impl Parts {
    spec fn shape(self) -> Shape {
        Shape {
            name_start: self.name_start as int,
            name_end: self.name_end as int,
            params_open: self.params_open as int,
            params_close: self.params_close as int,
            body_open: self.body_open as int,
            body_close: self.body_close as int,
        }
    }
}

fn parse_shape(s: &[char], m: &[bool], at: usize) -> (r: Option<Parts>)
    requires
        m@.len() == s@.len(),
        at + 4 <= s@.len(),
    ensures
        match r {
            Some(h) => shape_at(s@, m@, at as int) == Some(h.shape()) && at < h.name_start
                <= h.name_end < h.params_open <= h.params_close < h.body_open < h.body_close
                < s@.len() && s@[h.body_close as int] == '}',
            None => shape_at(s@, m@, at as int) is None,
        },
{
    let n: usize = s.len();
    let a = after_gap(s, m, at + 4);
    let e = ident_run(s, a);
    let p = after_gap(s, m, e);
    if !(e > a && p < n && s[p] == '(') {
        return None;
    }
    match find_matching(s, m, '(', ')', p) {
        Some(q) => match find_body(s, m, q + 1) {
            Some(open) => match find_matching(s, m, '{', '}', open) {
                Some(close) => Some(
                    Parts {
                        name_start: a,
                        name_end: e,
                        params_open: p + 1,
                        params_close: q,
                        body_open: open,
                        body_close: close,
                    },
                ),
                None => None,
            },
            None => None,
        },
        None => None,
    }
}

fn holds_call(s: &[char], m: &[bool], tracer: &str, call: &str) -> (r: bool)
    requires
        m@.len() == s@.len(),
    ensures
        r == (find_name(s@, m@, tracer@ + call@, 0) is Some),
{
    let mut pat = String::from_str(tracer);
    pat.append(call);
    find_name_in_code(s, m, pat.as_str(), 0).is_some()
}

fn read_func(
    s: &[char],
    all: &[bool],
    at: usize,
    h: &Parts,
    offset: usize,
    alias: &str,
    tracer: &str,
    vars: &Vec<String>,
) -> (r: PubFunc)
    requires
        all@ == mask(s@),
        all@.len() == s@.len(),
        at < h.name_start <= h.name_end < h.params_open <= h.params_close < h.body_open
            < h.body_close < s@.len(),
        s@[h.body_close as int] == '}',
        offset + s@.len() <= usize::MAX,
        blen(s@) <= usize::MAX,
    ensures
        r@ == func_view(
            s@,
            at as int,
            h.shape(),
            offset as int,
            (Names { alias: alias@, tracer: tracer@, vars: texts(vars@) }),
        ),
        r.within(offset + s@.len()),
        offset <= r.body_close && s@[r.body_close - offset] == '}',
{
    let params = slice(s, h.params_open, h.params_close);
    let body = slice(s, h.body_open + 1, h.body_close);
    let m = code_mask(body);
    proof {
        lemma_byte_at(s@, h.body_open + 1, h.body_close as int);
        crate::text::lemma_encode_add(
            s@.subrange(0, h.body_open + 1),
            s@.subrange(h.body_open + 1, h.body_close as int),
        );
        assert(s@.subrange(0, h.body_open + 1) + body@ =~= s@.subrange(0, h.body_close as int));
    }
    let traps = find_trap_calls(body, m.as_slice());
    let throws = find_throws(body, m.as_slice());
    let writes = find_writes(body, m.as_slice(), vars);
    PubFunc {
        name: string_of(slice(s, h.name_start, h.name_end)),
        body_open: offset + h.body_open,
        body_close: offset + h.body_close,
        params_open: offset + h.params_open,
        params_empty: trim_of(params).len() == 0,
        header_first: first_param_is_trace_header(params, alias),
        is_query: has_modifier(s, all, "query", at),
        is_shared: has_modifier(s, all, "shared", at),
        has_begin_trace: holds_call(body, m.as_slice(), tracer, ".beginTrace("),
        has_method_entered: holds_call(body, m.as_slice(), tracer, ".methodEntered("),
        has_entry_note: body_has_entry_note(body, m.as_slice(), tracer),
        traps,
        throws,
        writes,
    }
}

/// The public functions of the actor body `s`, which begins at `offset` in the file.
pub fn find_public_funcs(
    s: &[char],
    offset: usize,
    alias: &str,
    tracer: &str,
    vars: &Vec<String>,
) -> (out: Vec<PubFunc>)
    requires
        offset + s@.len() <= usize::MAX,
        blen(s@) <= usize::MAX,
    ensures
        funcs_view(out@) == public_funcs(
            s@,
            offset as int,
            (Names { alias: alias@, tracer: tracer@, vars: texts(vars@) }),
        ),
        forall|k: int|
            0 <= k < out@.len() ==> (#[trigger] out@[k]).within(offset + s@.len()) && offset
                <= out@[k].body_close && s@[out@[k].body_close - offset] == '}',
{
    let ghost names = Names { alias: alias@, tracer: tracer@, vars: texts(vars@) };
    let m = code_mask(s);
    let n: usize = s.len();
    let mut out: Vec<PubFunc> = Vec::new();
    let mut i: usize = 0;
    proof {
        reveal_strlit("func");
    }
    while n - i >= 4
        invariant
            n == s@.len(),
            m@ == mask(s@),
            m@.len() == s@.len(),
            i <= n,
            offset + s@.len() <= usize::MAX,
            blen(s@) <= usize::MAX,
            names == (Names { alias: alias@, tracer: tracer@, vars: texts(vars@) }),
            funcs_view(out@) + funcs_from(s@, m@, i as int, offset as int, names) == funcs_from(
                s@,
                m@,
                0,
                offset as int,
                names,
            ),
            forall|k: int|
                0 <= k < out@.len() ==> (#[trigger] out@[k]).within(offset + s@.len()) && offset
                    <= out@[k].body_close && s@[out@[k].body_close - offset] == '}',
        decreases n - i,
    {
        if !is_func_at(s, m.as_slice(), i) {
            i += 1;
            continue;
        }
        if !has_modifier(s, m.as_slice(), "public", i) {
            i += 4;
            continue;
        }
        match parse_shape(s, m.as_slice(), i) {
            Some(h) => {
                let ghost before = out@;
                let f = read_func(s, m.as_slice(), i, &h, offset, alias, tracer, vars);
                let ghost found = f@;
                out.push(f);
                let next = skip_semis(s, h.body_close + 1);
                proof {
                    let rest = funcs_from(s@, m@, next as int, offset as int, names);
                    assert(funcs_view(out@) =~= funcs_view(before) + seq![found]);
                    assert(funcs_view(before) + (seq![found] + rest) =~= funcs_view(out@) + rest);
                }
                i = next;
            },
            None => {
                i += 4;
            },
        }
    }
    assert(funcs_view(out@) + Seq::<FuncView>::empty() =~= funcs_view(out@));
    out
}

} // verus!
