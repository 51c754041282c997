//! Text as a sequence of characters: searching, lines, trimming, replacing,
//! numbers in decimal and hexadecimal, and the length of text in UTF-8.

use vstd::prelude::*;
use vstd::slice::slice_subrange;
use vstd::string::*;
use vstd::utf8::*;

verus! {

/// `String::push` appends one character to the string.
pub assume_specification[ String::push ](s: &mut String, c: char)
    ensures
        final(s)@ == old(s)@.push(c),
;

// ---------- Conversions ----------

/// The characters of `s`, in order.
pub fn chars_of(s: &str) -> (out: Vec<char>)
    ensures
        out@ == s@,
{
    let mut out: Vec<char> = Vec::new();
    for c in it: s.chars()
        invariant
            out@ == it.seq().subrange(0, it.index() as int),
            it.seq() == s@,
    {
        out.push(c);
    }
    out
}

/// Append `part` to `out`.
pub fn push_chars(out: &mut String, part: &[char])
    ensures
        final(out)@ == old(out)@ + part@,
{
    let mut i: usize = 0;
    while i < part.len()
        invariant
            i <= part@.len(),
            out@ == old(out)@ + part@.subrange(0, i as int),
        decreases part@.len() - i,
    {
        out.push(part[i]);
        i += 1;
        assert(part@.subrange(0, i as int) =~= part@.subrange(0, i - 1).push(part@[i - 1]));
    }
    assert(part@.subrange(0, i as int) =~= part@);
}

/// The string made of `part`.
pub fn string_of(part: &[char]) -> (out: String)
    ensures
        out@ == part@,
{
    let mut out = String::new();
    push_chars(&mut out, part);
    assert(Seq::<char>::empty() + part@ =~= part@);
    out
}

/// The part of `s` from `i` up to `j`.
pub fn slice(s: &[char], i: usize, j: usize) -> (out: &[char])
    requires
        i <= j <= s@.len(),
    ensures
        out@ == s@.subrange(i as int, j as int),
{
    slice_subrange(s, i, j)
}

/// Whether two strings hold the same characters.
pub fn same_text(a: &str, b: &str) -> (r: bool)
    ensures
        r == (a@ == b@),
{
    let x = chars_of(a);
    let y = chars_of(b);
    same_chars(x.as_slice(), y.as_slice())
}

/// Whether two slices hold the same characters.
pub fn same_chars(x: &[char], y: &[char]) -> (r: bool)
    ensures
        r == (x@ == y@),
{
    if x.len() != y.len() {
        return false;
    }
    let mut i: usize = 0;
    while i < x.len()
        invariant
            i <= x@.len(),
            x@.len() == y@.len(),
            forall|k: int| 0 <= k < i ==> x@[k] == y@[k],
        decreases x@.len() - i,
    {
        if x[i] != y[i] {
            return false;
        }
        i += 1;
    }
    assert(x@ =~= y@);
    true
}

// ---------- Searching ----------

/// `p` stands in `s` at position `i`.
pub open spec fn match_at(s: Seq<char>, i: int, p: Seq<char>) -> bool {
    &&& 0 <= i
    &&& i + p.len() <= s.len()
    &&& s.subrange(i, i + p.len()) == p
}

/// The first position at or after `i` where `p` stands in `s`.
pub open spec fn find(s: Seq<char>, p: Seq<char>, i: int) -> Option<int>
    decreases s.len() + 1 - i,
{
    if i < 0 || i + p.len() > s.len() {
        None
    } else if match_at(s, i, p) {
        Some(i)
    } else {
        find(s, p, i + 1)
    }
}

/// `find` gives a match, and there is none before it.
pub proof fn lemma_find(s: Seq<char>, p: Seq<char>, i: int)
    requires
        0 <= i,
    ensures
        match find(s, p, i) {
            Some(k) => i <= k && match_at(s, k, p) && forall|j: int|
                i <= j < k ==> !match_at(s, j, p),
            None => forall|j: int| i <= j ==> !match_at(s, j, p),
        },
    decreases s.len() + 1 - i,
{
    if i + p.len() > s.len() {
    } else if match_at(s, i, p) {
    } else {
        lemma_find(s, p, i + 1);
        match find(s, p, i + 1) {
            Some(k) => {
                assert forall|j: int| i <= j < k implies !match_at(s, j, p) by {
                    if j > i {
                        assert(i + 1 <= j < k);
                    }
                }
            },
            None => {
                assert forall|j: int| i <= j implies !match_at(s, j, p) by {
                    if j > i {
                        assert(i + 1 <= j);
                    }
                }
            },
        }
    }
}

/// Whether `p` stands in `s` at position `i`.
pub fn matches_at(s: &[char], i: usize, p: &[char]) -> (r: bool)
    ensures
        r == match_at(s@, i as int, p@),
{
    if p.len() > s.len() || i > s.len() - p.len() {
        return false;
    }
    let mut k: usize = 0;
    while k < p.len()
        invariant
            k <= p@.len(),
            i + p@.len() <= s@.len() <= usize::MAX,
            forall|j: int| 0 <= j < k ==> s@[i + j] == p@[j],
        decreases p@.len() - k,
    {
        if s[i + k] != p[k] {
            assert(s@.subrange(i as int, i + p@.len())[k as int] == s@[i + k]);
            return false;
        }
        k += 1;
    }
    assert(s@.subrange(i as int, i + p@.len()) =~= p@);
    true
}

/// The first position at or after `from` where `p` stands in `s`.
pub fn find_chars(s: &[char], p: &[char], from: usize) -> (r: Option<usize>)
    ensures
        match r {
            Some(k) => find(s@, p@, from as int) == Some(k as int) && from <= k && match_at(
                s@,
                k as int,
                p@,
            ),
            None => find(s@, p@, from as int) is None,
        },
{
    if p.len() > s.len() {
        return None;
    }
    let last: usize = s.len() - p.len();
    let mut i: usize = from;
    while i <= last
        invariant
            last == s@.len() - p@.len(),
            from <= i,
            i <= last || i == from || i == last + 1,
            find(s@, p@, from as int) == find(s@, p@, i as int),
        decreases last + 1 - i,
    {
        if matches_at(s, i, p) {
            return Some(i);
        }
        if i == last {
            assert(find(s@, p@, i as int + 1) is None);
            return None;
        }
        i += 1;
    }
    None
}

/// As `find_chars`, with the pattern as a string.
pub fn find_str(s: &[char], p: &str, from: usize) -> (r: Option<usize>)
    ensures
        match r {
            Some(k) => find(s@, p@, from as int) == Some(k as int) && from <= k && match_at(
                s@,
                k as int,
                p@,
            ),
            None => find(s@, p@, from as int) is None,
        },
{
    let pat = chars_of(p);
    find_chars(s, pat.as_slice(), from)
}

/// `p` stands somewhere in `s`.
pub open spec fn contains(s: Seq<char>, p: Seq<char>) -> bool {
    find(s, p, 0) is Some
}

/// Whether `p` stands somewhere in `s`.
pub fn contains_str(s: &[char], p: &str) -> (r: bool)
    ensures
        r == contains(s@, p@),
{
    find_str(s, p, 0).is_some()
}

/// The first position at or after `i` that holds `c`.
pub open spec fn find_char(s: Seq<char>, c: char, i: int) -> Option<int>
    decreases s.len() - i,
{
    if i < 0 || i >= s.len() {
        None
    } else if s[i] == c {
        Some(i)
    } else {
        find_char(s, c, i + 1)
    }
}

/// The first position at or after `from` that holds `c`.
pub fn find_c(s: &[char], c: char, from: usize) -> (r: Option<usize>)
    ensures
        match r {
            Some(k) => find_char(s@, c, from as int) == Some(k as int) && from <= k < s@.len()
                && s@[k as int] == c,
            None => find_char(s@, c, from as int) is None,
        },
{
    let mut i: usize = from;
    while i < s.len()
        invariant
            from <= i,
            i <= s@.len() || i == from,
            find_char(s@, c, from as int) == find_char(s@, c, i as int),
        decreases s@.len() - i,
    {
        if s[i] == c {
            return Some(i);
        }
        i += 1;
    }
    None
}

/// The first text between two quotes at or after `i`: where it begins and ends.
pub open spec fn quoted(s: Seq<char>, i: int) -> Option<(int, int)> {
    match find_char(s, '"', i) {
        Some(q1) => match find_char(s, '"', q1 + 1) {
            Some(q2) => Some((q1 + 1, q2)),
            None => None,
        },
        None => None,
    }
}

/// The first text between two quotes at or after `from`: where it begins and ends.
pub fn find_quoted(s: &[char], from: usize) -> (r: Option<(usize, usize)>)
    requires
        from <= s@.len(),
    ensures
        match r {
            Some((a, b)) => quoted(s@, from as int) == Some((a as int, b as int)) && from < a <= b
                < s@.len(),
            None => quoted(s@, from as int) is None,
        },
{
    let n: usize = s.len();
    match find_c(s, '"', from) {
        Some(q1) => match find_c(s, '"', q1 + 1) {
            Some(q2) => Some((q1 + 1, q2)),
            None => None,
        },
        None => None,
    }
}

/// `s` begins with `p`.
pub open spec fn starts_with(s: Seq<char>, p: Seq<char>) -> bool {
    match_at(s, 0, p)
}

/// Whether `s` begins with `p`.
pub fn starts_with_str(s: &[char], p: &str) -> (r: bool)
    ensures
        r == starts_with(s@, p@),
{
    let pat = chars_of(p);
    matches_at(s, 0, pat.as_slice())
}

/// `s` ends with `p`.
pub open spec fn ends_with(s: Seq<char>, p: Seq<char>) -> bool {
    match_at(s, s.len() - p.len(), p)
}

/// Whether `s` ends with `p`.
pub fn ends_with_str(s: &[char], p: &str) -> (r: bool)
    ensures
        r == ends_with(s@, p@),
{
    let pat = chars_of(p);
    if pat.len() > s.len() {
        return false;
    }
    matches_at(s, s.len() - pat.len(), pat.as_slice())
}

// ---------- Character classes ----------

/// The characters with the Unicode property `White_Space`.
pub open spec fn is_space(c: char) -> bool {
    let u = c as u32;
    ||| 0x09 <= u <= 0x0d
    ||| u == 0x20
    ||| u == 0x85
    ||| u == 0xa0
    ||| u == 0x1680
    ||| 0x2000 <= u <= 0x200a
    ||| u == 0x2028
    ||| u == 0x2029
    ||| u == 0x202f
    ||| u == 0x205f
    ||| u == 0x3000
}

/// Whether `c` is white space.
pub fn space(c: char) -> (r: bool)
    ensures
        r == is_space(c),
{
    let u: u32 = c as u32;
    (0x09 <= u && u <= 0x0d) || u == 0x20 || u == 0x85 || u == 0xa0 || u == 0x1680 || (0x2000 <= u
        && u <= 0x200a) || u == 0x2028 || u == 0x2029 || u == 0x202f || u == 0x205f || u == 0x3000
}

/// White space among the characters of ASCII.
pub open spec fn is_ascii_space(c: char) -> bool {
    0x09 <= c as u32 <= 0x0d || c as u32 == 0x20
}

/// Whether `c` is white space of ASCII.
pub fn ascii_space(c: char) -> (r: bool)
    ensures
        r == is_ascii_space(c),
{
    let u: u32 = c as u32;
    (0x09 <= u && u <= 0x0d) || u == 0x20
}

/// A letter or digit of ASCII, or an underscore.
pub open spec fn is_ident_char(c: char) -> bool {
    ||| 0x30 <= c as u32 <= 0x39
    ||| 0x41 <= c as u32 <= 0x5a
    ||| 0x61 <= c as u32 <= 0x7a
    ||| c == '_'
}

/// Whether `c` may stand in an identifier.
pub fn ident_char(c: char) -> (r: bool)
    ensures
        r == is_ident_char(c),
{
    let u: u32 = c as u32;
    (0x30 <= u && u <= 0x39) || (0x41 <= u && u <= 0x5a) || (0x61 <= u && u <= 0x7a) || c == '_'
}

/// The end of the run of identifier characters that begins at `i`.
pub open spec fn ident_end(s: Seq<char>, i: int) -> int
    decreases s.len() - i,
{
    if 0 <= i < s.len() && is_ident_char(s[i]) {
        ident_end(s, i + 1)
    } else {
        i
    }
}

/// The end of the run of identifier characters that begins at `from`.
pub fn ident_run(s: &[char], from: usize) -> (r: usize)
    requires
        from <= s@.len(),
    ensures
        r == ident_end(s@, from as int),
        from <= r <= s@.len(),
        forall|k: int| from <= k < r ==> is_ident_char(s@[k]),
{
    let mut i: usize = from;
    while i < s.len() && ident_char(s[i])
        invariant
            from <= i <= s@.len(),
            ident_end(s@, from as int) == ident_end(s@, i as int),
            forall|k: int| from <= k < i ==> is_ident_char(s@[k]),
        decreases s@.len() - i,
    {
        i += 1;
    }
    i
}

// ---------- Trimming ----------

/// The first position at or after `i` that holds no white space.
pub open spec fn skip_space(s: Seq<char>, i: int) -> int
    decreases s.len() - i,
{
    if 0 <= i < s.len() && is_space(s[i]) {
        skip_space(s, i + 1)
    } else {
        i
    }
}

/// The end of `s` up to `n` once white space at the end is left out.
pub open spec fn back_space(s: Seq<char>, n: int) -> int
    decreases n,
{
    if 0 < n <= s.len() && is_space(s[n - 1]) {
        back_space(s, n - 1)
    } else {
        n
    }
}

/// `s` without the white space at its start.
pub open spec fn trim_start(s: Seq<char>) -> Seq<char> {
    s.subrange(skip_space(s, 0), s.len() as int)
}

/// `s` without the white space at its end.
pub open spec fn trim_end(s: Seq<char>) -> Seq<char> {
    s.subrange(0, back_space(s, s.len() as int))
}

/// `s` without the white space at its start and at its end.
pub open spec fn trim(s: Seq<char>) -> Seq<char> {
    trim_end(trim_start(s))
}

/// The first position at or after `from` that holds no white space.
pub fn space_end(s: &[char], from: usize) -> (r: usize)
    requires
        from <= s@.len(),
    ensures
        r == skip_space(s@, from as int),
        from <= r <= s@.len(),
        forall|k: int| from <= k < r ==> is_space(s@[k]),
{
    let mut i: usize = from;
    while i < s.len() && space(s[i])
        invariant
            from <= i <= s@.len(),
            skip_space(s@, from as int) == skip_space(s@, i as int),
            forall|k: int| from <= k < i ==> is_space(s@[k]),
        decreases s@.len() - i,
    {
        i += 1;
    }
    i
}

/// `s` without the white space at its start.
pub fn trim_start_of(s: &[char]) -> (r: &[char])
    ensures
        r@ == trim_start(s@),
        r@.len() <= s@.len(),
{
    let i = space_end(s, 0);
    slice(s, i, s.len())
}

/// `s` without the white space at its end.
pub fn trim_end_of(s: &[char]) -> (r: &[char])
    ensures
        r@ == trim_end(s@),
        r@.len() <= s@.len(),
{
    let mut n: usize = s.len();
    while n > 0 && space(s[n - 1])
        invariant
            n <= s@.len(),
            back_space(s@, s@.len() as int) == back_space(s@, n as int),
        decreases n,
    {
        n -= 1;
    }
    slice(s, 0, n)
}

/// `s` without the white space at its start and at its end.
pub fn trim_of(s: &[char]) -> (r: &[char])
    ensures
        r@ == trim(s@),
        r@.len() <= s@.len(),
{
    trim_end_of(trim_start_of(s))
}

// ---------- Lines ----------

/// The position of the first line feed at or after `i`, or the end.
pub open spec fn line_end(s: Seq<char>, i: int) -> int
    decreases s.len() - i,
{
    if 0 <= i < s.len() && s[i] != '\n' {
        line_end(s, i + 1)
    } else {
        i
    }
}

/// Where the line that holds position `i` begins.
pub open spec fn line_start(s: Seq<char>, i: int) -> int
    decreases i,
{
    if 0 < i <= s.len() && s[i - 1] != '\n' {
        line_start(s, i - 1)
    } else {
        i
    }
}

/// Where the line after the one that begins at `i` begins.
pub open spec fn next_line(s: Seq<char>, i: int) -> int {
    let e = line_end(s, i);
    if e < s.len() {
        e + 1
    } else {
        e
    }
}

/// The line that begins at `i`, without its line feed or `\r\n`.
pub open spec fn line_text(s: Seq<char>, i: int) -> Seq<char> {
    let e = line_end(s, i);
    if e < s.len() && i < e && s[e - 1] == '\r' {
        s.subrange(i, e - 1)
    } else {
        s.subrange(i, e)
    }
}

pub proof fn lemma_line_end(s: Seq<char>, i: int)
    requires
        0 <= i <= s.len(),
    ensures
        i <= line_end(s, i) <= s.len(),
        line_end(s, i) < s.len() ==> s[line_end(s, i)] == '\n',
        forall|k: int| i <= k < line_end(s, i) ==> s[k] != '\n',
    decreases s.len() - i,
{
    if i < s.len() && s[i] != '\n' {
        lemma_line_end(s, i + 1);
    }
}

pub proof fn lemma_line_start(s: Seq<char>, i: int)
    requires
        0 <= i <= s.len(),
    ensures
        0 <= line_start(s, i) <= i,
        line_start(s, i) > 0 ==> s[line_start(s, i) - 1] == '\n',
        forall|k: int| line_start(s, i) <= k < i ==> s[k] != '\n',
    decreases i,
{
    if 0 < i && s[i - 1] != '\n' {
        lemma_line_start(s, i - 1);
    }
}

/// The position of the first line feed at or after `from`, or the end.
pub fn end_of_line(s: &[char], from: usize) -> (r: usize)
    requires
        from <= s@.len(),
    ensures
        r == line_end(s@, from as int),
        from <= r <= s@.len(),
        r < s@.len() ==> s@[r as int] == '\n',
{
    let mut i: usize = from;
    while i < s.len() && s[i] != '\n'
        invariant
            from <= i <= s@.len(),
            line_end(s@, from as int) == line_end(s@, i as int),
        decreases s@.len() - i,
    {
        i += 1;
    }
    i
}

/// Where the line that holds position `at` begins.
pub fn start_of_line(s: &[char], at: usize) -> (r: usize)
    requires
        at <= s@.len(),
    ensures
        r == line_start(s@, at as int),
        r <= at,
        r > 0 ==> s@[r - 1] == '\n',
{
    let mut i: usize = at;
    while i > 0 && s[i - 1] != '\n'
        invariant
            i <= at <= s@.len(),
            line_start(s@, at as int) == line_start(s@, i as int),
        decreases i,
    {
        i -= 1;
    }
    i
}

/// Where the line after the one that begins at `from` begins.
pub fn following_line(s: &[char], from: usize) -> (r: usize)
    requires
        from <= s@.len(),
    ensures
        r == next_line(s@, from as int),
        from <= r <= s@.len(),
        from < s@.len() ==> from < r,
{
    let e = end_of_line(s, from);
    if e < s.len() {
        e + 1
    } else {
        e
    }
}

/// The line that begins at `from`, without its line feed or `\r\n`.
pub fn line_at(s: &[char], from: usize) -> (r: &[char])
    requires
        from <= s@.len(),
    ensures
        r@ == line_text(s@, from as int),
{
    let e = end_of_line(s, from);
    if e < s.len() && from < e && s[e - 1] == '\r' {
        slice(s, from, e - 1)
    } else {
        slice(s, from, e)
    }
}

/// The line before the one that holds position `at`; empty for the first line.
pub open spec fn line_before(s: Seq<char>, at: int) -> Seq<char> {
    let start = line_start(s, at);
    let end = if start == 0 {
        0
    } else {
        start - 1
    };
    s.subrange(line_start(s, end), end)
}

/// The line before the one that holds position `at`; empty for the first line.
pub fn previous_line(s: &[char], at: usize) -> (r: &[char])
    requires
        at <= s@.len(),
    ensures
        r@ == line_before(s@, at as int),
{
    let start = start_of_line(s, at);
    let end: usize = if start == 0 {
        0
    } else {
        start - 1
    };
    slice(s, start_of_line(s, end), end)
}

/// The lines of `s` from `i` on, without their line feeds or `\r\n`.
pub open spec fn lines_from(s: Seq<char>, i: int) -> Seq<Seq<char>>
    decreases s.len() - i,
{
    if i < 0 || i >= s.len() {
        Seq::empty()
    } else {
        proof {
            lemma_line_end(s, i);
        }
        seq![line_text(s, i)] + lines_from(s, next_line(s, i))
    }
}

/// The lines of `s`, without their line feeds or `\r\n`.
pub open spec fn lines_of(s: Seq<char>) -> Seq<Seq<char>> {
    lines_from(s, 0)
}

/// The lines of `s`, without their line feeds or `\r\n`.
pub fn split_lines(s: &[char]) -> (out: Vec<String>)
    ensures
        texts(out@) == lines_of(s@),
{
    let mut out: Vec<String> = Vec::new();
    let mut i: usize = 0;
    assert(texts(out@) + lines_from(s@, 0) =~= lines_of(s@));
    while i < s.len()
        invariant
            i <= s@.len(),
            texts(out@) + lines_from(s@, i as int) == lines_of(s@),
        decreases s@.len() - i,
    {
        let ghost before = texts(out@);
        let ghost line = line_text(s@, i as int);
        let ghost rest = lines_from(s@, next_line(s@, i as int));
        out.push(string_of(line_at(s, i)));
        assert(texts(out@) =~= before + seq![line]);
        assert(before + (seq![line] + rest) =~= texts(out@) + rest);
        i = following_line(s, i);
    }
    assert(texts(out@) + Seq::<Seq<char>>::empty() =~= texts(out@));
    out
}

/// The number of line feeds in `s`.
pub open spec fn count_lines(s: Seq<char>) -> nat
    decreases s.len(),
{
    if s.len() == 0 {
        0
    } else {
        count_lines(s.drop_last()) + if s.last() == '\n' {
            1nat
        } else {
            0nat
        }
    }
}

/// A principal's text up to its first hyphen.
pub open spec fn short_name(s: Seq<char>) -> Seq<char> {
    match find_char(s, '-', 0) {
        Some(i) => s.subrange(0, i),
        None => s,
    }
}

/// A principal's text up to its first hyphen.
pub fn short_principal(s: &str) -> (r: String)
    ensures
        r@ == short_name(s@),
{
    let chars = chars_of(s);
    match find_c(chars.as_slice(), '-', 0) {
        Some(i) => string_of(slice(chars.as_slice(), 0, i)),
        None => String::from_str(s),
    }
}

// ---------- Replacing and joining ----------

/// `s` from `i` on, with every `p` replaced by `t`, from the left, where `p` is not empty.
pub open spec fn replace_from(s: Seq<char>, p: Seq<char>, t: Seq<char>, i: int) -> Seq<char>
    decreases s.len() - i,
{
    if i < 0 || i >= s.len() {
        Seq::empty()
    } else if p.len() > 0 && match_at(s, i, p) {
        t + replace_from(s, p, t, i + p.len())
    } else {
        seq![s[i]] + replace_from(s, p, t, i + 1)
    }
}

/// `s` with every `p` replaced by `t`, where `p` is not empty.
pub open spec fn replaced(s: Seq<char>, p: Seq<char>, t: Seq<char>) -> Seq<char> {
    replace_from(s, p, t, 0)
}

/// `s` with every `p` replaced by `t`.
pub fn replace_str(s: &str, p: &str, t: &str) -> (out: String)
    requires
        p@.len() > 0,
    ensures
        out@ == replaced(s@, p@, t@),
{
    let text = chars_of(s);
    let pat = chars_of(p);
    let mut out = String::new();
    let mut i: usize = 0;
    while i < text.len()
        invariant
            text@ == s@,
            pat@ == p@,
            p@.len() > 0,
            i <= text@.len(),
            out@ + replace_from(s@, p@, t@, i as int) == replaced(s@, p@, t@),
        decreases text@.len() - i,
    {
        let ghost before = out@;
        if matches_at(text.as_slice(), i, pat.as_slice()) {
            out.append(t);
            assert(before + (t@ + replace_from(s@, p@, t@, i + p@.len())) =~= out@ + replace_from(
                s@,
                p@,
                t@,
                i + p@.len(),
            ));
            i += pat.len();
        } else {
            out.push(text[i]);
            assert(before + (seq![s@[i as int]] + replace_from(s@, p@, t@, i + 1)) =~= out@
                + replace_from(s@, p@, t@, i + 1));
            i += 1;
        }
    }
    assert(out@ + replace_from(s@, p@, t@, i as int) =~= out@);
    out
}

/// The views of a sequence of strings.
pub open spec fn texts(v: Seq<String>) -> Seq<Seq<char>> {
    Seq::new(v.len(), |i: int| v[i]@)
}

/// The first `n` of `parts`, with `sep` between each and the next.
pub open spec fn joined(parts: Seq<Seq<char>>, sep: Seq<char>, n: nat) -> Seq<char>
    decreases n,
{
    if n == 0 {
        Seq::empty()
    } else if n == 1 {
        parts[0]
    } else {
        joined(parts, sep, (n - 1) as nat) + sep + parts[n - 1]
    }
}

/// All of `parts`, with `sep` between each and the next.
pub fn join(parts: &Vec<String>, sep: &str) -> (out: String)
    ensures
        out@ == joined(texts(parts@), sep@, parts@.len()),
{
    let mut out = String::new();
    let mut i: usize = 0;
    while i < parts.len()
        invariant
            i <= parts@.len(),
            out@ == joined(texts(parts@), sep@, i as nat),
        decreases parts@.len() - i,
    {
        if i > 0 {
            out.append(sep);
        }
        out.append(parts[i].as_str());
        i += 1;
        assert(i == 1 ==> out@ =~= joined(texts(parts@), sep@, 1));
    }
    out
}

// ---------- Widths ----------

/// `n` spaces.
pub open spec fn spaces(n: nat) -> Seq<char> {
    Seq::new(n, |i: int| ' ')
}

/// `s` behind as many spaces as bring it to `width` characters.
pub open spec fn padded(s: Seq<char>, width: nat) -> Seq<char> {
    if s.len() < width {
        spaces((width - s.len()) as nat) + s
    } else {
        s
    }
}

/// `n` spaces.
pub fn blanks(n: usize) -> (r: String)
    ensures
        r@ == spaces(n as nat),
{
    let mut out = String::new();
    let mut i: usize = 0;
    assert(out@ =~= spaces(0));
    while i < n
        invariant
            i <= n,
            out@ == spaces(i as nat),
        decreases n - i,
    {
        out.push(' ');
        i += 1;
        assert(out@ =~= spaces(i as nat));
    }
    out
}

/// `s` behind as many spaces as bring it to `width` characters.
pub fn pad(s: &str, width: usize) -> (r: String)
    ensures
        r@ == padded(s@, width as nat),
{
    let len: usize = chars_of(s).len();
    if len < width {
        let mut out = blanks(width - len);
        out.append(s);
        out
    } else {
        String::from_str(s)
    }
}

// ---------- Numbers ----------

/// The decimal digit of `d`, where `d` is below ten.
pub open spec fn digit(d: nat) -> char {
    (48 + d) as char
}

/// `n` in decimal.
pub open spec fn dec(n: nat) -> Seq<char>
    decreases n,
{
    if n < 10 {
        seq![digit(n)]
    } else {
        dec(n / 10).push(digit(n % 10))
    }
}

/// `n` in decimal, with a minus sign where it is negative.
pub open spec fn dec_int(n: int) -> Seq<char> {
    if n < 0 {
        seq!['-'] + dec((-n) as nat)
    } else {
        dec(n as nat)
    }
}

fn digit_of(d: u8) -> (c: char)
    requires
        d < 10,
    ensures
        c == digit(d as nat),
{
    (48 + d) as char
}

fn push_decimal(out: &mut String, n: u128)
    ensures
        final(out)@ == old(out)@ + dec(n as nat),
    decreases n,
{
    if n < 10 {
        out.push(digit_of(n as u8));
        assert(out@ =~= old(out)@ + dec(n as nat));
    } else {
        push_decimal(out, n / 10);
        out.push(digit_of((n % 10) as u8));
        assert(out@ =~= old(out)@ + dec(n as nat));
    }
}

/// `n` in decimal.
pub fn decimal(n: u128) -> (out: String)
    ensures
        out@ == dec(n as nat),
{
    let mut out = String::new();
    push_decimal(&mut out, n);
    assert(Seq::<char>::empty() + dec(n as nat) =~= dec(n as nat));
    out
}

/// `n` in decimal, with a minus sign where it is negative.
pub fn decimal_int(n: i128) -> (out: String)
    ensures
        out@ == dec_int(n as int),
{
    if n < 0 {
        let mut out = String::new();
        out.push('-');
        let m: u128 = (-(n + 1)) as u128 + 1;
        push_decimal(&mut out, m);
        assert(out@ =~= dec_int(n as int));
        out
    } else {
        decimal(n as u128)
    }
}

/// The value of `s` as a decimal number: an optional plus sign, then one digit or more.
pub open spec fn parsed_nat(s: Seq<char>) -> Option<nat> {
    let body = unsigned(s);
    if body.len() > 0 && forall|i: int| 0 <= i < body.len() ==> is_digit(#[trigger] body[i]) {
        Some(digits_value(body))
    } else {
        None
    }
}

/// `s` without a plus sign at its start.
pub open spec fn unsigned(s: Seq<char>) -> Seq<char> {
    if s.len() > 0 && s[0] == '+' {
        s.subrange(1, s.len() as int)
    } else {
        s
    }
}

/// A decimal digit of ASCII.
pub open spec fn is_digit(c: char) -> bool {
    48 <= c as u32 <= 57
}

/// The value of a run of decimal digits.
pub open spec fn digits_value(s: Seq<char>) -> nat
    decreases s.len(),
{
    if s.len() == 0 {
        0
    } else {
        10 * digits_value(s.drop_last()) + (s.last() as u32 - 48) as nat
    }
}

proof fn lemma_dec(n: nat)
    ensures
        dec(n).len() > 0,
        forall|i: int| 0 <= i < dec(n).len() ==> is_digit(#[trigger] dec(n)[i]),
        digits_value(dec(n)) == n,
    decreases n,
{
    if n < 10 {
        assert(dec(n).drop_last() =~= Seq::<char>::empty());
        assert(digits_value(dec(n).drop_last()) == 0);
    } else {
        lemma_dec(n / 10);
        assert(dec(n).drop_last() =~= dec(n / 10));
        assert(10 * (n / 10) + n % 10 == n);
    }
}

/// A number that was written in decimal is read back as it was.
pub proof fn law_decimal_reads_back(n: nat)
    ensures
        parsed_nat(dec(n)) == Some(n),
{
    lemma_dec(n);
    assert(is_digit(dec(n)[0]));
}

/// The decimal number that `text` holds, where it holds one that fits.
pub fn parse_u128(text: &str) -> (r: Option<u128>)
    ensures
        match r {
            Some(n) => parsed_nat(text@) == Some(n as nat),
            None => parsed_nat(text@) is None || parsed_nat(text@)->0 > u128::MAX,
        },
{
    let all = chars_of(text);
    let body = if all.len() > 0 && all[0] == '+' {
        slice(all.as_slice(), 1, all.len())
    } else {
        all.as_slice()
    };
    if body.len() == 0 {
        return None;
    }
    let mut n: u128 = 0;
    let mut fits = true;
    let mut i: usize = 0;
    while i < body.len()
        invariant
            body@ == unsigned(text@),
            i <= body@.len(),
            forall|k: int| 0 <= k < i ==> is_digit(#[trigger] body@[k]),
            fits ==> n == digits_value(body@.subrange(0, i as int)),
            !fits ==> digits_value(body@.subrange(0, i as int)) > u128::MAX,
        decreases body@.len() - i,
    {
        let c: u32 = body[i] as u32;
        if c < 48 || c > 57 {
            assert(!is_digit(body@[i as int]));
            return None;
        }
        let ghost before = body@.subrange(0, i as int);
        proof {
            let after = body@.subrange(0, i + 1);
            assert(after.drop_last() =~= before);
            assert(after.last() == body@[i as int]);
        }
        let d: u128 = (c - 48) as u128;
        if fits {
            if n > (u128::MAX - d) / 10 {
                fits = false;
                assert(10 * n + d > u128::MAX) by (nonlinear_arith)
                    requires
                        n > (u128::MAX - d) / 10,
                        d <= 9,
                ;
            } else {
                assert(10 * n + d <= u128::MAX) by (nonlinear_arith)
                    requires
                        n <= (u128::MAX - d) / 10,
                        d <= 9,
                ;
                n = 10 * n + d;
            }
        }
        i += 1;
    }
    assert(body@.subrange(0, i as int) =~= body@);
    if fits {
        Some(n)
    } else {
        None
    }
}

/// The hexadecimal digit of `d`, where `d` is below sixteen.
pub open spec fn hex_digit(d: int) -> char {
    if d < 10 {
        (48 + d) as char
    } else {
        (87 + d) as char
    }
}

/// `b` as two hexadecimal digits.
pub open spec fn hex2(b: u8) -> Seq<char> {
    seq![hex_digit(b as int / 16), hex_digit(b as int % 16)]
}

/// The first `n` of `bytes`, two hexadecimal digits each.
pub open spec fn hex(bytes: Seq<u8>, n: nat) -> Seq<char>
    decreases n,
{
    if n == 0 || n > bytes.len() {
        Seq::empty()
    } else {
        hex(bytes, (n - 1) as nat) + hex2(bytes[n - 1])
    }
}

fn hex_digit_of(d: u8) -> (c: char)
    requires
        d < 16,
    ensures
        c == hex_digit(d as int),
{
    if d < 10 {
        (48 + d) as char
    } else {
        (87 + d) as char
    }
}

/// Append the first `n` of `bytes` to `out`, two hexadecimal digits each.
pub fn push_hex(out: &mut String, bytes: &[u8], n: usize)
    requires
        n <= bytes@.len(),
    ensures
        final(out)@ == old(out)@ + hex(bytes@, n as nat),
{
    let mut i: usize = 0;
    assert(out@ =~= old(out)@ + hex(bytes@, 0));
    while i < n
        invariant
            i <= n <= bytes@.len(),
            out@ == old(out)@ + hex(bytes@, i as nat),
        decreases n - i,
    {
        let b: u8 = bytes[i];
        out.push(hex_digit_of(b / 16));
        out.push(hex_digit_of(b % 16));
        i += 1;
        assert(out@ =~= old(out)@ + hex(bytes@, i as nat));
    }
}

/// The first `cap` of `bytes` in hexadecimal, and an ellipsis where there are more.
pub open spec fn hex_head(bytes: Seq<u8>, cap: nat) -> Seq<char> {
    if bytes.len() > cap {
        hex(bytes, cap).push('…')
    } else {
        hex(bytes, bytes.len())
    }
}

/// The first `cap` of `bytes` in hexadecimal, and an ellipsis where there are more.
pub fn hex_prefix(bytes: &[u8], cap: usize) -> (out: String)
    ensures
        out@ == hex_head(bytes@, cap as nat),
{
    let n: usize = if bytes.len() > cap {
        cap
    } else {
        bytes.len()
    };
    let mut out = String::new();
    push_hex(&mut out, bytes, n);
    assert(out@ =~= hex(bytes@, n as nat));
    if bytes.len() > n {
        out.push('…');
    }
    out
}

// ---------- Order ----------

/// How one text stands to another in dictionary order.
#[derive(Clone, Copy, PartialEq, Eq, Structural, Debug)]
pub enum Rank {
    Before,
    Same,
    After,
}

/// The dictionary order of `a` and `b` from position `i` on, by code point.
pub open spec fn rank_from(a: Seq<char>, b: Seq<char>, i: int) -> Rank
    decreases a.len() - i,
{
    if i < 0 || i >= a.len() {
        if i >= b.len() {
            Rank::Same
        } else {
            Rank::Before
        }
    } else if i >= b.len() {
        Rank::After
    } else if (a[i] as u32) < (b[i] as u32) {
        Rank::Before
    } else if (a[i] as u32) > (b[i] as u32) {
        Rank::After
    } else {
        rank_from(a, b, i + 1)
    }
}

/// The dictionary order of `a` and `b`, by code point.
pub open spec fn rank(a: Seq<char>, b: Seq<char>) -> Rank {
    rank_from(a, b, 0)
}

/// The dictionary order of `a` and `b`, by code point.
pub fn rank_text(a: &str, b: &str) -> (r: Rank)
    ensures
        r == rank(a@, b@),
{
    let x = chars_of(a);
    let y = chars_of(b);
    let mut i: usize = 0;
    while i < x.len() && i < y.len()
        invariant
            x@ == a@,
            y@ == b@,
            i <= x@.len(),
            i <= y@.len(),
            rank(a@, b@) == rank_from(a@, b@, i as int),
        decreases x@.len() - i,
    {
        if (x[i] as u32) < (y[i] as u32) {
            return Rank::Before;
        }
        if (x[i] as u32) > (y[i] as u32) {
            return Rank::After;
        }
        i += 1;
    }
    if i < x.len() {
        Rank::After
    } else if i < y.len() {
        Rank::Before
    } else {
        Rank::Same
    }
}

proof fn lemma_rank_same_from(a: Seq<char>, b: Seq<char>, i: int)
    requires
        0 <= i <= a.len(),
        i <= b.len(),
        a.subrange(0, i) == b.subrange(0, i),
    ensures
        rank_from(a, b, i) == Rank::Same <==> a == b,
    decreases a.len() - i,
{
    assert forall|k: int| 0 <= k < i implies a[k] == b[k] by {
        assert(a[k] == a.subrange(0, i)[k]);
        assert(b[k] == b.subrange(0, i)[k]);
    }
    if i < a.len() && i < b.len() {
        if a[i] as u32 == b[i] as u32 {
            char_u32_cast(a[i], a[i] as u32);
            char_u32_cast(b[i], b[i] as u32);
            assert(a.subrange(0, i + 1) =~= b.subrange(0, i + 1));
            lemma_rank_same_from(a, b, i + 1);
        }
    } else if a.len() == b.len() {
        assert(a =~= b);
    }
}

/// Two texts rank the same exactly if they are the same.
pub proof fn lemma_rank_same(a: Seq<char>, b: Seq<char>)
    ensures
        rank(a, b) == Rank::Same <==> a == b,
{
    assert(a.subrange(0, 0) =~= b.subrange(0, 0));
    lemma_rank_same_from(a, b, 0);
}

proof fn lemma_rank_flip_from(a: Seq<char>, b: Seq<char>, i: int)
    requires
        0 <= i <= a.len(),
        i <= b.len(),
    ensures
        rank_from(a, b, i) == Rank::Before <==> rank_from(b, a, i) == Rank::After,
        rank_from(a, b, i) == Rank::After <==> rank_from(b, a, i) == Rank::Before,
    decreases a.len() - i,
{
    if i < a.len() && i < b.len() {
        lemma_rank_flip_from(a, b, i + 1);
    }
}

/// `a` comes before `b` exactly if `b` comes after `a`.
pub proof fn lemma_rank_flip(a: Seq<char>, b: Seq<char>)
    ensures
        rank(a, b) == Rank::Before <==> rank(b, a) == Rank::After,
        rank(a, b) == Rank::After <==> rank(b, a) == Rank::Before,
{
    lemma_rank_flip_from(a, b, 0);
}

proof fn lemma_rank_chain_from(a: Seq<char>, b: Seq<char>, c: Seq<char>, i: int)
    requires
        0 <= i <= a.len(),
        i <= b.len(),
        i <= c.len(),
        rank_from(a, b, i) == Rank::Before,
        rank_from(b, c, i) == Rank::Before,
    ensures
        rank_from(a, c, i) == Rank::Before,
    decreases a.len() - i,
{
    if i < a.len() && i < b.len() && i < c.len() {
        if a[i] as u32 == b[i] as u32 && b[i] as u32 == c[i] as u32 {
            lemma_rank_chain_from(a, b, c, i + 1);
        }
    }
}

/// Dictionary order is transitive.
pub proof fn lemma_rank_chain(a: Seq<char>, b: Seq<char>, c: Seq<char>)
    requires
        rank(a, b) == Rank::Before,
        rank(b, c) == Rank::Before,
    ensures
        rank(a, c) == Rank::Before,
{
    lemma_rank_chain_from(a, b, c, 0);
}

// ---------- Length in UTF-8 ----------

/// The number of bytes of `s` in UTF-8.
pub open spec fn blen(s: Seq<char>) -> nat {
    encode_utf8(s).len()
}

/// The byte at which the character `i` of `s` begins.
pub open spec fn byte_at(s: Seq<char>, i: int) -> nat {
    blen(s.subrange(0, i))
}

pub proof fn lemma_encode_add(a: Seq<char>, b: Seq<char>)
    ensures
        encode_utf8(a + b) == encode_utf8(a) + encode_utf8(b),
        blen(a + b) == blen(a) + blen(b),
    decreases a.len(),
{
    if a.len() == 0 {
        assert(a + b =~= b);
    } else {
        lemma_encode_add(a.drop_first(), b);
        assert((a + b).drop_first() =~= a.drop_first() + b);
        assert((a + b)[0] == a[0]);
        assert(encode_utf8(a + b) =~= encode_utf8(a) + encode_utf8(b));
    }
}

/// The bytes up to a position are no more than the bytes up to a later one.
pub proof fn lemma_byte_at(s: Seq<char>, i: int, j: int)
    requires
        0 <= i <= j <= s.len(),
    ensures
        byte_at(s, i) + blen(s.subrange(i, j)) == byte_at(s, j),
        byte_at(s, i) <= byte_at(s, j) <= blen(s),
        byte_at(s, 0) == 0,
        byte_at(s, s.len() as int) == blen(s),
        i < j ==> byte_at(s, i) < byte_at(s, j),
{
    lemma_encode_add(s.subrange(0, i), s.subrange(i, j));
    assert(s.subrange(0, i) + s.subrange(i, j) =~= s.subrange(0, j));
    lemma_encode_add(s.subrange(0, j), s.subrange(j, s.len() as int));
    assert(s.subrange(0, j) + s.subrange(j, s.len() as int) =~= s);
    assert(s.subrange(0, s.len() as int) =~= s);
    if i < j {
        let t = s.subrange(i, j);
        assert(encode_scalar(t[0] as u32).len() > 0);
    }
}

/// Every character of `s` begins at a boundary of its bytes, and `s` ends at one.
pub proof fn lemma_boundary(s: Seq<char>, i: int)
    requires
        0 <= i <= s.len(),
    ensures
        is_char_boundary(encode_utf8(s), byte_at(s, i) as int),
        byte_at(s, i) <= encode_utf8(s).len(),
    decreases i,
{
    encode_utf8_valid_utf8(s);
    lemma_byte_at(s, 0, i);
    if i == 0 {
        assert(s.subrange(0, 0) =~= Seq::<char>::empty());
    } else {
        let rest = s.drop_first();
        encode_utf8_first_scalar(s);
        encode_utf8_valid_utf8(rest);
        lemma_boundary(rest, i - 1);
        assert(s.subrange(0, i).drop_first() =~= rest.subrange(0, i - 1));
        assert(pop_first_scalar(encode_utf8(s)) =~= encode_utf8(rest));
        assert(byte_at(s, i) == encode_scalar(s[0] as u32).len() + byte_at(rest, i - 1));
    }
}

/// The number of bytes of `c` in UTF-8.
pub fn width(c: char) -> (r: usize)
    ensures
        r == encode_scalar(c as u32).len(),
        r == blen(seq![c]),
        1 <= r <= 4,
{
    let u: u32 = c as u32;
    proof {
        char_is_scalar(c);
        let one = seq![c];
        assert(one.drop_first() =~= Seq::<char>::empty());
        assert(encode_utf8(one.drop_first()).len() == 0);
    }
    if u <= 0x7f {
        1
    } else if u <= 0x7ff {
        2
    } else if u <= 0xffff {
        3
    } else {
        4
    }
}

/// The byte at which the character `at` of `s` begins.
pub fn byte_index(s: &[char], at: usize) -> (r: usize)
    requires
        at <= s@.len(),
        blen(s@) <= usize::MAX,
    ensures
        r == byte_at(s@, at as int),
        is_char_boundary(encode_utf8(s@), r as int),
        r <= encode_utf8(s@).len(),
{
    let mut i: usize = 0;
    let mut n: usize = 0;
    proof {
        lemma_byte_at(s@, 0, at as int);
        lemma_boundary(s@, at as int);
    }
    while i < at
        invariant
            i <= at <= s@.len(),
            blen(s@) <= usize::MAX,
            n == byte_at(s@, i as int),
        decreases at - i,
    {
        proof {
            lemma_byte_at(s@, i as int, i + 1);
            assert(s@.subrange(i as int, i + 1) =~= seq![s@[i as int]]);
        }
        n += width(s[i]);
        i += 1;
    }
    n
}

/// The length of a string in UTF-8 fits in a `usize`.
pub fn utf8_len(s: &str) -> (r: usize)
    ensures
        r == blen(s@),
        blen(s@) <= usize::MAX,
{
    let b = s.as_bytes();
    b.len()
}

proof fn lemma_space_front(s: Seq<char>, i: int, e: int)
    requires
        0 <= i <= e <= s.len(),
        forall|k: int| i <= k < e ==> is_space(#[trigger] s[k]),
        e < s.len() ==> !is_space(s[e]),
    ensures
        skip_space(s, i) == e,
    decreases e - i,
{
    if i < e {
        assert(is_space(s[i]));
        lemma_space_front(s, i + 1, e);
    }
}

proof fn lemma_space_back(s: Seq<char>, e: int, n: int)
    requires
        0 <= e <= n <= s.len(),
        forall|k: int| e <= k < n ==> is_space(#[trigger] s[k]),
        e > 0 ==> !is_space(s[e - 1]),
    ensures
        back_space(s, n) == e,
    decreases n - e,
{
    if e < n {
        assert(is_space(s[n - 1]));
        lemma_space_back(s, e, n - 1);
    }
}

/// Trimming leaves what stands between the first and the last character that is no white space.
pub proof fn law_trim(s: Seq<char>, a: int, b: int)
    requires
        0 <= a <= b <= s.len(),
        forall|k: int| 0 <= k < a ==> is_space(#[trigger] s[k]),
        forall|k: int| b <= k < s.len() ==> is_space(#[trigger] s[k]),
        a < b ==> !is_space(s[a]) && !is_space(s[b - 1]),
    ensures
        trim(s) == s.subrange(a, b),
{
    let n = s.len() as int;
    if a < b {
        lemma_space_front(s, 0, a);
        let t = s.subrange(a, n);
        assert(trim_start(s) == t);
        assert forall|k: int| b - a <= k < t.len() implies is_space(#[trigger] t[k]) by {
            assert(t[k] == s[k + a]);
        }
        assert(t[b - a - 1] == s[b - 1]);
        lemma_space_back(t, b - a, t.len() as int);
        assert(trim(s) =~= s.subrange(a, b));
    } else {
        assert forall|k: int| 0 <= k < n implies is_space(#[trigger] s[k]) by {
            if k >= a {
                assert(b <= k);
            }
        }
        lemma_space_front(s, 0, n);
        let t = s.subrange(n, n);
        assert(trim_start(s) =~= t);
        lemma_space_back(t, 0, 0);
        assert(trim(s) =~= s.subrange(a, b));
    }
}

proof fn lemma_rank_skip(a: Seq<char>, b: Seq<char>, i: int, k: int)
    requires
        0 <= i <= k <= a.len(),
        k <= b.len(),
        forall|j: int| i <= j < k ==> #[trigger] a[j] == b[j],
    ensures
        rank_from(a, b, i) == rank_from(a, b, k),
    decreases k - i,
{
    if i < k {
        assert(a[i] == b[i]);
        lemma_rank_skip(a, b, i + 1, k);
    }
}

/// Of two texts, the one whose character is smaller where they first differ comes before the other;
/// a text comes before a longer one that begins with it.
pub proof fn law_rank_by_first_difference(a: Seq<char>, b: Seq<char>, k: int)
    requires
        0 <= k <= a.len(),
        k < b.len(),
        forall|j: int| 0 <= j < k ==> #[trigger] a[j] == b[j],
        k < a.len() ==> (a[k] as u32) < (b[k] as u32),
    ensures
        rank(a, b) == Rank::Before,
        rank(b, a) == Rank::After,
{
    lemma_rank_skip(a, b, 0, k);
    lemma_rank_skip(b, a, 0, k);
}

/// A number in decimal ends with the digit of its remainder by ten, behind its quotient by ten,
/// where that is not zero.
pub proof fn law_decimal_digits(n: nat)
    ensures
        n < 10 ==> dec(n) == seq!["0123456789"@[n as int]],
        n >= 10 ==> dec(n) == dec(n / 10).push("0123456789"@[(n % 10) as int]),
{
    reveal_strlit("0123456789");
    let d = n % 10;
    assert(digit(d) == "0123456789"@[d as int]);
}

/// Each byte gives two digits in hexadecimal, the one of its upper half first.
pub proof fn law_hex_digits(bytes: Seq<u8>, n: nat, i: int)
    requires
        0 <= i < n <= bytes.len(),
    ensures
        hex(bytes, n).len() == 2 * n,
        hex(bytes, n)[2 * i] == "0123456789abcdef"@[bytes[i] as int / 16],
        hex(bytes, n)[2 * i + 1] == "0123456789abcdef"@[bytes[i] as int % 16],
    decreases n,
{
    reveal_strlit("0123456789abcdef");
    let b = bytes[n - 1] as int;
    assert(hex_digit(b / 16) == "0123456789abcdef"@[b / 16]);
    assert(hex_digit(b % 16) == "0123456789abcdef"@[b % 16]);
    let before = hex(bytes, (n - 1) as nat);
    if n > 1 {
        law_hex_digits(
            bytes,
            (n - 1) as nat,
            if i < n - 1 {
                i
            } else {
                0
            },
        );
    }
    assert(before.len() == 2 * (n - 1));
    let h = hex2(bytes[n - 1]);
    assert(h.len() == 2);
    assert(h[0] == hex_digit(b / 16) && h[1] == hex_digit(b % 16));
}

/// Of more bytes than there is room for, the first ones are shown, and an ellipsis behind them.
pub proof fn law_hex_head(bytes: Seq<u8>, cap: nat)
    ensures
        bytes.len() > cap ==> hex_head(bytes, cap) == hex(bytes, cap) + seq!['…'],
        bytes.len() <= cap ==> hex_head(bytes, cap) == hex(bytes, bytes.len()),
{
    assert(hex(bytes, cap).push('…') =~= hex(bytes, cap) + seq!['…']);
}

proof fn lemma_find_char_at(s: Seq<char>, c: char, i: int, k: int)
    requires
        0 <= i <= k <= s.len(),
        forall|j: int| i <= j < k ==> #[trigger] s[j] != c,
        k < s.len() ==> s[k] == c,
    ensures
        k < s.len() ==> find_char(s, c, i) == Some(k),
        k == s.len() ==> find_char(s, c, i) is None,
    decreases k - i,
{
    if i < k {
        assert(s[i] != c);
        lemma_find_char_at(s, c, i + 1, k);
    }
}

/// A principal goes by what stands before its first hyphen, and by all of it where it has none.
pub proof fn law_short_name(s: Seq<char>, k: int)
    requires
        0 <= k <= s.len(),
        forall|j: int| 0 <= j < k ==> #[trigger] s[j] != '-',
        k < s.len() ==> s[k] == '-',
    ensures
        short_name(s) == s.subrange(0, k),
{
    lemma_find_char_at(s, '-', 0, k);
    assert(s.subrange(0, s.len() as int) =~= s);
}

/// What is padded stands behind spaces alone, and is as wide as is asked for, or wider.
pub proof fn law_padded(s: Seq<char>, width: nat, i: int)
    ensures
        padded(s, width).len() == if s.len() < width {
            width
        } else {
            s.len()
        },
        padded(s, width).subrange(padded(s, width).len() - s.len(), padded(s, width).len() as int)
            == s,
        0 <= i < padded(s, width).len() - s.len() ==> padded(s, width)[i] == ' ',
{
    let t = padded(s, width);
    assert(t.subrange(t.len() - s.len(), t.len() as int) =~= s);
}

pub proof fn lemma_skip_space(s: Seq<char>, i: int)
    requires
        0 <= i <= s.len(),
    ensures
        i <= skip_space(s, i) <= s.len(),
    decreases s.len() - i,
{
    if i < s.len() && is_space(s[i]) {
        lemma_skip_space(s, i + 1);
    }
}

pub proof fn lemma_back_space(s: Seq<char>, n: int)
    requires
        0 <= n <= s.len(),
    ensures
        0 <= back_space(s, n) <= n,
    decreases n,
{
    if 0 < n && is_space(s[n - 1]) {
        lemma_back_space(s, n - 1);
    }
}

} // verus!
