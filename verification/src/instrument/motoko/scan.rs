//! Reading Motoko text without a grammar: which characters are code, and where
//! brackets, words and statements begin and end.

use vstd::prelude::*;

use crate::text::{
    ascii_space, chars_of, end_of_line, ident_char, is_ascii_space, is_ident_char, is_space,
    lemma_line_end, line_end, match_at, matches_at, space,
};

verus! {

// ---------- Code, comments and strings ----------

/// The end of a block comment from `i` on, at nesting `depth`.
pub open spec fn block_end(s: Seq<char>, i: int, depth: nat) -> int
    decreases s.len() - i,
{
    if i < 0 || i >= s.len() || depth == 0 {
        i
    } else if i + 1 < s.len() && s[i] == '/' && s[i + 1] == '*' {
        block_end(s, i + 2, depth + 1)
    } else if i + 1 < s.len() && s[i] == '*' && s[i + 1] == '/' {
        block_end(s, i + 2, (depth - 1) as nat)
    } else {
        block_end(s, i + 1, depth)
    }
}

/// The end of a string literal whose inside begins at `i`.
pub open spec fn string_end(s: Seq<char>, i: int) -> int
    decreases s.len() - i,
{
    if i < 0 || i >= s.len() {
        i
    } else if s[i] == '"' {
        i + 1
    } else if s[i] == '\\' && i + 1 < s.len() {
        string_end(s, i + 2)
    } else {
        string_end(s, i + 1)
    }
}

/// The end of the comment or string literal that begins at `i`, where one does.
pub open spec fn skip_end(s: Seq<char>, i: int) -> Option<int> {
    if i < 0 || i >= s.len() {
        None
    } else if i + 1 < s.len() && s[i] == '/' && s[i + 1] == '/' {
        Some(line_end(s, i))
    } else if i + 1 < s.len() && s[i] == '/' && s[i + 1] == '*' {
        Some(block_end(s, i + 2, 1))
    } else if s[i] == '"' {
        Some(string_end(s, i + 1))
    } else {
        None
    }
}

proof fn lemma_block_end(s: Seq<char>, i: int, depth: nat)
    requires
        0 <= i <= s.len(),
    ensures
        i <= block_end(s, i, depth) <= s.len(),
    decreases s.len() - i,
{
    if i >= s.len() || depth == 0 {
    } else if i + 1 < s.len() && s[i] == '/' && s[i + 1] == '*' {
        lemma_block_end(s, i + 2, depth + 1);
    } else if i + 1 < s.len() && s[i] == '*' && s[i + 1] == '/' {
        lemma_block_end(s, i + 2, (depth - 1) as nat);
    } else {
        lemma_block_end(s, i + 1, depth);
    }
}

proof fn lemma_string_end(s: Seq<char>, i: int)
    requires
        0 <= i <= s.len(),
    ensures
        i <= string_end(s, i) <= s.len(),
    decreases s.len() - i,
{
    if i >= s.len() {
    } else if s[i] == '"' {
    } else if s[i] == '\\' && i + 1 < s.len() {
        lemma_string_end(s, i + 2);
    } else {
        lemma_string_end(s, i + 1);
    }
}

/// A comment or string literal is not empty and ends within the text.
pub proof fn lemma_skip_end(s: Seq<char>, i: int)
    ensures
        skip_end(s, i) matches Some(e) ==> i < e <= s.len(),
{
    if 0 <= i < s.len() {
        if i + 1 < s.len() && s[i] == '/' && s[i + 1] == '/' {
            lemma_line_end(s, i + 1);
        } else if i + 1 < s.len() && s[i] == '/' && s[i + 1] == '*' {
            lemma_block_end(s, i + 2, 1);
        } else if s[i] == '"' {
            lemma_string_end(s, i + 1);
        }
    }
}

/// For each character from `i` on, whether it is code.
pub open spec fn mask_from(s: Seq<char>, i: int) -> Seq<bool>
    decreases s.len() - i,
{
    if i < 0 || i >= s.len() {
        Seq::empty()
    } else {
        match skip_end(s, i) {
            Some(e) => {
                proof {
                    lemma_skip_end(s, i);
                }
                Seq::new((e - i) as nat, |k: int| false) + mask_from(s, e)
            },
            None => seq![true] + mask_from(s, i + 1),
        }
    }
}

/// For each character, whether it is code: it stands in no comment and no string literal.
pub open spec fn mask(s: Seq<char>) -> Seq<bool> {
    mask_from(s, 0)
}

proof fn lemma_mask_from_len(s: Seq<char>, i: int)
    requires
        0 <= i <= s.len(),
    ensures
        mask_from(s, i).len() == s.len() - i,
    decreases s.len() - i,
{
    if i < s.len() {
        lemma_skip_end(s, i);
        match skip_end(s, i) {
            Some(e) => lemma_mask_from_len(s, e),
            None => lemma_mask_from_len(s, i + 1),
        }
    }
}

/// The mask says of every character whether it is code.
pub proof fn lemma_mask_len(s: Seq<char>)
    ensures
        mask(s).len() == s.len(),
{
    lemma_mask_from_len(s, 0);
}

fn find_block_end(s: &[char], from: usize) -> (r: usize)
    requires
        from <= s@.len(),
    ensures
        r == block_end(s@, from as int, 1),
        from <= r <= s@.len(),
{
    let n: usize = s.len();
    let mut i: usize = from;
    let mut depth: usize = 1;
    while i < n && depth > 0
        invariant
            n == s@.len(),
            from <= i <= n,
            depth <= i - from + 1,
            block_end(s@, from as int, 1) == block_end(s@, i as int, depth as nat),
        decreases s@.len() - i,
    {
        if n - i > 1 && s[i] == '/' && s[i + 1] == '*' {
            depth += 1;
            i += 2;
        } else if n - i > 1 && s[i] == '*' && s[i + 1] == '/' {
            depth -= 1;
            i += 2;
        } else {
            i += 1;
        }
    }
    i
}

fn find_string_end(s: &[char], from: usize) -> (r: usize)
    requires
        from <= s@.len(),
    ensures
        r == string_end(s@, from as int),
        from <= r <= s@.len(),
{
    let mut i: usize = from;
    while i < s.len() && s[i] != '"'
        invariant
            from <= i <= s@.len(),
            string_end(s@, from as int) == string_end(s@, i as int),
        decreases s@.len() - i,
    {
        if s[i] == '\\' && s.len() - i > 1 {
            i += 2;
        } else {
            i += 1;
        }
    }
    if i < s.len() {
        i + 1
    } else {
        i
    }
}

fn find_skip_end(s: &[char], at: usize) -> (r: Option<usize>)
    requires
        at < s@.len(),
    ensures
        match r {
            Some(e) => skip_end(s@, at as int) == Some(e as int),
            None => skip_end(s@, at as int) is None,
        },
{
    let more = s.len() - at > 1;
    if more && s[at] == '/' && s[at + 1] == '/' {
        Some(end_of_line(s, at))
    } else if more && s[at] == '/' && s[at + 1] == '*' {
        Some(find_block_end(s, at + 2))
    } else if s[at] == '"' {
        Some(find_string_end(s, at + 1))
    } else {
        None
    }
}

/// For each character of `s`, whether it is code.
pub fn code_mask(s: &[char]) -> (out: Vec<bool>)
    ensures
        out@ == mask(s@),
        out@.len() == s@.len(),
{
    let mut out: Vec<bool> = Vec::new();
    let mut i: usize = 0;
    while i < s.len()
        invariant
            i <= s@.len(),
            out@ + mask_from(s@, i as int) == mask(s@),
        decreases s@.len() - i,
    {
        let ghost before = out@;
        let ghost at = i;
        proof {
            lemma_skip_end(s@, i as int);
        }
        match find_skip_end(s, i) {
            Some(e) => {
                let ghost gap = Seq::new((e - at) as nat, |k: int| false);
                while i < e
                    invariant
                        at <= i <= e,
                        gap == Seq::new((e - at) as nat, |k: int| false),
                        out@ == before + gap.subrange(0, i - at),
                    decreases e - i,
                {
                    out.push(false);
                    i += 1;
                    assert(gap.subrange(0, i - at) =~= gap.subrange(0, i - 1 - at).push(false));
                }
                assert(gap.subrange(0, i - at) =~= gap);
                assert(before + (gap + mask_from(s@, e as int)) =~= out@ + mask_from(
                    s@,
                    e as int,
                ));
            },
            None => {
                out.push(true);
                assert(before + (seq![true] + mask_from(s@, i + 1)) =~= out@ + mask_from(
                    s@,
                    i + 1,
                ));
                i += 1;
            },
        }
    }
    assert(out@ + mask_from(s@, i as int) =~= out@);
    proof {
        lemma_mask_len(s@);
    }
    out
}

// ---------- Patterns in code ----------

/// `p` stands in `s` at `i`, and all of it is code.
pub open spec fn code_match(s: Seq<char>, m: Seq<bool>, i: int, p: Seq<char>) -> bool {
    match_at(s, i, p) && forall|k: int| i <= k < i + p.len() ==> #[trigger] m[k]
}

/// The first position at or after `i` where `p`, which is not empty, stands in code.
pub open spec fn find_code(s: Seq<char>, m: Seq<bool>, p: Seq<char>, i: int) -> Option<int>
    decreases s.len() - i,
{
    if i < 0 || p.len() == 0 || i + p.len() > s.len() {
        None
    } else if code_match(s, m, i, p) {
        Some(i)
    } else {
        find_code(s, m, p, i + 1)
    }
}

/// Where a pattern is found, it stands, and it is code.
pub proof fn lemma_find_code(s: Seq<char>, m: Seq<bool>, p: Seq<char>, i: int)
    ensures
        find_code(s, m, p, i) matches Some(k) ==> 0 <= i <= k && p.len() > 0 && code_match(
            s,
            m,
            k,
            p,
        ),
    decreases s.len() - i,
{
    if i < 0 || p.len() == 0 || i + p.len() > s.len() {
    } else if code_match(s, m, i, p) {
    } else {
        lemma_find_code(s, m, p, i + 1);
    }
}

/// Whether `p` stands in `s` at `at`, and all of it is code.
pub fn matches_code(s: &[char], m: &[bool], at: usize, p: &[char]) -> (r: bool)
    requires
        m@.len() == s@.len(),
    ensures
        r == code_match(s@, m@, at as int, p@),
{
    if !matches_at(s, at, p) {
        return false;
    }
    let n: usize = p.len();
    let total: usize = s.len();
    let mut k: usize = 0;
    while k < n
        invariant
            k <= n,
            n == p@.len(),
            m@.len() == s@.len(),
            total == s@.len(),
            match_at(s@, at as int, p@),
            forall|j: int| at <= j < at + k ==> #[trigger] m@[j],
        decreases n - k,
    {
        if !m[at + k] {
            return false;
        }
        k += 1;
    }
    true
}

/// The first position at or after `from` where `p` stands in code.
pub fn find_in_code(s: &[char], m: &[bool], p: &str, from: usize) -> (r: Option<usize>)
    requires
        m@.len() == s@.len(),
    ensures
        match r {
            Some(k) => find_code(s@, m@, p@, from as int) == Some(k as int) && from <= k && k
                + p@.len() <= s@.len() && p@.len() > 0 && code_match(s@, m@, k as int, p@),
            None => find_code(s@, m@, p@, from as int) is None,
        },
{
    let pat = chars_of(p);
    if pat.len() == 0 || pat.len() > s.len() {
        return None;
    }
    let n: usize = s.len();
    let last: usize = n - pat.len();
    let mut i: usize = from;
    while i <= last
        invariant
            pat@ == p@,
            p@.len() > 0,
            m@.len() == s@.len(),
            n == s@.len(),
            last == s@.len() - p@.len(),
            from <= i,
            find_code(s@, m@, p@, from as int) == find_code(s@, m@, p@, i as int),
        decreases last + 1 - i,
    {
        if matches_code(s, m, i, pat.as_slice()) {
            return Some(i);
        }
        i += 1;
    }
    None
}

/// `p`, which is not empty, stands in code at `i`, and the name that it begins with, where it
/// begins with one, begins there.
pub open spec fn name_match(s: Seq<char>, m: Seq<bool>, i: int, p: Seq<char>) -> bool {
    &&& p.len() > 0
    &&& code_match(s, m, i, p)
    &&& i > 0 && is_ident_char(p[0]) ==> !is_ident_char(s[i - 1])
}

/// The first position at or after `i` where `p` stands in code and begins no later than its name.
pub open spec fn find_name(s: Seq<char>, m: Seq<bool>, p: Seq<char>, i: int) -> Option<int>
    decreases s.len() - i,
{
    if i < 0 || i + p.len() > s.len() || i >= s.len() {
        None
    } else if name_match(s, m, i, p) {
        Some(i)
    } else {
        find_name(s, m, p, i + 1)
    }
}

/// Where a name is found, it stands, and it is code.
pub proof fn lemma_find_name(s: Seq<char>, m: Seq<bool>, p: Seq<char>, i: int)
    ensures
        find_name(s, m, p, i) matches Some(k) ==> 0 <= i <= k && name_match(s, m, k, p),
    decreases s.len() - i,
{
    if 0 <= i < s.len() && i + p.len() <= s.len() && !name_match(s, m, i, p) {
        lemma_find_name(s, m, p, i + 1);
    }
}

/// Whether `p` stands in code at `at`, with the name that it begins with.
pub fn matches_name(s: &[char], m: &[bool], at: usize, p: &[char]) -> (r: bool)
    requires
        m@.len() == s@.len(),
    ensures
        r == name_match(s@, m@, at as int, p@),
{
    p.len() > 0 && matches_code(s, m, at, p) && !(at > 0 && ident_char(p[0]) && ident_char(
        s[at - 1],
    ))
}

/// The first position at or after `from` where `p` stands in code and begins no later than its
/// name.
pub fn find_name_in_code(s: &[char], m: &[bool], p: &str, from: usize) -> (r: Option<usize>)
    requires
        m@.len() == s@.len(),
    ensures
        match r {
            Some(k) => find_name(s@, m@, p@, from as int) == Some(k as int) && from <= k && k
                + p@.len() <= s@.len() && name_match(s@, m@, k as int, p@),
            None => find_name(s@, m@, p@, from as int) is None,
        },
{
    let pat = chars_of(p);
    let n: usize = s.len();
    let mut i: usize = from;
    while i < n && pat.len() <= n - i
        invariant
            pat@ == p@,
            m@.len() == s@.len(),
            n == s@.len(),
            from <= i,
            find_name(s@, m@, p@, from as int) == find_name(s@, m@, p@, i as int),
        decreases n - i,
    {
        if matches_name(s, m, i, pat.as_slice()) {
            return Some(i);
        }
        i += 1;
    }
    None
}

/// `w` stands in code at `i` as a word of its own.
pub open spec fn word_at(s: Seq<char>, m: Seq<bool>, i: int, w: Seq<char>) -> bool {
    &&& code_match(s, m, i, w)
    &&& i > 0 ==> !is_ident_char(s[i - 1])
    &&& i + w.len() < s.len() ==> !is_ident_char(s[i + w.len()])
}

/// Whether `w` stands in code at `at` as a word of its own.
pub fn word_in_code(s: &[char], m: &[bool], at: usize, w: &str) -> (r: bool)
    requires
        m@.len() == s@.len(),
    ensures
        r == word_at(s@, m@, at as int, w@),
{
    let pat = chars_of(w);
    if !matches_code(s, m, at, pat.as_slice()) {
        return false;
    }
    let n: usize = s.len();
    let end: usize = at + pat.len();
    !(at > 0 && ident_char(s[at - 1])) && !(end < n && ident_char(s[end]))
}

/// The first position at or after `i` where `w` stands in code as a word of its own.
pub open spec fn find_word(s: Seq<char>, m: Seq<bool>, w: Seq<char>, i: int) -> Option<int>
    decreases s.len() - i,
{
    if i < 0 || i >= s.len() {
        None
    } else if word_at(s, m, i, w) {
        Some(i)
    } else {
        find_word(s, m, w, i + 1)
    }
}

/// The first position where `w` stands in code as a word of its own.
pub fn find_word_in_code(s: &[char], m: &[bool], w: &str) -> (r: Option<usize>)
    requires
        m@.len() == s@.len(),
    ensures
        match r {
            Some(k) => find_word(s@, m@, w@, 0) == Some(k as int) && k < s@.len() && word_at(
                s@,
                m@,
                k as int,
                w@,
            ),
            None => find_word(s@, m@, w@, 0) is None,
        },
{
    let mut i: usize = 0;
    while i < s.len()
        invariant
            m@.len() == s@.len(),
            i <= s@.len(),
            find_word(s@, m@, w@, 0) == find_word(s@, m@, w@, i as int),
        decreases s@.len() - i,
    {
        if word_in_code(s, m, i, w) {
            return Some(i);
        }
        i += 1;
    }
    None
}

/// The end of the last code before `n` that is no white space.
pub open spec fn code_end(s: Seq<char>, m: Seq<bool>, n: int) -> int
    decreases n,
{
    if 0 < n <= s.len() && (!m[n - 1] || is_space(s[n - 1])) {
        code_end(s, m, n - 1)
    } else {
        n
    }
}

/// Code before `k` that is no white space is not passed over.
pub proof fn lemma_code_end(s: Seq<char>, m: Seq<bool>, n: int, k: int)
    requires
        0 < k <= n <= s.len(),
        m[k - 1],
        !is_space(s[k - 1]),
    ensures
        k <= code_end(s, m, n) <= n,
    decreases n,
{
    if k < n && (!m[n - 1] || is_space(s[n - 1])) {
        lemma_code_end(s, m, n - 1, k);
    }
}

/// The end of the last code before `n` that is no white space.
pub fn end_of_code(s: &[char], m: &[bool], n: usize) -> (r: usize)
    requires
        m@.len() == s@.len(),
        n <= s@.len(),
    ensures
        r == code_end(s@, m@, n as int),
        r <= n,
        r > 0 ==> m@[r - 1] && !is_space(s@[r - 1]),
{
    let mut i: usize = n;
    while i > 0 && (!m[i - 1] || space(s[i - 1]))
        invariant
            m@.len() == s@.len(),
            i <= n <= s@.len(),
            code_end(s@, m@, n as int) == code_end(s@, m@, i as int),
        decreases i,
    {
        i -= 1;
    }
    i
}

/// The first position at or after `i` that is code and no white space.
pub open spec fn skip_gap(s: Seq<char>, m: Seq<bool>, i: int) -> int
    decreases s.len() - i,
{
    if 0 <= i < s.len() && (!m[i] || is_ascii_space(s[i])) {
        skip_gap(s, m, i + 1)
    } else {
        i
    }
}

/// A gap ends where it begins or later.
pub proof fn lemma_skip_gap(s: Seq<char>, m: Seq<bool>, i: int)
    ensures
        i <= skip_gap(s, m, i),
    decreases s.len() - i,
{
    if 0 <= i < s.len() && (!m[i] || is_ascii_space(s[i])) {
        lemma_skip_gap(s, m, i + 1);
    }
}

/// The first position at or after `from` that is code and no white space.
pub fn after_gap(s: &[char], m: &[bool], from: usize) -> (r: usize)
    requires
        m@.len() == s@.len(),
        from <= s@.len(),
    ensures
        r == skip_gap(s@, m@, from as int),
        from <= r <= s@.len(),
        r < s@.len() ==> m@[r as int],
{
    let mut i: usize = from;
    while i < s.len() && (!m[i] || ascii_space(s[i]))
        invariant
            m@.len() == s@.len(),
            from <= i <= s@.len(),
            skip_gap(s@, m@, from as int) == skip_gap(s@, m@, i as int),
        decreases s@.len() - i,
    {
        i += 1;
    }
    i
}

/// The first position at or after `i` where `c` stands in code.
pub open spec fn code_char(s: Seq<char>, m: Seq<bool>, c: char, i: int) -> Option<int>
    decreases s.len() - i,
{
    if i < 0 || i >= s.len() {
        None
    } else if m[i] && s[i] == c {
        Some(i)
    } else {
        code_char(s, m, c, i + 1)
    }
}

/// Where a character is found, the text has it.
pub proof fn lemma_code_char(s: Seq<char>, m: Seq<bool>, c: char, i: int)
    ensures
        code_char(s, m, c, i) matches Some(k) ==> 0 <= i <= k < s.len(),
    decreases s.len() - i,
{
    if i < 0 || i >= s.len() {
    } else if m[i] && s[i] == c {
    } else {
        lemma_code_char(s, m, c, i + 1);
    }
}

/// The first position at or after `from` where `c` stands in code.
pub fn find_code_char(s: &[char], m: &[bool], c: char, from: usize) -> (r: Option<usize>)
    requires
        m@.len() == s@.len(),
        from <= s@.len(),
    ensures
        match r {
            Some(k) => code_char(s@, m@, c, from as int) == Some(k as int) && from <= k < s@.len()
                && m@[k as int] && s@[k as int] == c,
            None => code_char(s@, m@, c, from as int) is None,
        },
{
    let mut i: usize = from;
    while i < s.len()
        invariant
            m@.len() == s@.len(),
            from <= i <= s@.len(),
            code_char(s@, m@, c, from as int) == code_char(s@, m@, c, i as int),
        decreases s@.len() - i,
    {
        if m[i] && s[i] == c {
            return Some(i);
        }
        i += 1;
    }
    None
}

/// The last `;` in code before `i` outside brackets, where `depth` brackets are open to the right.
pub open spec fn last_semi(s: Seq<char>, m: Seq<bool>, i: int, depth: int) -> Option<int>
    decreases i,
{
    if i <= 0 || i > s.len() {
        None
    } else if !m[i - 1] {
        last_semi(s, m, i - 1, depth)
    } else if s[i - 1] == ')' || s[i - 1] == '}' || s[i - 1] == ']' {
        last_semi(s, m, i - 1, depth + 1)
    } else if s[i - 1] == '(' || s[i - 1] == '{' || s[i - 1] == '[' {
        last_semi(s, m, i - 1, depth - 1)
    } else if s[i - 1] == ';' && depth == 0 {
        Some(i - 1)
    } else {
        last_semi(s, m, i - 1, depth)
    }
}

/// The last position where `;` stands in code outside brackets.
pub fn last_semicolon_in_code(s: &[char], m: &[bool]) -> (r: Option<usize>)
    requires
        m@.len() == s@.len(),
    ensures
        match r {
            Some(k) => last_semi(s@, m@, s@.len() as int, 0) == Some(k as int) && k < s@.len(),
            None => last_semi(s@, m@, s@.len() as int, 0) is None,
        },
{
    let n: usize = s.len();
    let mut depth: i128 = 0;
    let mut i: usize = n;
    while i > 0
        invariant
            n == s@.len(),
            m@.len() == s@.len(),
            i <= n,
            i - n <= depth <= n - i,
            last_semi(s@, m@, s@.len() as int, 0) == last_semi(s@, m@, i as int, depth as int),
        decreases i,
    {
        i -= 1;
        if m[i] {
            let c = s[i];
            if c == ')' || c == '}' || c == ']' {
                depth += 1;
            } else if c == '(' || c == '{' || c == '[' {
                depth -= 1;
            } else if c == ';' && depth == 0 {
                return Some(i);
            }
        }
    }
    None
}

// ---------- Brackets ----------

/// The bracket `close` in code that brings `depth` brackets `open` to an end, from `i` on.
pub open spec fn closes_from(
    s: Seq<char>,
    m: Seq<bool>,
    open: char,
    close: char,
    i: int,
    depth: int,
) -> Option<int>
    decreases s.len() - i,
{
    if i < 0 || i >= s.len() {
        None
    } else if m[i] && s[i] == open {
        closes_from(s, m, open, close, i + 1, depth + 1)
    } else if m[i] && s[i] == close {
        if depth == 1 {
            Some(i)
        } else {
            closes_from(s, m, open, close, i + 1, depth - 1)
        }
    } else {
        closes_from(s, m, open, close, i + 1, depth)
    }
}

/// The bracket in code that matches the bracket `open` at `at`.
pub open spec fn matching(
    s: Seq<char>,
    m: Seq<bool>,
    open: char,
    close: char,
    at: int,
) -> Option<int> {
    if 0 <= at < s.len() && s[at] == open {
        closes_from(s, m, open, close, at, 0)
    } else {
        None
    }
}

proof fn lemma_closes_from(
    s: Seq<char>,
    m: Seq<bool>,
    open: char,
    close: char,
    i: int,
    depth: int,
)
    ensures
        closes_from(s, m, open, close, i, depth) matches Some(k) ==> 0 <= i <= k < s.len(),
    decreases s.len() - i,
{
    if i < 0 || i >= s.len() {
    } else if m[i] && s[i] == open {
        lemma_closes_from(s, m, open, close, i + 1, depth + 1);
    } else if m[i] && s[i] == close {
        if depth != 1 {
            lemma_closes_from(s, m, open, close, i + 1, depth - 1);
        }
    } else {
        lemma_closes_from(s, m, open, close, i + 1, depth);
    }
}

/// A matching bracket stands in the text, not before the bracket that it matches.
pub proof fn lemma_matching(s: Seq<char>, m: Seq<bool>, open: char, close: char, at: int)
    ensures
        matching(s, m, open, close, at) matches Some(k) ==> 0 <= at <= k < s.len(),
{
    lemma_closes_from(s, m, open, close, at, 0);
}

/// The bracket in code that matches the bracket `open` at `at`.
pub fn find_matching(s: &[char], m: &[bool], open: char, close: char, at: usize) -> (r: Option<
    usize,
>)
    requires
        m@.len() == s@.len(),
    ensures
        match r {
            Some(k) => matching(s@, m@, open, close, at as int) == Some(k as int) && at < k
                < s@.len() && m@[k as int] && s@[k as int] == close,
            None => matching(s@, m@, open, close, at as int) is None,
        },
{
    let n: usize = s.len();
    if at >= n || s[at] != open {
        return None;
    }
    let mut depth: i128 = 0;
    let mut i: usize = at;
    while i < n
        invariant
            n == s@.len(),
            m@.len() == s@.len(),
            at <= i <= n,
            at < n,
            s@[at as int] == open,
            at - i <= depth <= i - at,
            matching(s@, m@, open, close, at as int) == closes_from(
                s@,
                m@,
                open,
                close,
                i as int,
                depth as int,
            ),
        decreases n - i,
    {
        if m[i] {
            if s[i] == open {
                depth += 1;
            } else if s[i] == close {
                if depth == 1 {
                    return Some(i);
                }
                depth -= 1;
            }
        }
        i += 1;
    }
    None
}

} // verus!
