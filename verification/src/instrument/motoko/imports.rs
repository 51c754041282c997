//! The imports of a Motoko file, and the indentation of its lines.

use vstd::prelude::*;

use crate::instrument::motoko::scan::{code_mask, mask};
use crate::text::{
    contains, contains_str, ends_with, ends_with_str, find_quoted, following_line, ident_end,
    ident_run, lemma_line_end, line_at, line_start, line_text, next_line, quoted, same_chars,
    skip_space, slice, space_end, start_of_line, starts_with, starts_with_str, string_of,
    trim_start, trim_start_of,
};

verus! {

/// An import: the name it binds, and the path it names.
#[derive(Debug)]
pub struct Import {
    pub alias: String,
    pub path: String,
}

/// An import as a mathematical value.
pub struct ImportView {
    pub alias: Seq<char>,
    pub path: Seq<char>,
}

impl View for Import {
    type V = ImportView;

    open spec fn view(&self) -> ImportView {
        ImportView { alias: self.alias@, path: self.path@ }
    }
}

/// The line is an import line.
pub open spec fn is_import(line: Seq<char>) -> bool {
    starts_with(trim_start(line), "import "@)
}

/// The line that begins at `i` begins with code, after its white space.
pub open spec fn begins_in_code(m: Seq<bool>, line: Seq<char>, i: int) -> bool {
    m[i + skip_space(line, 0)]
}

fn line_is_code(m: &[bool], line: &[char], i: usize) -> (r: bool)
    requires
        i + line@.len() <= m@.len(),
        is_import(line@),
    ensures
        r == begins_in_code(m@, line@, i as int),
{
    proof {
        reveal_strlit("import ");
    }
    let n: usize = m.len();
    let k = space_end(line, 0);
    m[i + k]
}

/// The import that a line makes: `import <alias> "<path>"`.
pub open spec fn import_of(line: Seq<char>) -> Option<ImportView> {
    let t = trim_start(line);
    let rest = t.subrange(7, t.len() as int);
    let a = ident_end(rest, 0);
    if is_import(line) && a > 0 {
        match quoted(rest, a) {
            Some((x, y)) => Some(
                ImportView { alias: rest.subrange(0, a), path: rest.subrange(x, y) },
            ),
            None => None,
        }
    } else {
        None
    }
}

fn parse_import(line: &[char]) -> (r: Option<Import>)
    ensures
        match r {
            Some(i) => import_of(line@) == Some(i@),
            None => import_of(line@) is None,
        },
{
    let t = trim_start_of(line);
    if !starts_with_str(t, "import ") {
        return None;
    }
    proof {
        reveal_strlit("import ");
    }
    let rest = slice(t, 7, t.len());
    let a = ident_run(rest, 0);
    if a == 0 {
        return None;
    }
    match find_quoted(rest, a) {
        Some((x, y)) => Some(
            Import { alias: string_of(slice(rest, 0, a)), path: string_of(slice(rest, x, y)) },
        ),
        None => None,
    }
}

/// Where the last component of a path begins, looking back from `n`.
pub open spec fn base_start(path: Seq<char>, n: int) -> int
    decreases n,
{
    if 0 < n <= path.len() && path[n - 1] != '/' && path[n - 1] != '\\' {
        base_start(path, n - 1)
    } else {
        n
    }
}

/// The last component of a path.
pub open spec fn base_name(path: Seq<char>) -> Seq<char> {
    path.subrange(base_start(path, path.len() as int), path.len() as int)
}

/// `s` without the suffix `.mo`, where it has it.
pub open spec fn without_mo(s: Seq<char>) -> Seq<char> {
    if ends_with(s, ".mo"@) {
        s.subrange(0, s.len() - 3)
    } else {
        s
    }
}

/// The path names the `Trace` module: its last component is `Trace` or `Trace.mo`.
pub open spec fn names_trace(path: Seq<char>) -> bool {
    without_mo(base_name(path)) == "Trace"@
}

fn import_is_trace(path: &[char]) -> (r: bool)
    ensures
        r == names_trace(path@),
{
    let n: usize = path.len();
    let mut i: usize = n;
    while i > 0 && path[i - 1] != '/' && path[i - 1] != '\\'
        invariant
            n == path@.len(),
            i <= n,
            base_start(path@, n as int) == base_start(path@, i as int),
        decreases i,
    {
        i -= 1;
    }
    let base = slice(path, i, n);
    proof {
        reveal_strlit(".mo");
    }
    let stem = if ends_with_str(base, ".mo") {
        slice(base, 0, base.len() - 3)
    } else {
        base
    };
    let name = crate::text::chars_of("Trace");
    same_chars(stem, name.as_slice())
}

/// The first import of the `Trace` module in the lines of code from `i` on.
pub open spec fn trace_import(s: Seq<char>, m: Seq<bool>, i: int) -> Option<ImportView>
    decreases s.len() - i,
{
    if i < 0 || i >= s.len() {
        None
    } else {
        proof {
            lemma_line_end(s, i);
        }
        match import_of(line_text(s, i)) {
            Some(imp) if names_trace(imp.path) && begins_in_code(m, line_text(s, i), i) => Some(
                imp,
            ),
            _ => trace_import(s, m, next_line(s, i)),
        }
    }
}

/// The first import of the `Trace` module.
pub fn find_trace_import(s: &[char]) -> (r: Option<Import>)
    ensures
        match r {
            Some(i) => trace_import(s@, mask(s@), 0) == Some(i@),
            None => trace_import(s@, mask(s@), 0) is None,
        },
{
    let m = code_mask(s);
    let mut i: usize = 0;
    while i < s.len()
        invariant
            i <= s@.len(),
            m@ == mask(s@),
            m@.len() == s@.len(),
            trace_import(s@, m@, 0) == trace_import(s@, m@, i as int),
        decreases s@.len() - i,
    {
        let line = line_at(s, i);
        if let Some(imp) = parse_import(line) {
            let path = crate::text::chars_of(imp.path.as_str());
            proof {
                lemma_line_end(s@, i as int);
            }
            if import_is_trace(path.as_slice()) && line_is_code(m.as_slice(), line, i) {
                return Some(imp);
            }
        }
        i = following_line(s, i);
    }
    None
}

/// The line is an import line that holds the import's name and path.
pub open spec fn holds_import(line: Seq<char>, imp: ImportView) -> bool {
    is_import(line) && contains(trim_start(line), imp.alias) && contains(line, imp.path)
}

/// Some line of code from `i` on holds the import.
pub open spec fn import_line_from(s: Seq<char>, m: Seq<bool>, imp: ImportView, i: int) -> bool
    decreases s.len() - i,
{
    if i < 0 || i >= s.len() {
        false
    } else {
        proof {
            lemma_line_end(s, i);
        }
        let line = s.subrange(i, next_line(s, i));
        (holds_import(line, imp) && begins_in_code(m, line, i)) || import_line_from(
            s,
            m,
            imp,
            next_line(s, i),
        )
    }
}

/// Whether some line of code holds the import.
pub fn has_import_line(s: &[char], imp: &Import) -> (r: bool)
    ensures
        r == import_line_from(s@, mask(s@), imp@, 0),
{
    let m = code_mask(s);
    let mut i: usize = 0;
    while i < s.len()
        invariant
            i <= s@.len(),
            m@ == mask(s@),
            m@.len() == s@.len(),
            import_line_from(s@, m@, imp@, 0) == import_line_from(s@, m@, imp@, i as int),
        decreases s@.len() - i,
    {
        let next = following_line(s, i);
        let line = slice(s, i, next);
        let t = trim_start_of(line);
        if starts_with_str(t, "import ") && contains_str(t, imp.alias.as_str()) && contains_str(
            line,
            imp.path.as_str(),
        ) && line_is_code(m.as_slice(), line, i) {
            return true;
        }
        i = next;
    }
    false
}

/// The end of the last import line in code from `i` on, or `last`.
pub open spec fn imports_end_from(s: Seq<char>, m: Seq<bool>, i: int, last: int) -> int
    decreases s.len() - i,
{
    if i < 0 || i >= s.len() {
        last
    } else {
        proof {
            lemma_line_end(s, i);
        }
        let next = next_line(s, i);
        let line = s.subrange(i, next);
        imports_end_from(
            s,
            m,
            next,
            if is_import(line) && begins_in_code(m, line, i) {
                next
            } else {
                last
            },
        )
    }
}

/// The end of the last import line in code, or the start of the file where there is none.
pub open spec fn imports_end(s: Seq<char>) -> int {
    imports_end_from(s, mask(s), 0, 0)
}

/// The end of the last import line in code, or the start of the file where there is none.
pub fn last_import_end(s: &[char]) -> (r: usize)
    ensures
        r == imports_end(s@),
        r <= s@.len(),
{
    let m = code_mask(s);
    let mut last: usize = 0;
    let mut i: usize = 0;
    while i < s.len()
        invariant
            i <= s@.len(),
            last <= s@.len(),
            m@ == mask(s@),
            m@.len() == s@.len(),
            imports_end(s@) == imports_end_from(s@, m@, i as int, last as int),
        decreases s@.len() - i,
    {
        let next = following_line(s, i);
        let line = slice(s, i, next);
        if starts_with_str(trim_start_of(line), "import ") && line_is_code(m.as_slice(), line, i) {
            last = next;
        }
        i = next;
    }
    last
}

/// The end of the run of spaces and tabs that begins at `i`.
pub open spec fn blank_end(s: Seq<char>, i: int) -> int
    decreases s.len() - i,
{
    if 0 <= i < s.len() && (s[i] == ' ' || s[i] == '\t') {
        blank_end(s, i + 1)
    } else {
        i
    }
}

/// The indentation of the line that holds position `at`.
pub open spec fn indent_at(s: Seq<char>, at: int) -> Seq<char> {
    s.subrange(line_start(s, at), blank_end(s, line_start(s, at)))
}

/// The indentation of the line that holds position `at`.
pub fn leading_indent_of_line(s: &[char], at: usize) -> (r: String)
    requires
        at <= s@.len(),
    ensures
        r@ == indent_at(s@, at as int),
{
    let start = start_of_line(s, at);
    let mut i: usize = start;
    while i < s.len() && (s[i] == ' ' || s[i] == '\t')
        invariant
            start <= i <= s@.len(),
            blank_end(s@, start as int) == blank_end(s@, i as int),
        decreases s@.len() - i,
    {
        i += 1;
    }
    string_of(slice(s, start, i))
}

} // verus!
