//! Showing candidates to the user.

use vstd::prelude::*;
use vstd::string::*;
use vstd::utf8::*;

use crate::instrument::agent_js::{refs_view, RefView, Reference};
use crate::instrument::{views, Candidate, CandidateView};
use crate::text::{
    chars_of, dec, decimal, lines_of, pad, padded, split_lines, string_of, texts, trim, trim_of,
};

verus! {

/// The number of line feeds among the first `n` bytes.
pub open spec fn feeds(bytes: Seq<u8>, n: nat) -> nat
    decreases n,
{
    if n == 0 || n > bytes.len() {
        0
    } else {
        feeds(bytes, (n - 1) as nat) + if bytes[n - 1] == 10 {
            1nat
        } else {
            0nat
        }
    }
}

/// The line, counted from one, that holds the byte `offset`.
pub open spec fn line_at_byte(src: Seq<char>, offset: nat) -> nat {
    let bytes = encode_utf8(src);
    feeds(
        bytes,
        if offset <= bytes.len() {
            offset
        } else {
            bytes.len()
        },
    ) + 1
}

/// The line, counted from one, that holds the byte `offset`.
pub fn line_of_offset(src: &str, offset: usize) -> (r: u128)
    ensures
        r == line_at_byte(src@, offset as nat),
        r <= usize::MAX + 1,
{
    let bytes = src.as_bytes();
    let len: usize = bytes.len();
    let end: usize = if offset <= len {
        offset
    } else {
        len
    };
    let mut n: u128 = 0;
    let mut i: usize = 0;
    while i < end
        invariant
            i <= end <= bytes@.len(),
            n <= i,
            n == feeds(bytes@, i as nat),
        decreases end - i,
    {
        if bytes[i] == 10 {
            n += 1;
        }
        i += 1;
    }
    n + 1
}

// ---------- The list of a dry run ----------

/// A caution, where there is one, behind `lead`.
pub open spec fn caution(w: Option<Seq<char>>, lead: Seq<char>) -> Seq<char> {
    match w {
        Some(w) => lead + "⚠ "@ + w + "\n"@,
        None => Seq::empty(),
    }
}

/// Where a candidate stands: the line and the function.
pub open spec fn site(c: CandidateView, src: Seq<char>) -> Seq<char> {
    c.rule.name() + " (line "@ + dec(line_at_byte(src, c.start as nat)) + ", fn `"@ + c.fn_name
        + "`)"@
}

/// The entry of the `n`th candidate in the list.
pub open spec fn list_entry(c: CandidateView, src: Seq<char>, n: nat) -> Seq<char> {
    "  ["@ + dec(n) + "] "@ + site(c, src) + " — "@ + c.summary + "\n"@ + caution(
        c.warning,
        "       "@,
    )
}

/// The entries of the first `n` candidates.
pub open spec fn list_entries(cs: Seq<CandidateView>, src: Seq<char>, n: nat) -> Seq<char>
    decreases n,
{
    if n == 0 || n > cs.len() {
        Seq::empty()
    } else {
        list_entries(cs, src, (n - 1) as nat) + list_entry(cs[n - 1], src, n)
    }
}

/// The list of the candidates.
pub open spec fn listing(cs: Seq<CandidateView>, src: Seq<char>) -> Seq<char> {
    "found "@ + dec(cs.len()) + " candidates:\n\n"@ + list_entries(cs, src, cs.len())
}

fn push_caution(out: &mut String, w: &Option<String>, lead: &str)
    ensures
        final(out)@ == old(out)@ + caution(crate::instrument::opt_text(*w), lead@),
{
    let ghost start = out@;
    match w {
        Some(w) => {
            out.append(lead);
            out.append("⚠ ");
            out.append(w.as_str());
            out.append("\n");
        },
        None => {},
    }
    assert(out@ =~= start + caution(crate::instrument::opt_text(*w), lead@));
}

fn show_site(c: &Candidate, src: &str) -> (r: String)
    ensures
        r@ == site(c@, src@),
{
    let mut out = String::from_str(c.rule.as_str());
    out.append(" (line ");
    out.append(decimal(line_of_offset(src, c.byte_range.start)).as_str());
    out.append(", fn `");
    out.append(c.fn_name.as_str());
    out.append("`)");
    out
}

fn show_entry(c: &Candidate, src: &str, n: usize) -> (r: String)
    ensures
        r@ == list_entry(c@, src@, n as nat),
{
    let mut out = String::from_str("  [");
    out.append(decimal(n as u128).as_str());
    out.append("] ");
    out.append(show_site(c, src).as_str());
    out.append(" — ");
    out.append(c.summary.as_str());
    out.append("\n");
    push_caution(&mut out, &c.warning, "       ");
    out
}

/// The list of the candidates.
pub fn show_list(cs: &[Candidate], src: &str) -> (r: String)
    ensures
        r@ == listing(views(cs@), src@),
{
    let mut out = String::from_str("found ");
    out.append(decimal(cs.len() as u128).as_str());
    out.append(" candidates:\n\n");
    let ghost start = out@;
    let ghost all = views(cs@);
    assert(start + list_entries(all, src@, 0) =~= start);
    let mut i: usize = 0;
    while i < cs.len()
        invariant
            i <= cs@.len(),
            all == views(cs@),
            out@ == start + list_entries(all, src@, i as nat),
        decreases cs@.len() - i,
    {
        let ghost before = list_entries(all, src@, i as nat);
        assert(all[i as int] == cs@[i as int]@);
        out.append(show_entry(&cs[i], src, i + 1).as_str());
        assert(start + before + list_entry(all[i as int], src@, (i + 1) as nat) =~= start + (before
            + list_entry(all[i as int], src@, (i + 1) as nat)));
        i += 1;
    }
    out
}

// ---------- The question about one candidate ----------

/// Line `n` of the source as it is shown; `target` is the line that is asked about.
pub open spec fn shown_line(line: Seq<char>, n: nat, target: nat) -> Seq<char> {
    "   "@ + (if n == target {
        "▶"@
    } else {
        " "@
    }) + " "@ + padded(dec(n), 4) + " │ "@ + line + "\n"@
}

/// Those of the first `n` lines that stand at most `around` lines from `target`.
pub open spec fn shown_lines(lines: Seq<Seq<char>>, target: nat, around: nat, n: nat) -> Seq<char>
    decreases n,
{
    if n == 0 || n > lines.len() {
        Seq::empty()
    } else {
        let before = shown_lines(lines, target, around, (n - 1) as nat);
        if target <= n + around && n <= target + around {
            before + shown_line(lines[n - 1], n, target)
        } else {
            before
        }
    }
}

/// The lines of the source around the byte `offset`.
pub open spec fn context(src: Seq<char>, offset: nat, around: nat) -> Seq<char> {
    shown_lines(lines_of(src), line_at_byte(src, offset), around, lines_of(src).len())
}

/// What is shown of the `n`th of `total` candidates before the question.
pub open spec fn question(c: CandidateView, src: Seq<char>, n: nat, total: nat) -> Seq<char> {
    "\n── ["@ + dec(n) + "/"@ + dec(total) + "] "@ + site(c, src) + "\n   "@ + c.summary + "\n"@
        + caution(c.warning, "   "@) + "   ┄┄┄ source ┄┄┄\n"@ + context(src, c.start as nat, 3)
}

fn show_line(line: &str, n: u128, target: u128) -> (r: String)
    ensures
        r@ == shown_line(line@, n as nat, target as nat),
{
    let mut out = String::from_str("   ");
    out.append(
        if n == target {
            "▶"
        } else {
            " "
        },
    );
    out.append(" ");
    out.append(pad(decimal(n).as_str(), 4).as_str());
    out.append(" │ ");
    out.append(line);
    out.append("\n");
    out
}

/// The lines of the source around the byte `offset`.
pub fn show_context(src: &str, offset: usize, around: usize) -> (r: String)
    ensures
        r@ == context(src@, offset as nat, around as nat),
{
    let chars = chars_of(src);
    let lines = split_lines(chars.as_slice());
    let ghost all = lines_of(src@);
    let target = line_of_offset(src, offset);
    let mut out = String::new();
    let mut i: usize = 0;
    while i < lines.len()
        invariant
            i <= lines@.len(),
            all == texts(lines@),
            target <= usize::MAX + 1,
            out@ == shown_lines(all, target as nat, around as nat, i as nat),
        decreases lines@.len() - i,
    {
        let n: u128 = i as u128 + 1;
        assert(all[i as int] == lines@[i as int]@);
        if target <= n + around as u128 && n <= target + around as u128 {
            out.append(show_line(lines[i].as_str(), n, target).as_str());
        }
        i += 1;
    }
    out
}

/// What is shown of the `n`th of `total` candidates before the question.
pub fn show_question(c: &Candidate, src: &str, n: usize, total: usize) -> (r: String)
    ensures
        r@ == question(c@, src@, n as nat, total as nat),
{
    let mut out = String::from_str("\n── [");
    out.append(decimal(n as u128).as_str());
    out.append("/");
    out.append(decimal(total as u128).as_str());
    out.append("] ");
    out.append(show_site(c, src).as_str());
    out.append("\n   ");
    out.append(c.summary.as_str());
    out.append("\n");
    push_caution(&mut out, &c.warning, "   ");
    out.append("   ┄┄┄ source ┄┄┄\n");
    out.append(show_context(src, c.byte_range.start, 3).as_str());
    out
}

// ---------- References in scripts ----------

/// A reference as it is listed.
pub open spec fn reference_entry(r: RefView) -> Seq<char> {
    "    "@ + r.kind.name() + " "@ + r.path + ":"@ + dec(r.line_no as nat) + "  "@ + trim(
        r.line_text,
    ) + "\n"@
}

/// The first `n` references as they are listed.
pub open spec fn reference_entries(rs: Seq<RefView>, n: nat) -> Seq<char>
    decreases n,
{
    if n == 0 || n > rs.len() {
        Seq::empty()
    } else {
        reference_entries(rs, (n - 1) as nat) + reference_entry(rs[n - 1])
    }
}

/// The references to a method; nothing where there are none.
pub open spec fn references_text(method: Seq<char>, rs: Seq<RefView>) -> Seq<char> {
    if rs.len() == 0 {
        Seq::empty()
    } else {
        "  `"@ + method + "` referenced in "@ + dec(rs.len()) + " place(s):\n"@
            + reference_entries(rs, rs.len())
    }
}

fn show_reference(r: &Reference) -> (out: String)
    ensures
        out@ == reference_entry(r@),
{
    let mut out = String::from_str("    ");
    out.append(r.kind.as_str());
    out.append(" ");
    out.append(r.path.as_str());
    out.append(":");
    out.append(decimal(r.line_no as u128).as_str());
    out.append("  ");
    let chars = chars_of(r.line_text.as_str());
    out.append(string_of(trim_of(chars.as_slice())).as_str());
    out.append("\n");
    out
}

/// The references to a method; nothing where there are none.
pub fn show_references(method: &str, rs: &[Reference]) -> (out: String)
    ensures
        out@ == references_text(method@, refs_view(rs@)),
{
    if rs.len() == 0 {
        return String::new();
    }
    let mut out = String::from_str("  `");
    out.append(method);
    out.append("` referenced in ");
    out.append(decimal(rs.len() as u128).as_str());
    out.append(" place(s):\n");
    let ghost start = out@;
    let ghost all = refs_view(rs@);
    assert(start + reference_entries(all, 0) =~= start);
    let mut i: usize = 0;
    while i < rs.len()
        invariant
            i <= rs@.len(),
            all == refs_view(rs@),
            out@ == start + reference_entries(all, i as nat),
        decreases rs@.len() - i,
    {
        let ghost before = reference_entries(all, i as nat);
        assert(all[i as int] == rs@[i as int]@);
        out.append(show_reference(&rs[i]).as_str());
        assert(start + before + reference_entry(all[i as int]) =~= start + (before
            + reference_entry(all[i as int])));
        i += 1;
    }
    out
}

// ---------- What is listed ----------

/// Lines count from one; each line feed before a byte adds one, and nothing else does.
pub proof fn law_lines_count_from_one(src: Seq<char>, offset: nat)
    ensures
        line_at_byte(src, 0) == 1,
        offset < encode_utf8(src).len() && encode_utf8(src)[offset as int] == 10 ==> line_at_byte(
            src,
            offset + 1,
        ) == line_at_byte(src, offset) + 1,
        offset < encode_utf8(src).len() && encode_utf8(src)[offset as int] != 10 ==> line_at_byte(
            src,
            offset + 1,
        ) == line_at_byte(src, offset),
        offset >= encode_utf8(src).len() ==> line_at_byte(src, offset) == line_at_byte(
            src,
            encode_utf8(src).len(),
        ),
{
}

/// Each candidate is listed under its number, counted from one, with its rule, its line, its
/// function and what it does; a warning that comes with it has a line of its own.
pub proof fn law_every_candidate_is_listed(cs: Seq<CandidateView>, src: Seq<char>, n: nat)
    requires
        n < cs.len(),
        0 <= cs[n as int].start,
    ensures
        listing(cs, src) == "found "@ + dec(cs.len()) + " candidates:\n\n"@ + list_entries(
            cs,
            src,
            cs.len(),
        ),
        list_entries(cs, src, 0).len() == 0,
        ({
            let c = cs[n as int];
            let entry = "  ["@ + dec(n + 1) + "] "@ + (c.rule.name() + " (line "@ + dec(
                line_at_byte(src, c.start as nat),
            ) + ", fn `"@ + c.fn_name + "`)"@) + " — "@ + c.summary + "\n"@;
            &&& c.warning is None ==> list_entries(cs, src, n + 1) == list_entries(cs, src, n)
                + entry
            &&& c.warning matches Some(w) ==> list_entries(cs, src, n + 1) == list_entries(
                cs,
                src,
                n,
            ) + (entry + ("       "@ + "⚠ "@ + w + "\n"@))
        }),
{
    let c = cs[n as int];
    let entry = "  ["@ + dec(n + 1) + "] "@ + (c.rule.name() + " (line "@ + dec(
        line_at_byte(src, c.start as nat),
    ) + ", fn `"@ + c.fn_name + "`)"@) + " — "@ + c.summary + "\n"@;
    assert(entry + Seq::<char>::empty() =~= entry);
    assert(list_entries(cs, src, n + 1) == list_entries(cs, src, n) + list_entry(c, src, n + 1));
}

/// Around the line that is asked about, the lines up to `around` away are shown, with their numbers,
/// and no others; that line alone is marked.
pub proof fn law_lines_around_are_shown(
    lines: Seq<Seq<char>>,
    target: nat,
    around: nat,
    n: nat,
)
    requires
        n < lines.len(),
    ensures
        shown_lines(lines, target, around, 0).len() == 0,
        ({
            let no = n + 1;
            let near = no <= target + around && target <= no + around;
            let line = " "@ + padded(dec(no), 4) + " │ "@ + lines[n as int] + "\n"@;
            let before = shown_lines(lines, target, around, n);
            let now = shown_lines(lines, target, around, n + 1);
            &&& near && no == target ==> now == before + ("   ▶"@ + line)
            &&& near && no != target ==> now == before + ("    "@ + line)
            &&& !near ==> now == before
        }),
{
    reveal_strlit("   ▶");
    reveal_strlit("    ");
    reveal_strlit("   ");
    reveal_strlit("▶");
    reveal_strlit(" ");
    assert("   ▶"@ =~= "   "@ + "▶"@);
    assert("    "@ =~= "   "@ + " "@);
    let no = n + 1;
    let line = " "@ + padded(dec(no), 4) + " │ "@ + lines[n as int] + "\n"@;
    let t = shown_line(lines[n as int], no, target);
    if no == target {
        assert(t =~= "   ▶"@ + line);
    } else {
        assert(t =~= "    "@ + line);
    }
}

/// Each reference is listed with what it is, its file, its line and the text of that line.
pub proof fn law_every_reference_is_listed(method: Seq<char>, rs: Seq<RefView>, n: nat)
    requires
        n < rs.len(),
        0 <= rs[n as int].line_no,
    ensures
        references_text(method, rs) == "  `"@ + method + "` referenced in "@ + dec(rs.len())
            + " place(s):\n"@ + reference_entries(rs, rs.len()),
        reference_entries(rs, 0).len() == 0,
        reference_entries(rs, n + 1) == reference_entries(rs, n) + ("    "@
            + rs[n as int].kind.name() + " "@ + rs[n as int].path + ":"@ + dec(
            rs[n as int].line_no as nat,
        ) + "  "@ + trim(rs[n as int].line_text) + "\n"@),
{
}

} // verus!
