//! Showing what an edit changes.

use vstd::prelude::*;
use vstd::string::*;

use crate::text::{chars_of, ends_with, ends_with_str};

verus! {

/// What becomes of a line.
#[derive(Debug, Clone, Copy, PartialEq, Eq, Structural)]
pub enum Tag {
    Delete,
    Insert,
    Equal,
}

/// A line and what becomes of it. The line holds its line feed.
#[derive(Debug)]
pub struct Change {
    pub tag: Tag,
    pub text: String,
}

/// Changes that stand together, with the header that says where.
#[derive(Debug)]
pub struct Hunk {
    pub header: String,
    pub changes: Vec<Change>,
}

/// A change as a mathematical value.
pub struct ChangeView {
    pub tag: Tag,
    pub text: Seq<char>,
}

/// A hunk as a mathematical value.
pub struct HunkView {
    pub header: Seq<char>,
    pub changes: Seq<ChangeView>,
}

impl View for Hunk {
    type V = HunkView;

    open spec fn view(&self) -> HunkView {
        HunkView {
            header: self.header@,
            changes: Seq::new(
                self.changes@.len(),
                |i: int| ChangeView { tag: self.changes@[i].tag, text: self.changes@[i].text@ },
            ),
        }
    }
}

/// The views of a sequence of hunks.
pub open spec fn hunks_view(v: Seq<Hunk>) -> Seq<HunkView> {
    Seq::new(v.len(), |i: int| v[i]@)
}

/// The hunks by which two texts differ line by line, each with `radius` lines around it, as the
/// `similar` crate finds them.
pub uninterp spec fn line_hunks(old_text: Seq<char>, new_text: Seq<char>, radius: nat) -> Seq<
    HunkView,
>;

/// Calls `similar::TextDiff::from_lines` and lists the hunks of its `unified_diff` with the
/// given `context_radius`. They depend on the two texts and the radius alone. The crate doubles
/// the radius, so that twice the radius fits a `usize`.
#[verifier::external_body]
fn find_hunks(old_text: &str, new_text: &str, radius: usize) -> (r: Vec<Hunk>)
    requires
        radius <= usize::MAX / 2,
    ensures
        hunks_view(r@) == line_hunks(old_text@, new_text@, radius as nat),
{
    let diff = similar::TextDiff::from_lines(old_text, new_text);
    let mut out = Vec::new();
    for h in diff.unified_diff().context_radius(radius).iter_hunks() {
        let changes = h.iter_changes().map(|c| Change {
            tag: match c.tag() {
                similar::ChangeTag::Delete => Tag::Delete,
                similar::ChangeTag::Insert => Tag::Insert,
                similar::ChangeTag::Equal => Tag::Equal,
            },
            text: c.value().to_string(),
        }).collect();
        out.push(Hunk { header: h.header().to_string(), changes });
    }
    out
}

/// The sign before a changed line.
pub open spec fn sign(tag: Tag) -> Seq<char> {
    match tag {
        Tag::Delete => "-"@,
        Tag::Insert => "+"@,
        Tag::Equal => " "@,
    }
}

/// What brings the line of a change to its end: nothing where the text has its line feed.
pub open spec fn line_close(text: Seq<char>) -> Seq<char> {
    if ends_with(text, "\n"@) {
        Seq::empty()
    } else {
        "\n\\ No newline at end of file\n"@
    }
}

/// The first `n` changes, each behind its sign.
pub open spec fn shown_changes(cs: Seq<ChangeView>, n: nat) -> Seq<char>
    decreases n,
{
    if n == 0 || n > cs.len() {
        Seq::empty()
    } else {
        shown_changes(cs, (n - 1) as nat) + (sign(cs[n - 1].tag) + cs[n - 1].text + line_close(
            cs[n - 1].text,
        ))
    }
}

/// The first `n` hunks.
pub open spec fn shown_hunks(hs: Seq<HunkView>, n: nat) -> Seq<char>
    decreases n,
{
    if n == 0 || n > hs.len() {
        Seq::empty()
    } else {
        shown_hunks(hs, (n - 1) as nat) + (hs[n - 1].header + "\n"@ + shown_changes(
            hs[n - 1].changes,
            hs[n - 1].changes.len(),
        ))
    }
}

/// Hunks as a diff of the file at `path`.
pub open spec fn shown(path: Seq<char>, hs: Seq<HunkView>) -> Seq<char> {
    "--- "@ + path + "\n+++ "@ + path + "\n"@ + shown_hunks(hs, hs.len())
}

fn push_changes(out: &mut String, h: &Hunk)
    ensures
        final(out)@ == old(out)@ + shown_changes(h@.changes, h@.changes.len()),
{
    let ghost start = out@;
    assert(start + shown_changes(h@.changes, 0) =~= start);
    let mut i: usize = 0;
    while i < h.changes.len()
        invariant
            i <= h.changes@.len(),
            out@ == start + shown_changes(h@.changes, i as nat),
        decreases h.changes@.len() - i,
    {
        let ghost before = shown_changes(h@.changes, i as nat);
        let c = &h.changes[i];
        assert(h@.changes[i as int] == (ChangeView { tag: c.tag, text: c.text@ }));
        out.append(
            match c.tag {
                Tag::Delete => "-",
                Tag::Insert => "+",
                Tag::Equal => " ",
            },
        );
        out.append(c.text.as_str());
        let chars = chars_of(c.text.as_str());
        if !ends_with_str(chars.as_slice(), "\n") {
            out.append("\n\\ No newline at end of file\n");
        }
        assert(out@ =~= start + (before + (sign(c.tag) + c.text@ + line_close(c.text@))));
        i += 1;
    }
}

/// Hunks as a diff of the file at `path`.
pub fn render(path: &str, hunks: &Vec<Hunk>) -> (out: String)
    ensures
        out@ == shown(path@, hunks_view(hunks@)),
{
    let mut out = String::from_str("--- ");
    out.append(path);
    out.append("\n+++ ");
    out.append(path);
    out.append("\n");
    let ghost start = out@;
    let ghost all = hunks_view(hunks@);
    assert(start + shown_hunks(all, 0) =~= start);
    let mut i: usize = 0;
    while i < hunks.len()
        invariant
            i <= hunks@.len(),
            all == hunks_view(hunks@),
            out@ == start + shown_hunks(all, i as nat),
        decreases hunks@.len() - i,
    {
        let ghost before = shown_hunks(all, i as nat);
        let h = &hunks[i];
        assert(all[i as int] == h@);
        out.append(h.header.as_str());
        out.append("\n");
        push_changes(&mut out, h);
        proof {
            let cs = shown_changes(h@.changes, h@.changes.len());
            assert(start + before + h@.header + "\n"@ + cs =~= start + (before + (h@.header + "\n"@
                + cs)));
        }
        i += 1;
    }
    out
}

/// The diff from `old_text` to `new_text` of the file at `path`, with three lines around each
/// change.
pub fn unified(old_text: &str, new_text: &str, path: &str) -> (out: String)
    ensures
        out@ == shown(path@, line_hunks(old_text@, new_text@, 3)),
{
    let hunks = find_hunks(old_text, new_text, 3);
    render(path, &hunks)
}

} // verus!
