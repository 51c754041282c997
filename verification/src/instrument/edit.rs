//! Applying candidates to source text.
//!
//! An edit names a range of bytes. Edits that overlap are refused as a whole;
//! otherwise all of them take effect at once, each at the place it named.

use vstd::prelude::*;
use vstd::string::*;
use vstd::utf8::*;

use crate::instrument::{
    edits_view, views, Candidate, CandidateView, Replacement, ReplacementView, Rule,
};
use crate::order::{
    at_most_one, in_order, law_sorted, law_sorted_has, lemma_sorted_one, slot, sorted,
};
use crate::text::{decimal, dec, replace_str, replaced};

verus! {

/// One edit of one range.
pub struct FlatEdit {
    pub rule: Rule,
    pub start: usize,
    pub end: usize,
    pub text: String,
}

/// One edit of one range, as a mathematical value.
pub struct FlatView {
    pub rule: Rule,
    pub start: int,
    pub end: int,
    pub text: Seq<char>,
}

impl View for FlatEdit {
    type V = FlatView;

    open spec fn view(&self) -> FlatView {
        FlatView {
            rule: self.rule,
            start: self.start as int,
            end: self.end as int,
            text: self.text@,
        }
    }
}

/// The views of a sequence of edits.
pub open spec fn flats(v: Seq<FlatEdit>) -> Seq<FlatView> {
    Seq::new(v.len(), |i: int| v[i]@)
}

/// Two edits of the source of which the second begins before the first ends.
#[derive(Debug, Clone, Copy, PartialEq, Eq, Structural)]
pub struct EditConflict {
    pub first_rule: Rule,
    pub first_start: usize,
    pub first_end: usize,
    pub second_rule: Rule,
    pub second_start: usize,
    pub second_end: usize,
}

impl EditConflict {
    /// The message for this conflict.
    pub open spec fn text(self) -> Seq<char> {
        "conflicting edits: "@ + self.first_rule.name() + " ("@ + dec(self.first_start as nat)
            + ".."@ + dec(self.first_end as nat) + ") overlaps "@ + self.second_rule.name() + " ("@
            + dec(self.second_start as nat) + ".."@ + dec(self.second_end as nat) + ")"@
    }

    /// The message for this conflict.
    pub fn message(&self) -> (r: String)
        ensures
            r@ == self.text(),
    {
        let mut out = String::from_str("conflicting edits: ");
        out.append(self.first_rule.as_str());
        out.append(" (");
        out.append(decimal(self.first_start as u128).as_str());
        out.append("..");
        out.append(decimal(self.first_end as u128).as_str());
        out.append(") overlaps ");
        out.append(self.second_rule.as_str());
        out.append(" (");
        out.append(decimal(self.second_start as u128).as_str());
        out.append("..");
        out.append(decimal(self.second_end as u128).as_str());
        out.append(")");
        out
    }
}

// ---------- What a candidate does ----------

/// The edits of one candidate. A template takes its default key and its hint.
pub open spec fn flat_of(c: CandidateView) -> Seq<FlatView> {
    match c.replacement {
        ReplacementView::Replace(t) => seq![
            FlatView { rule: c.rule, start: c.start, end: c.end, text: t },
        ],
        ReplacementView::InsertRaw(t) => seq![
            FlatView { rule: c.rule, start: c.start, end: c.end, text: t },
        ],
        ReplacementView::InsertAfterWithKey { template, default_key } => seq![
            FlatView {
                rule: c.rule,
                start: c.start,
                end: c.end,
                text: replaced(template, "{KEY}"@, default_key),
            },
        ],
        ReplacementView::InsertWithKeyAndValue { template, default_key, value_hint } => seq![
            FlatView {
                rule: c.rule,
                start: c.start,
                end: c.end,
                text: replaced(
                    replaced(template, "{KEY}"@, default_key),
                    "{VALUE}"@,
                    value_hint,
                ),
            },
        ],
        ReplacementView::Multi(es) => Seq::new(
            es.len(),
            |i: int|
                FlatView { rule: c.rule, start: es[i].start, end: es[i].end, text: es[i].text },
        ),
    }
}

/// The edits of the first `n` candidates, in order.
pub open spec fn flat_all(cs: Seq<CandidateView>, n: nat) -> Seq<FlatView>
    decreases n,
{
    if n == 0 || n > cs.len() {
        Seq::empty()
    } else {
        flat_all(cs, (n - 1) as nat) + flat_of(cs[n - 1])
    }
}

/// Edits go by where they begin.
pub open spec fn edit_key() -> spec_fn(FlatView) -> int {
    |e: FlatView| e.start
}

/// The edits of all candidates, by where they begin.
pub open spec fn edits_of(cs: Seq<CandidateView>) -> Seq<FlatView> {
    let es = flat_all(cs, cs.len());
    sorted(es, edit_key(), es.len())
}

/// The second of two edits begins before the first ends, and not both are insertions.
pub open spec fn overlap(a: FlatView, b: FlatView) -> bool {
    !(a.start == a.end && b.start == b.end) && a.end > b.start
}

/// The first edit at or after `i` that overlaps the next one.
pub open spec fn first_overlap(es: Seq<FlatView>, i: int) -> Option<int>
    decreases es.len() - i,
{
    if i < 0 || i + 1 >= es.len() {
        None
    } else if overlap(es[i], es[i + 1]) {
        Some(i)
    } else {
        first_overlap(es, i + 1)
    }
}

/// The edit puts text in, but not from `at` on before `to`.
pub open spec fn puts_outside(e: FlatView, at: int, to: int) -> bool {
    e.start == e.end && (e.start < at || to <= e.start)
}

/// The edits only put text in, but for at most one, from `at` to `to` at most, where no other goes.
pub open spec fn clear(es: Seq<FlatView>, at: int, to: int) -> bool {
    &&& forall|i: int|
        0 <= i < es.len() ==> puts_outside(#[trigger] es[i], at, to) || (es[i].start == at
            && es[i].start < es[i].end <= to)
    &&& at_most_one(es, |e: FlatView| e.start != e.end)
}

/// Such edits do not overlap.
pub proof fn law_clear_edits_do_not_overlap(cs: Seq<CandidateView>, at: int, to: int)
    requires
        clear(flat_all(cs, cs.len()), at, to),
    ensures
        first_overlap(edits_of(cs), 0) is None,
{
    let es = flat_all(cs, cs.len());
    let p = |e: FlatView| e.start != e.end;
    law_sorted(es, edit_key(), es.len());
    law_sorted_has(es, edit_key());
    lemma_sorted_one(es, edit_key(), p, es.len());
    let out = edits_of(cs);
    assert forall|i: int| 0 <= i < out.len() - 1 implies !overlap(
        #[trigger] out[i],
        out[i + 1],
    ) by {
        assert(es.contains(out[i]) && es.contains(out[i + 1]));
        assert(edit_key()(out[i]) <= edit_key()(out[i + 1]));
        assert(!(p(out[i]) && p(out[i + 1])));
    }
    lemma_no_overlap(out, 0);
}

proof fn lemma_no_overlap(es: Seq<FlatView>, i: int)
    requires
        forall|k: int| 0 <= k < es.len() - 1 ==> !overlap(#[trigger] es[k], es[k + 1]),
    ensures
        first_overlap(es, i) is None,
    decreases es.len() - i,
{
    if 0 <= i && i + 1 < es.len() {
        lemma_no_overlap(es, i + 1);
    }
}

/// Every edit of the candidate puts text in, but not from `at` on before `to`.
pub open spec fn keeps_clear(c: CandidateView, at: int, to: int) -> bool {
    forall|k: int| 0 <= k < flat_of(c).len() ==> puts_outside(#[trigger] flat_of(c)[k], at, to)
}

/// Candidates that keep clear, but for at most one of the rule, make edits that are clear.
pub proof fn lemma_clear(cs: Seq<CandidateView>, rule: Rule, at: int, to: int, n: nat)
    requires
        n <= cs.len(),
        forall|i: int|
            0 <= i < cs.len() ==> keeps_clear(#[trigger] cs[i], at, to) || (cs[i].rule == rule
                && clear(flat_of(cs[i]), at, to)),
        at_most_one(cs, |c: CandidateView| c.rule == rule),
    ensures
        clear(flat_all(cs, n), at, to),
        (forall|i: int| 0 <= i < n ==> keeps_clear(#[trigger] cs[i], at, to)) ==> forall|i: int|
            0 <= i < flat_all(cs, n).len() ==> (#[trigger] flat_all(cs, n)[i]).start == flat_all(
                cs,
                n,
            )[i].end,
    decreases n,
{
    if n > 0 {
        let m = (n - 1) as nat;
        let c = cs[n - 1];
        let x = flat_all(cs, m);
        let y = flat_of(c);
        let one = |c: CandidateView| c.rule == rule;
        lemma_clear(cs, rule, at, to, m);
        if !keeps_clear(c, at, to) {
            assert forall|i: int| 0 <= i < m implies keeps_clear(#[trigger] cs[i], at, to) by {
                assert(!(one(cs[i]) && one(cs[n - 1])));
            }
        }
        assert forall|i: int| 0 <= i < (x + y).len() implies puts_outside(
            #[trigger] (x + y)[i],
            at,
            to,
        ) || ((x + y)[i].start == at && (x + y)[i].start < (x + y)[i].end <= to) by {
            if i < x.len() {
                assert((x + y)[i] == x[i]);
            } else {
                assert((x + y)[i] == y[i - x.len()]);
            }
        }
        let p = |e: FlatView| e.start != e.end;
        assert forall|i: int, j: int| 0 <= i < j < (x + y).len() implies !(p(
            #[trigger] (x + y)[i],
        ) && p(#[trigger] (x + y)[j])) by {
            if j < x.len() {
                assert(!(p(x[i]) && p(x[j])));
            } else if i < x.len() {
                assert((x + y)[i] == x[i]);
                assert((x + y)[j] == y[j - x.len()]);
            } else {
                assert((x + y)[j] == y[j - x.len()]);
                assert((x + y)[i] == y[i - x.len()]);
                if !keeps_clear(c, at, to) {
                    assert(!(p(y[i - x.len()]) && p(y[j - x.len()])));
                }
            }
        }
        if forall|i: int| 0 <= i < n ==> keeps_clear(#[trigger] cs[i], at, to) {
            assert forall|i: int| 0 <= i < (x + y).len() implies (#[trigger] (x + y)[i]).start
                == (x + y)[i].end by {
                assert(keeps_clear(cs[n - 1], at, to));
                if i < x.len() {
                    assert((x + y)[i] == x[i]);
                } else {
                    assert((x + y)[i] == y[i - x.len()]);
                }
            }
        }
    }
}

/// An edit of a range of whole characters of `bytes`.
pub open spec fn fits(e: FlatView, bytes: Seq<u8>) -> bool {
    &&& 0 <= e.start <= e.end <= bytes.len()
    &&& is_char_boundary(bytes, e.start)
    &&& is_char_boundary(bytes, e.end)
}

/// Every edit of the candidate is one of whole characters of `src`.
pub open spec fn placed(c: CandidateView, src: Seq<char>) -> bool {
    forall|k: int| 0 <= k < flat_of(c).len() ==> fits(#[trigger] flat_of(c)[k], encode_utf8(src))
}

/// `bytes` from `from` on, with the edits from the `i`th on made.
pub open spec fn spliced(bytes: Seq<u8>, es: Seq<FlatView>, i: int, from: int) -> Seq<u8>
    decreases es.len() - i,
{
    if i < 0 || i >= es.len() {
        bytes.subrange(from, bytes.len() as int)
    } else {
        bytes.subrange(from, es[i].start) + encode_utf8(es[i].text) + spliced(
            bytes,
            es,
            i + 1,
            es[i].end,
        )
    }
}

// ---------- Flattening and sorting ----------

fn flatten(c: &Candidate, out: &mut Vec<FlatEdit>)
    ensures
        flats(final(out)@) == flats(old(out)@) + flat_of(c@),
{
    let rule = c.rule;
    let start: usize = c.byte_range.start;
    let end: usize = c.byte_range.end;
    proof {
        reveal_strlit("{KEY}");
        reveal_strlit("{VALUE}");
    }
    match &c.replacement {
        Replacement::Replace(s) => {
            out.push(FlatEdit { rule, start, end, text: s.clone() });
        },
        Replacement::InsertRaw(s) => {
            out.push(FlatEdit { rule, start, end, text: s.clone() });
        },
        Replacement::InsertAfterWithKey { template, default_key } => {
            let text = replace_str(template.as_str(), "{KEY}", default_key.as_str());
            out.push(FlatEdit { rule, start, end, text });
        },
        Replacement::InsertWithKeyAndValue { template, default_key, value_hint } => {
            let keyed = replace_str(template.as_str(), "{KEY}", default_key.as_str());
            let text = replace_str(keyed.as_str(), "{VALUE}", value_hint.as_str());
            out.push(FlatEdit { rule, start, end, text });
        },
        Replacement::Multi(edits) => {
            let mut i: usize = 0;
            while i < edits.len()
                invariant
                    i <= edits@.len(),
                    c@.replacement == ReplacementView::Multi(edits_view(edits@)),
                    rule == c.rule,
                    flats(out@) == flats(old(out)@) + flat_of(c@).subrange(0, i as int),
                decreases edits@.len() - i,
            {
                let ghost before = out@;
                out.push(
                    FlatEdit {
                        rule,
                        start: edits[i].0.start,
                        end: edits[i].0.end,
                        text: edits[i].1.clone(),
                    },
                );
                assert(flats(out@) =~= flats(before).push(out@.last()@));
                assert(flat_of(c@)[i as int] == out@.last()@);
                i += 1;
                assert(flat_of(c@).subrange(0, i as int) =~= flat_of(c@).subrange(0, i - 1).push(
                    flat_of(c@)[i - 1],
                ));
            }
            assert(flat_of(c@).subrange(0, i as int) =~= flat_of(c@));
        },
    }
    assert(flats(out@) =~= flats(old(out)@) + flat_of(c@));
}

fn insert_by_start(es: &mut Vec<FlatEdit>, e: FlatEdit)
    ensures
        flats(final(es)@) == flats(old(es)@).insert(
            slot(flats(old(es)@), edit_key(), e@.start, old(es)@.len() as int),
            e@,
        ),
{
    let mut n: usize = es.len();
    while n > 0 && es[n - 1].start > e.start
        invariant
            n <= es@.len(),
            es@ == old(es)@,
            slot(flats(es@), edit_key(), e@.start, es@.len() as int) == slot(
                flats(es@),
                edit_key(),
                e@.start,
                n as int,
            ),
        decreases n,
    {
        n -= 1;
    }
    es.insert(n, e);
    assert(flats(es@) =~= flats(old(es)@).insert(n as int, e@));
}

pub(crate) fn sort_by_start(es: Vec<FlatEdit>) -> (out: Vec<FlatEdit>)
    ensures
        flats(out@) == sorted(flats(es@), edit_key(), es@.len()),
{
    let ghost all = flats(es@);
    let mut out: Vec<FlatEdit> = Vec::new();
    assert(flats(out@) =~= sorted(all, edit_key(), 0));
    let mut i: usize = 0;
    while i < es.len()
        invariant
            i <= es@.len(),
            all == flats(es@),
            flats(out@) == sorted(all, edit_key(), i as nat),
        decreases es@.len() - i,
    {
        let e = FlatEdit {
            rule: es[i].rule,
            start: es[i].start,
            end: es[i].end,
            text: es[i].text.clone(),
        };
        assert(e@ == all[i as int]);
        insert_by_start(&mut out, e);
        i += 1;
    }
    out
}

fn find_overlap(es: &Vec<FlatEdit>) -> (r: Option<usize>)
    ensures
        match r {
            Some(k) => first_overlap(flats(es@), 0) == Some(k as int) && k + 1 < es.len(),
            None => first_overlap(flats(es@), 0) is None,
        },
{
    let mut i: usize = 0;
    while i < es.len() && i + 1 < es.len()
        invariant
            i <= es@.len(),
            first_overlap(flats(es@), 0) == first_overlap(flats(es@), i as int),
        decreases es@.len() - i,
    {
        let a_zero = es[i].start == es[i].end;
        let b_zero = es[i + 1].start == es[i + 1].end;
        if !(a_zero && b_zero) && es[i].end > es[i + 1].start {
            return Some(i);
        }
        i += 1;
    }
    None
}

// ---------- Applying ----------

/// A boundary of `bytes` at or after a boundary `from` is one of the rest from `from` on.
proof fn lemma_boundary_in_rest(bytes: Seq<u8>, from: int, at: int)
    requires
        valid_utf8(bytes),
        0 <= from <= at <= bytes.len(),
        is_char_boundary(bytes, from),
        is_char_boundary(bytes, at),
    ensures
        valid_utf8(bytes.subrange(from, bytes.len() as int)),
        is_char_boundary(bytes.subrange(from, bytes.len() as int), at - from),
{
    let rest = bytes.subrange(from, bytes.len() as int);
    valid_utf8_split(bytes, from);
    if at < bytes.len() {
        is_char_boundary_iff_not_is_continuation_byte(bytes, at);
        is_char_boundary_iff_not_is_continuation_byte(rest, at - from);
        assert(rest[at - from] == bytes[at]);
    } else {
        is_char_boundary_start_end_of_seq(rest);
    }
}

/// An edit of a range ends before the next edit begins.
spec fn apart(es: Seq<FlatView>, k: int) -> bool {
    k + 1 < es.len() && es[k].start <= es[k].end ==> es[k].end <= es[k + 1].start
}

/// Edits in order that do not overlap: each ends before the next begins.
proof fn lemma_apart(es: Seq<FlatView>, i: int)
    requires
        in_order(es, edit_key()),
        0 <= i,
        first_overlap(es, i) is None,
    ensures
        forall|k: int| i <= k ==> #[trigger] apart(es, k),
    decreases es.len() - i,
{
    if i + 1 < es.len() {
        lemma_apart(es, i + 1);
        assert(edit_key()(es[i]) <= edit_key()(es[i + 1]));
        assert forall|k: int| i <= k implies #[trigger] apart(es, k) by {
            if k > i {
                assert(i + 1 <= k);
            }
        }
    }
}

/// Make edits that are in order, do not overlap and are of whole characters.
pub fn splice(src: &str, es: &Vec<FlatEdit>) -> (out: String)
    requires
        in_order(flats(es@), edit_key()),
        first_overlap(flats(es@), 0) is None,
        forall|k: int|
            0 <= k < es@.len() ==> fits(#[trigger] flats(es@)[k], encode_utf8(src@)),
    ensures
        encode_utf8(out@) == spliced(encode_utf8(src@), flats(es@), 0, 0),
{
    let ghost bytes = encode_utf8(src@);
    let ghost edits = flats(es@);
    proof {
        lemma_apart(edits, 0);
        encode_utf8_valid_utf8(src@);
    }
    let mut out = String::new();
    let mut rest = src;
    let mut from: usize = 0;
    let mut n: usize = 0;
    assert(encode_utf8(out@) + spliced(bytes, edits, 0, 0) =~= spliced(bytes, edits, 0, 0));
    assert(bytes.subrange(0, bytes.len() as int) =~= bytes);
    while n < es.len()
        invariant
            n <= es@.len(),
            flats(es@) == edits,
            bytes == encode_utf8(src@),
            valid_utf8(bytes),
            forall|k: int| 0 <= k < edits.len() ==> fits(#[trigger] edits[k], bytes),
            forall|k: int| 0 <= k ==> #[trigger] apart(edits, k),
            from <= bytes.len(),
            is_char_boundary(bytes, from as int),
            n < es@.len() ==> from <= edits[n as int].start,
            encode_utf8(rest@) == bytes.subrange(from as int, bytes.len() as int),
            encode_utf8(out@) + spliced(bytes, edits, n as int, from as int) == spliced(
                bytes,
                edits,
                0,
                0,
            ),
        decreases es@.len() - n,
    {
        let ghost e = edits[n as int];
        assert(e == es@[n as int]@);
        assert(fits(e, bytes));
        let start: usize = es[n].start;
        let end: usize = es[n].end;
        proof {
            lemma_boundary_in_rest(bytes, from as int, e.start);
            lemma_boundary_in_rest(bytes, from as int, e.end);
        }
        let ghost before = out@;
        let kept = rest.split_at(start - from).0;
        let next = rest.split_at(end - from).1;
        out.append(kept);
        out.append(es[n].text.as_str());
        proof {
            crate::text::lemma_encode_add(before, kept@);
            crate::text::lemma_encode_add(before + kept@, e.text);
            assert(encode_utf8(kept@) =~= bytes.subrange(from as int, e.start));
            assert(encode_utf8(next@) =~= bytes.subrange(e.end, bytes.len() as int));
            assert(encode_utf8(before) + spliced(bytes, edits, n as int, from as int)
                =~= encode_utf8(out@) + spliced(bytes, edits, n + 1, e.end));
            assert(apart(edits, n as int));
        }
        rest = next;
        from = end;
        n += 1;
    }
    let ghost before = out@;
    out.append(rest);
    proof {
        crate::text::lemma_encode_add(before, rest@);
        assert(encode_utf8(out@) =~= spliced(bytes, edits, 0, 0));
    }
    out
}

/// Make all edits of the accepted candidates in `src`.
///
/// Two edits that overlap refuse the whole, unless both only insert. A caller
/// without overlaps has edits of whole characters of `src`.
pub fn apply(src: &str, accepted: &[Candidate]) -> (r: Result<String, EditConflict>)
    requires
        first_overlap(edits_of(views(accepted@)), 0) is None ==> forall|k: int|
            0 <= k < edits_of(views(accepted@)).len() ==> fits(
                #[trigger] edits_of(views(accepted@))[k],
                encode_utf8(src@),
            ),
    ensures
        match r {
            Ok(out) => first_overlap(edits_of(views(accepted@)), 0) is None && encode_utf8(out@)
                == spliced(encode_utf8(src@), edits_of(views(accepted@)), 0, 0),
            Err(c) => first_overlap(edits_of(views(accepted@)), 0) matches Some(k) && {
                let a = edits_of(views(accepted@))[k];
                let b = edits_of(views(accepted@))[k + 1];
                &&& c.first_rule == a.rule && c.first_start == a.start && c.first_end == a.end
                &&& c.second_rule == b.rule && c.second_start == b.start && c.second_end == b.end
            },
        },
{
    let ghost cs = views(accepted@);
    let mut flat: Vec<FlatEdit> = Vec::new();
    assert(flats(flat@) =~= flat_all(cs, 0));
    let mut i: usize = 0;
    while i < accepted.len()
        invariant
            i <= accepted@.len(),
            cs == views(accepted@),
            flats(flat@) == flat_all(cs, i as nat),
        decreases accepted@.len() - i,
    {
        flatten(&accepted[i], &mut flat);
        i += 1;
    }
    let es = sort_by_start(flat);
    let ghost edits = edits_of(cs);
    assert(flats(es@) == edits);
    if let Some(k) = find_overlap(&es) {
        assert(edits[k as int] == es@[k as int]@);
        assert(edits[k + 1] == es@[k + 1]@);
        return Err(
            EditConflict {
                first_rule: es[k].rule,
                first_start: es[k].start,
                first_end: es[k].end,
                second_rule: es[k + 1].rule,
                second_start: es[k + 1].start,
                second_end: es[k + 1].end,
            },
        );
    }
    proof {
        let fs = flat_all(cs, cs.len());
        law_sorted(fs, edit_key(), fs.len());
    }
    Ok(splice(src, &es))
}

proof fn lemma_flat_all_placed(cs: Seq<CandidateView>, src: Seq<char>, n: nat)
    requires
        n <= cs.len(),
        forall|i: int| 0 <= i < cs.len() ==> placed(#[trigger] cs[i], src),
    ensures
        forall|k: int|
            0 <= k < flat_all(cs, n).len() ==> fits(
                #[trigger] flat_all(cs, n)[k],
                encode_utf8(src),
            ),
    decreases n,
{
    if n > 0 {
        lemma_flat_all_placed(cs, src, (n - 1) as nat);
        let head = flat_all(cs, (n - 1) as nat);
        assert(placed(cs[n - 1], src));
        assert forall|k: int| 0 <= k < flat_all(cs, n).len() implies fits(
            #[trigger] flat_all(cs, n)[k],
            encode_utf8(src),
        ) by {
            if k >= head.len() {
                assert(flat_all(cs, n)[k] == flat_of(cs[n - 1])[k - head.len()]);
            }
        }
    }
}

/// Candidates whose edits are of whole characters of the source can be applied to it.
pub proof fn lemma_placed_fits(cs: Seq<CandidateView>, src: Seq<char>)
    requires
        forall|i: int| 0 <= i < cs.len() ==> placed(#[trigger] cs[i], src),
    ensures
        forall|k: int|
            0 <= k < edits_of(cs).len() ==> fits(#[trigger] edits_of(cs)[k], encode_utf8(src)),
{
    let es = flat_all(cs, cs.len());
    lemma_flat_all_placed(cs, src, cs.len());
    law_sorted_has(es, edit_key());
    assert forall|k: int| 0 <= k < edits_of(cs).len() implies fits(
        #[trigger] edits_of(cs)[k],
        encode_utf8(src),
    ) by {
        assert(es.contains(edits_of(cs)[k]));
    }
}

/// With nothing accepted the source stays as it is.
pub proof fn law_no_edits(bytes: Seq<u8>)
    ensures
        edits_of(Seq::empty()).len() == 0,
        first_overlap(edits_of(Seq::empty()), 0) is None,
        spliced(bytes, edits_of(Seq::empty()), 0, 0) == bytes,
{
    assert(bytes.subrange(0, bytes.len() as int) =~= bytes);
}

/// `bytes` with one edit made.
pub open spec fn edited(bytes: Seq<u8>, e: FlatView) -> Seq<u8> {
    bytes.subrange(0, e.start) + encode_utf8(e.text) + bytes.subrange(e.end, bytes.len() as int)
}

/// `bytes` with the edits from the `i`th on made one after the other, the last one first.
pub open spec fn edited_from_right(bytes: Seq<u8>, es: Seq<FlatView>, i: int) -> Seq<u8>
    decreases es.len() - i,
{
    if i < 0 || i >= es.len() {
        bytes
    } else {
        edited(edited_from_right(bytes, es, i + 1), es[i])
    }
}

proof fn lemma_from_right(bytes: Seq<u8>, es: Seq<FlatView>, i: int, p: int)
    requires
        forall|k: int|
            0 <= k < es.len() ==> 0 <= (#[trigger] es[k]).start <= es[k].end <= bytes.len(),
        forall|k: int| 0 <= k ==> #[trigger] apart(es, k),
        0 <= i <= es.len(),
        0 <= p <= bytes.len(),
        i < es.len() ==> p <= es[i].start,
    ensures
        edited_from_right(bytes, es, i) == bytes.subrange(0, p) + spliced(bytes, es, i, p),
    decreases es.len() - i,
{
    if i == es.len() {
        assert(bytes.subrange(0, p) + bytes.subrange(p, bytes.len() as int) =~= bytes);
    } else {
        let e = es[i];
        assert(apart(es, i));
        lemma_from_right(bytes, es, i + 1, e.end);
        let later = edited_from_right(bytes, es, i + 1);
        let rest = spliced(bytes, es, i + 1, e.end);
        assert(later.subrange(0, e.start) =~= bytes.subrange(0, e.start));
        assert(later.subrange(e.end, later.len() as int) =~= rest);
        assert(edited(later, e) =~= bytes.subrange(0, p) + (bytes.subrange(p, e.start)
            + encode_utf8(e.text) + rest));
    }
}

/// Edits that do not overlap take effect as if they were made one by one from the last to the
/// first: none moves the place of another that is still to come.
pub proof fn law_edits_from_right(cs: Seq<CandidateView>, bytes: Seq<u8>)
    requires
        first_overlap(edits_of(cs), 0) is None,
        forall|k: int| 0 <= k < edits_of(cs).len() ==> fits(#[trigger] edits_of(cs)[k], bytes),
    ensures
        spliced(bytes, edits_of(cs), 0, 0) == edited_from_right(bytes, edits_of(cs), 0),
{
    let es = edits_of(cs);
    let fs = flat_all(cs, cs.len());
    law_sorted(fs, edit_key(), fs.len());
    lemma_apart(es, 0);
    assert forall|k: int| 0 <= k < es.len() implies 0 <= (#[trigger] es[k]).start <= es[k].end
        <= bytes.len() by {
        assert(fits(es[k], bytes));
    }
    lemma_from_right(bytes, es, 0, 0);
    assert(bytes.subrange(0, 0) + spliced(bytes, es, 0, 0) =~= spliced(bytes, es, 0, 0));
}

} // verus!
