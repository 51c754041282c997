//! Gathering what the rules find.

use vstd::prelude::*;
use vstd::utf8::*;

use crate::instrument::edit::{edits_of, fits, lemma_placed_fits, placed};
use crate::instrument::{by_place, candidate_key, views, Candidate, CandidateView};
use crate::order::{law_sorted, law_sorted_has, law_sorted_stable, with_key};

verus! {

/// The item of an option as a sequence of at most one.
pub open spec fn listed(c: Option<CandidateView>) -> Seq<CandidateView> {
    match c {
        Some(c) => seq![c],
        None => Seq::empty(),
    }
}

/// Every edit of every candidate is one of whole characters of `src`.
#[verifier::opaque]
pub open spec fn all_placed(cs: Seq<CandidateView>, src: Seq<char>) -> bool {
    forall|k: int| 0 <= k < cs.len() ==> placed(#[trigger] cs[k], src)
}

/// Put a candidate behind those found before, where there is one.
pub(crate) fn push_listed(out: &mut Vec<Candidate>, c: Option<Candidate>, src: &[char])
    requires
        all_placed(views(old(out)@), src@),
        c matches Some(c) ==> placed(c@, src@),
    ensures
        all_placed(views(final(out)@), src@),
        views(final(out)@) == views(old(out)@) + listed(
            match c {
                Some(c) => Some(c@),
                None => None,
            },
        ),
{
    let ghost before = views(out@);
    proof {
        reveal(all_placed);
    }
    match c {
        Some(c) => {
            let ghost one = c@;
            out.push(c);
            assert(views(out@) =~= before + seq![one]);
        },
        None => {
            assert(before + Seq::<CandidateView>::empty() =~= before);
        },
    }
}

/// Sorting leaves the edits as they are.
pub proof fn lemma_sorted_placed(cs: Seq<CandidateView>, src: Seq<char>)
    requires
        all_placed(cs, src),
    ensures
        all_placed(by_place(cs), src),
{
    reveal(all_placed);
    law_sorted_has(cs, candidate_key());
    assert forall|k: int| 0 <= k < by_place(cs).len() implies placed(
        #[trigger] by_place(cs)[k],
        src,
    ) by {
        assert(cs.contains(by_place(cs)[k]));
    }
}

/// No edits are all of whole characters.
pub proof fn lemma_none_placed(src: Seq<char>)
    ensures
        all_placed(Seq::empty(), src),
{
    reveal(all_placed);
}

/// What is found in a text can be applied to it: every edit is one of whole characters.
pub proof fn law_found_can_be_applied(cs: Seq<CandidateView>, src: Seq<char>)
    requires
        all_placed(cs, src),
    ensures
        forall|k: int|
            0 <= k < edits_of(cs).len() ==> fits(#[trigger] edits_of(cs)[k], encode_utf8(src)),
{
    reveal(all_placed);
    lemma_placed_fits(cs, src);
}

/// What is found is told by where it begins, all of it and nothing twice; what begins at the same
/// place is told in the order in which it was found.
pub proof fn law_found_goes_by_place(cs: Seq<CandidateView>, k: int)
    ensures
        by_place(cs).to_multiset() == cs.to_multiset(),
        forall|i: int, j: int|
            0 <= i <= j < by_place(cs).len() ==> (#[trigger] by_place(cs)[i]).start <= (
            #[trigger] by_place(cs)[j]).start,
        with_key(by_place(cs), candidate_key(), k) == with_key(cs, candidate_key(), k),
{
    let out = by_place(cs);
    let key = candidate_key();
    law_sorted(cs, key, cs.len());
    law_sorted_stable(cs, key, cs.len(), k);
    assert(cs.subrange(0, cs.len() as int) =~= cs);
    assert forall|i: int, j: int| 0 <= i <= j < out.len() implies (#[trigger] out[i]).start <= (
    #[trigger] out[j]).start by {
        assert(key(out[i]) <= key(out[j]));
    }
}

} // verus!
