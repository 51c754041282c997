//! Instrumenting Motoko actors.
//!
//! There is no parser: the text is scanned with comments and string literals
//! left out, and each edit rests on several signs that it is wanted.

use vstd::prelude::*;

use crate::instrument::gather::{
    all_placed, lemma_none_placed, lemma_sorted_placed, listed, push_listed,
};
use crate::instrument::edit::{edits_of, first_overlap};
use crate::instrument::motoko::actor::{actor_of, parse, ActorInfo, ActorView};
use crate::instrument::motoko::apart::{imports_clear, lemma_detected_apart, lemma_sits, sits};
use crate::instrument::motoko::funcs::{FuncView, PubFunc};
use crate::instrument::motoko::imports::last_import_end;
use crate::instrument::motoko::rules::{
    bootstrap, entry_note, mutation_snapshot, rollback_note, rule_bootstrap, rule_entry_note,
    rule_mutation_snapshot, rule_rollback_note, rule_trap_note, rule_wrap_method,
    rule_wrap_method_insert_header, trap_note, wrap_method, wrap_method_insert_header,
};
use crate::instrument::{
    by_place, sort_by_place, views, Candidate, CandidateView,
};
use crate::text::{blen, chars_of, utf8_len};

pub mod actor;
pub mod apart;
pub mod body;
pub mod boot;
pub mod funcs;
pub mod grown;
pub mod imports;
pub mod noted;
pub mod once;
pub mod places;
pub mod recorded;
pub mod rules;
pub mod scan;
pub mod second_header;
pub mod second_notes;
pub mod second_pass;
pub mod second_wrap;

verus! {

/// The notes for the first `n` traps of a function.
pub open spec fn trap_notes(f: FuncView, tracer: Seq<char>, src: Seq<char>, n: nat) -> Seq<
    CandidateView,
>
    decreases n,
{
    if n == 0 {
        Seq::empty()
    } else {
        trap_notes(f, tracer, src, (n - 1) as nat) + listed(
            trap_note(f, tracer, f.traps[n - 1], src),
        )
    }
}

/// The notes for the first `n` throws of a function.
pub open spec fn rollback_notes(f: FuncView, tracer: Seq<char>, src: Seq<char>, n: nat) -> Seq<
    CandidateView,
>
    decreases n,
{
    if n == 0 {
        Seq::empty()
    } else {
        rollback_notes(f, tracer, src, (n - 1) as nat) + listed(
            rollback_note(f, tracer, f.throws[n - 1], src),
        )
    }
}

/// The snapshots for the first `n` assignments of a function.
pub open spec fn snapshots(f: FuncView, tracer: Seq<char>, src: Seq<char>, n: nat) -> Seq<
    CandidateView,
>
    decreases n,
{
    if n == 0 {
        Seq::empty()
    } else {
        snapshots(f, tracer, src, (n - 1) as nat) + listed(
            mutation_snapshot(f, tracer, f.writes[n - 1], src),
        )
    }
}

/// The edits that a function wants, rule by rule.
pub open spec fn func_edits(f: FuncView, a: ActorView, src: Seq<char>) -> Seq<CandidateView> {
    listed(wrap_method(f, a, src)) + listed(wrap_method_insert_header(f, a, src)) + listed(
        entry_note(f, a, src),
    ) + trap_notes(f, a.tracer, src, f.traps.len()) + rollback_notes(
        f,
        a.tracer,
        src,
        f.throws.len(),
    ) + snapshots(f, a.tracer, src, f.writes.len())
}

/// The edits that the first `n` functions want.
pub open spec fn funcs_edits(a: ActorView, src: Seq<char>, n: nat) -> Seq<CandidateView>
    decreases n,
{
    if n == 0 {
        Seq::empty()
    } else {
        funcs_edits(a, src, (n - 1) as nat) + func_edits(a.funcs[n - 1], a, src)
    }
}

/// The edits that the actor of `src` wants, rule by rule.
pub open spec fn found(src: Seq<char>, path: Seq<char>) -> Seq<CandidateView> {
    match actor_of(src) {
        Some(a) => listed(bootstrap(a, src, path)) + funcs_edits(a, src, a.funcs.len()),
        None => Seq::empty(),
    }
}

/// The edits that the actor of `src` wants, by where they begin.
pub open spec fn detected(src: Seq<char>, path: Seq<char>) -> Seq<CandidateView> {
    by_place(found(src, path))
}

fn detect_traps(f: &PubFunc, tracer: &str, src: &[char], out: &mut Vec<Candidate>)
    requires
        f.within(src@.len() as int),
        blen(src@) <= usize::MAX,
        all_placed(views(old(out)@), src@),
    ensures
        all_placed(views(final(out)@), src@),
        views(final(out)@) == views(old(out)@) + trap_notes(f@, tracer@, src@, f@.traps.len()),
{
    let ghost before = views(out@);
    assert(before + trap_notes(f@, tracer@, src@, 0) =~= before);
    let mut i: usize = 0;
    while i < f.traps.len()
        invariant
            i <= f.traps@.len(),
            f.within(src@.len() as int),
            blen(src@) <= usize::MAX,
            all_placed(views(out@), src@),
            views(out@) == before + trap_notes(f@, tracer@, src@, i as nat),
        decreases f.traps@.len() - i,
    {
        let ghost noted = trap_notes(f@, tracer@, src@, i as nat);
        let ghost next = listed(trap_note(f@, tracer@, f@.traps[i as int], src@));
        push_listed(out, rule_trap_note(f, tracer, f.traps[i], src), src);
        assert(before + noted + next =~= before + (noted + next));
        i += 1;
    }
}

fn detect_throws(f: &PubFunc, tracer: &str, src: &[char], out: &mut Vec<Candidate>)
    requires
        f.within(src@.len() as int),
        blen(src@) <= usize::MAX,
        all_placed(views(old(out)@), src@),
    ensures
        all_placed(views(final(out)@), src@),
        views(final(out)@) == views(old(out)@) + rollback_notes(f@, tracer@, src@, f@.throws.len()),
{
    let ghost before = views(out@);
    assert(before + rollback_notes(f@, tracer@, src@, 0) =~= before);
    let mut i: usize = 0;
    while i < f.throws.len()
        invariant
            i <= f.throws@.len(),
            f.within(src@.len() as int),
            blen(src@) <= usize::MAX,
            all_placed(views(out@), src@),
            views(out@) == before + rollback_notes(f@, tracer@, src@, i as nat),
        decreases f.throws@.len() - i,
    {
        let ghost noted = rollback_notes(f@, tracer@, src@, i as nat);
        let ghost next = listed(rollback_note(f@, tracer@, f@.throws[i as int], src@));
        push_listed(out, rule_rollback_note(f, tracer, f.throws[i], src), src);
        assert(before + noted + next =~= before + (noted + next));
        i += 1;
    }
}

fn detect_writes(f: &PubFunc, tracer: &str, src: &[char], out: &mut Vec<Candidate>)
    requires
        f.within(src@.len() as int),
        blen(src@) <= usize::MAX,
        all_placed(views(old(out)@), src@),
    ensures
        all_placed(views(final(out)@), src@),
        views(final(out)@) == views(old(out)@) + snapshots(f@, tracer@, src@, f@.writes.len()),
{
    let ghost before = views(out@);
    assert(before + snapshots(f@, tracer@, src@, 0) =~= before);
    let mut i: usize = 0;
    while i < f.writes.len()
        invariant
            i <= f.writes@.len(),
            f.within(src@.len() as int),
            blen(src@) <= usize::MAX,
            all_placed(views(out@), src@),
            views(out@) == before + snapshots(f@, tracer@, src@, i as nat),
        decreases f.writes@.len() - i,
    {
        let ghost noted = snapshots(f@, tracer@, src@, i as nat);
        let ghost next = listed(mutation_snapshot(f@, tracer@, f@.writes[i as int], src@));
        push_listed(out, rule_mutation_snapshot(f, tracer, &f.writes[i], src), src);
        assert(before + noted + next =~= before + (noted + next));
        i += 1;
    }
}

proof fn lemma_six_parts<A>(
    s: Seq<A>,
    a: Seq<A>,
    b: Seq<A>,
    c: Seq<A>,
    d: Seq<A>,
    e: Seq<A>,
    f: Seq<A>,
)
    ensures
        s + a + b + c + d + e + f == s + (a + b + c + d + e + f),
{
    assert(s + a + b + c + d + e + f =~= s + (a + b + c + d + e + f));
}

fn detect_wraps(f: &PubFunc, a: &ActorInfo, src: &[char], out: &mut Vec<Candidate>)
    requires
        f.within(src@.len() as int),
        blen(src@) <= usize::MAX,
        all_placed(views(old(out)@), src@),
    ensures
        all_placed(views(final(out)@), src@),
        views(final(out)@) == views(old(out)@) + listed(wrap_method(f@, a@, src@)) + listed(
            wrap_method_insert_header(f@, a@, src@),
        ) + listed(entry_note(f@, a@, src@)),
{
    push_listed(out, rule_wrap_method(f, a, src), src);
    push_listed(out, rule_wrap_method_insert_header(f, a, src), src);
    push_listed(out, rule_entry_note(f, a, src), src);
}

fn detect_func(f: &PubFunc, a: &ActorInfo, src: &[char], out: &mut Vec<Candidate>)
    requires
        f.within(src@.len() as int),
        blen(src@) <= usize::MAX,
        all_placed(views(old(out)@), src@),
    ensures
        all_placed(views(final(out)@), src@),
        views(final(out)@) == views(old(out)@) + func_edits(f@, a@, src@),
{
    let ghost start = views(out@);
    detect_wraps(f, a, src, out);
    detect_traps(f, a.tracer.as_str(), src, out);
    detect_throws(f, a.tracer.as_str(), src, out);
    detect_writes(f, a.tracer.as_str(), src, out);
    proof {
        lemma_six_parts(
            start,
            listed(wrap_method(f@, a@, src@)),
            listed(wrap_method_insert_header(f@, a@, src@)),
            listed(entry_note(f@, a@, src@)),
            trap_notes(f@, a.tracer@, src@, f@.traps.len()),
            rollback_notes(f@, a.tracer@, src@, f@.throws.len()),
            snapshots(f@, a.tracer@, src@, f@.writes.len()),
        );
    }
}

/// The edits that the actor of `src` wants, by where they begin. `path` is the path to import
/// the `Trace` module by, should the import be missing. No two of them overlap, unless the
/// bootstrap rule fires on an actor that ends with an import line.
pub fn detect(src: &str, path: &str) -> (out: Vec<Candidate>)
    ensures
        views(out@) == detected(src@, path@),
        all_placed(views(out@), src@),
        imports_clear(src@) ==> first_overlap(edits_of(views(out@)), 0) is None,
{
    let chars = chars_of(src);
    let len = utf8_len(src);
    let text = chars.as_slice();
    let mut out: Vec<Candidate> = Vec::new();
    proof {
        assert(views(out@) =~= Seq::<CandidateView>::empty());
        lemma_none_placed(src@);
    }
    match parse(text) {
        Some(a) => {
            let last = last_import_end(text);
            proof {
                assert forall|k: int| 0 <= k < a@.funcs.len() implies sits(
                    #[trigger] a@.funcs[k],
                    src@,
                    a@.close,
                ) && a@.open <= a@.funcs[k].body_close by {
                    let f = a.funcs@[k];
                    assert(f.within(a.close as int));
                    lemma_sits(f, src@, a.close as int);
                    assert(a@.funcs[k] == f@);
                }
                if imports_clear(src@) {
                    lemma_detected_apart(a@, src@, path@);
                }
            }
            push_listed(&mut out, rule_bootstrap(&a, text, path), text);
            let ghost before = views(out@);
            assert(before =~= listed(bootstrap(a@, src@, path@)));
            assert(before + funcs_edits(a@, src@, 0) =~= before);
            let mut i: usize = 0;
            while i < a.funcs.len()
                invariant
                    i <= a.funcs@.len(),
                    text@ == src@,
                    blen(src@) <= usize::MAX,
                    all_placed(views(out@), src@),
                    forall|k: int|
                        0 <= k < a.funcs@.len() ==> (#[trigger] a.funcs@[k]).within(
                            src@.len() as int,
                        ),
                    views(out@) == before + funcs_edits(a@, src@, i as nat),
                decreases a.funcs@.len() - i,
            {
                let ghost done = funcs_edits(a@, src@, i as nat);
                let ghost next = func_edits(a@.funcs[i as int], a@, src@);
                detect_func(&a.funcs[i], &a, text, &mut out);
                assert(before + done + next =~= before + (done + next));
                i += 1;
            }
        },
        None => {
            assert(edits_of(detected(src@, path@)).len() == 0);
        },
    }
    proof {
        lemma_sorted_placed(views(out@), src@);
    }
    sort_by_place(out)
}

} // verus!
