//! The edits that one pass over an actor finds do not overlap.

use vstd::prelude::*;

use crate::instrument::edit::{
    clear, edits_of, first_overlap, flat_of, keeps_clear, law_clear_edits_do_not_overlap,
    lemma_clear, FlatView,
};
use crate::instrument::gather::listed;
use crate::instrument::motoko::actor::{actor_of, ActorView};
use crate::instrument::motoko::body::entry_place;
use crate::instrument::motoko::funcs::{after_semis, FuncView, PubFunc};
use crate::instrument::motoko::imports::imports_end;
use crate::instrument::motoko::rules::{
    blanks_start, body_of, bootstrap, entry_note, exit_place, mutation_snapshot,
    rollback_note, trap_note, wrap_method, wrap_method_insert_header,
};
use crate::instrument::motoko::scan::{
    find_name, last_semi, lemma_find_name, lemma_matching, mask, matching,
};
use crate::instrument::motoko::{
    detected, found, func_edits, funcs_edits, rollback_notes, snapshots, trap_notes,
};
use crate::instrument::{by_place, candidate_key, CandidateView, Rule};
use crate::order::{at_most_one, law_sorted_has, lemma_sorted_one};
use crate::text::{blen, byte_at, lemma_byte_at, lemma_line_start, line_start};

verus! {

/// The bootstrap rule, where it fires, does not put the line for the import into the white space
/// that the actor ends with. It would where the actor ends with an import line, which no actor may
/// hold.
pub open spec fn imports_clear(src: Seq<char>) -> bool {
    match actor_of(src) {
        Some(a) => a.has_tracer || a.funcs.len() == 0 || a.has_import || a.has_drain || imports_end(
            src,
        ) < blanks_start(src, 0, a.close) || a.close <= imports_end(src),
        None => true,
    }
}

/// The function's places lie in its actor, whose body ends at `close`.
pub open spec fn sits(f: FuncView, src: Seq<char>, close: int) -> bool {
    &&& 0 <= f.params_open <= f.body_open < f.body_close < close <= src.len()
    &&& src[f.body_close] == '}'
    &&& forall|k: int|
        0 <= k < f.traps.len() ==> 0 <= #[trigger] f.traps[k] && f.body_open + 1 + f.traps[k]
            < f.body_close
    &&& forall|k: int|
        0 <= k < f.throws.len() ==> 0 <= #[trigger] f.throws[k] && f.body_open + 1 + f.throws[k]
            < f.body_close
    &&& forall|k: int|
        0 <= k < f.writes.len() ==> 0 <= (#[trigger] f.writes[k]).end && f.body_open + 1
            + f.writes[k].end <= f.body_close
}

pub proof fn lemma_sits(f: PubFunc, src: Seq<char>, close: int)
    requires
        f.within(close),
        close <= src.len(),
        src[f.body_close as int] == '}',
    ensures
        sits(f@, src, close),
{
    assert forall|k: int| 0 <= k < f@.traps.len() implies 0 <= #[trigger] f@.traps[k]
        && f@.body_open + 1 + f@.traps[k] < f@.body_close by {
        assert(f@.traps[k] == f.traps@[k]);
    }
    assert forall|k: int| 0 <= k < f@.throws.len() implies 0 <= #[trigger] f@.throws[k]
        && f@.body_open + 1 + f@.throws[k] < f@.body_close by {
        assert(f@.throws[k] == f.throws@[k]);
    }
    assert forall|k: int| 0 <= k < f@.writes.len() implies 0 <= (#[trigger] f@.writes[k]).end
        && f@.body_open + 1 + f@.writes[k].end <= f@.body_close by {
        assert(f@.writes[k] == f.writes@[k]@);
    }
}

/// Every candidate keeps clear, and none is the bootstrap.
#[verifier::opaque]
spec fn all_clear(cs: Seq<CandidateView>, at: int, to: int) -> bool {
    forall|i: int|
        0 <= i < cs.len() ==> keeps_clear(#[trigger] cs[i], at, to) && cs[i].rule
            != Rule::MoBootstrap
}

proof fn lemma_all_clear(x: Seq<CandidateView>, y: Seq<CandidateView>, at: int, to: int)
    requires
        all_clear(x, at, to),
        all_clear(y, at, to),
    ensures
        all_clear(x + y, at, to),
{
    reveal(all_clear);
}

proof fn lemma_none_clear(at: int, to: int)
    ensures
        all_clear(Seq::empty(), at, to),
{
    reveal(all_clear);
}

proof fn lemma_listed_clear(c: Option<CandidateView>, at: int, to: int)
    requires
        c matches Some(c) ==> keeps_clear(c, at, to) && c.rule != Rule::MoBootstrap,
    ensures
        all_clear(listed(c), at, to),
{
    reveal(all_clear);
}

proof fn lemma_last_semi(s: Seq<char>, m: Seq<bool>, i: int, depth: int)
    ensures
        last_semi(s, m, i, depth) matches Some(k) ==> 0 <= k < i <= s.len(),
    decreases i,
{
    if 0 < i <= s.len() {
        lemma_last_semi(s, m, i - 1, depth);
        lemma_last_semi(s, m, i - 1, depth + 1);
        lemma_last_semi(s, m, i - 1, depth - 1);
    }
}

proof fn lemma_after_semis(s: Seq<char>, i: int)
    requires
        0 <= i <= s.len(),
    ensures
        i <= after_semis(s, i) <= s.len(),
    decreases s.len() - i,
{
    if i < s.len() && (s[i] == ';' || s[i] == ' ') {
        lemma_after_semis(s, i + 1);
    }
}

proof fn lemma_entry_place(body: Seq<char>, tracer: Seq<char>)
    ensures
        entry_place(body, tracer) matches Some(k) ==> 0 <= k <= body.len(),
{
    let p = tracer + ".methodEntered("@;
    lemma_find_name(body, mask(body), p, 0);
    if let Some(at) = find_name(body, mask(body), p, 0) {
        lemma_matching(body, mask(body), '(', ')', at + p.len() - 1);
        if let Some(close) = matching(body, mask(body), '(', ')', at + p.len() - 1) {
            lemma_after_semis(body, close + 1);
        }
    }
}

proof fn lemma_wraps_clear(f: FuncView, a: ActorView, src: Seq<char>, close: int, at: int, to: int)
    requires
        sits(f, src, close),
        byte_at(src, f.body_close) < at,
    ensures
        all_clear(
            listed(wrap_method(f, a, src)) + listed(wrap_method_insert_header(f, a, src)) + listed(
                entry_note(f, a, src),
            ),
            at,
            to,
        ),
{
    let body = body_of(f, src);
    lemma_last_semi(body, mask(body), body.len() as int, 0);
    lemma_entry_place(body, a.tracer);
    lemma_byte_at(src, f.body_open + 1, f.body_close);
    lemma_byte_at(src, exit_place(f, src), f.body_close);
    lemma_byte_at(src, f.params_open, f.body_close);
    if let Some(k) = entry_place(body, a.tracer) {
        lemma_byte_at(src, f.body_open + 1 + k, f.body_close);
    }
    let x = wrap_method(f, a, src);
    let y = wrap_method_insert_header(f, a, src);
    let z = entry_note(f, a, src);
    lemma_listed_clear(x, at, to);
    lemma_listed_clear(y, at, to);
    lemma_listed_clear(z, at, to);
    lemma_all_clear(listed(x), listed(y), at, to);
    lemma_all_clear(listed(x) + listed(y), listed(z), at, to);
}

proof fn lemma_traps_clear(
    f: FuncView,
    tracer: Seq<char>,
    src: Seq<char>,
    close: int,
    at: int,
    to: int,
    n: nat,
)
    requires
        sits(f, src, close),
        byte_at(src, f.body_close) < at,
        n <= f.traps.len(),
    ensures
        all_clear(trap_notes(f, tracer, src, n), at, to),
    decreases n,
{
    lemma_none_clear(at, to);
    if n > 0 {
        let m = (n - 1) as nat;
        let place = f.body_open + 1 + f.traps[n - 1];
        lemma_traps_clear(f, tracer, src, close, at, to, m);
        lemma_line_start(src, place);
        lemma_byte_at(src, line_start(src, place), f.body_close);
        let c = trap_note(f, tracer, f.traps[n - 1], src);
        lemma_listed_clear(c, at, to);
        lemma_all_clear(trap_notes(f, tracer, src, m), listed(c), at, to);
    }
}

proof fn lemma_throws_clear(
    f: FuncView,
    tracer: Seq<char>,
    src: Seq<char>,
    close: int,
    at: int,
    to: int,
    n: nat,
)
    requires
        sits(f, src, close),
        byte_at(src, f.body_close) < at,
        n <= f.throws.len(),
    ensures
        all_clear(rollback_notes(f, tracer, src, n), at, to),
    decreases n,
{
    lemma_none_clear(at, to);
    if n > 0 {
        let m = (n - 1) as nat;
        let place = f.body_open + 1 + f.throws[n - 1];
        lemma_throws_clear(f, tracer, src, close, at, to, m);
        lemma_line_start(src, place);
        lemma_byte_at(src, line_start(src, place), f.body_close);
        let c = rollback_note(f, tracer, f.throws[n - 1], src);
        lemma_listed_clear(c, at, to);
        lemma_all_clear(rollback_notes(f, tracer, src, m), listed(c), at, to);
    }
}

proof fn lemma_writes_clear(
    f: FuncView,
    tracer: Seq<char>,
    src: Seq<char>,
    close: int,
    at: int,
    to: int,
    n: nat,
)
    requires
        sits(f, src, close),
        byte_at(src, f.body_close) < at,
        n <= f.writes.len(),
    ensures
        all_clear(snapshots(f, tracer, src, n), at, to),
    decreases n,
{
    lemma_none_clear(at, to);
    if n > 0 {
        let m = (n - 1) as nat;
        lemma_writes_clear(f, tracer, src, close, at, to, m);
        lemma_byte_at(src, f.body_open + 1 + f.writes[n - 1].end, f.body_close);
        let c = mutation_snapshot(f, tracer, f.writes[n - 1], src);
        lemma_listed_clear(c, at, to);
        lemma_all_clear(snapshots(f, tracer, src, m), listed(c), at, to);
    }
}

proof fn lemma_funcs_clear(a: ActorView, src: Seq<char>, at: int, to: int, n: nat)
    requires
        n <= a.funcs.len(),
        forall|k: int|
            0 <= k < a.funcs.len() ==> sits(#[trigger] a.funcs[k], src, a.close) && byte_at(
                src,
                a.funcs[k].body_close,
            ) < at,
    ensures
        all_clear(funcs_edits(a, src, n), at, to),
    decreases n,
{
    lemma_none_clear(at, to);
    if n > 0 {
        let m = (n - 1) as nat;
        let f = a.funcs[n - 1];
        let w = listed(wrap_method(f, a, src)) + listed(wrap_method_insert_header(f, a, src))
            + listed(entry_note(f, a, src));
        let t = trap_notes(f, a.tracer, src, f.traps.len());
        let r = rollback_notes(f, a.tracer, src, f.throws.len());
        let s = snapshots(f, a.tracer, src, f.writes.len());
        lemma_funcs_clear(a, src, at, to, m);
        lemma_wraps_clear(f, a, src, a.close, at, to);
        lemma_traps_clear(f, a.tracer, src, a.close, at, to, f.traps.len());
        lemma_throws_clear(f, a.tracer, src, a.close, at, to, f.throws.len());
        lemma_writes_clear(f, a.tracer, src, a.close, at, to, f.writes.len());
        lemma_all_clear(w, t, at, to);
        lemma_all_clear(w + t, r, at, to);
        lemma_all_clear(w + t + r, s, at, to);
        lemma_all_clear(funcs_edits(a, src, m), func_edits(f, a, src), at, to);
    }
}

proof fn lemma_blanks(s: Seq<char>, n: int)
    requires
        0 <= n <= s.len(),
    ensures
        0 <= blanks_start(s, 0, n) <= n,
        forall|k: int| blanks_start(s, 0, n) <= k < n ==> #[trigger] s[k] != '}',
    decreases n,
{
    if 0 < n && (s[n - 1] == ' ' || s[n - 1] == '\t' || s[n - 1] == '\n') {
        lemma_blanks(s, n - 1);
    }
}

/// Where the edit that is no insertion begins, or else the end of the file.
spec fn last_place(a: ActorView, src: Seq<char>) -> int {
    if a.has_drain {
        blen(src) as int + 1
    } else {
        byte_at(src, blanks_start(src, 0, a.close)) as int
    }
}

/// Where that edit ends.
spec fn last_end(a: ActorView, src: Seq<char>) -> int {
    if a.has_drain {
        blen(src) as int + 1
    } else {
        byte_at(src, a.close) as int
    }
}

proof fn lemma_bootstrap_apart(a: ActorView, src: Seq<char>, path: Seq<char>)
    requires
        bootstrap(a, src, path) is Some,
        0 <= a.open <= a.close <= src.len(),
        0 <= imports_end(src) <= src.len(),
        a.has_import || a.has_drain || imports_end(src) < blanks_start(src, 0, a.close) || a.close
            <= imports_end(src),
        a.has_drain || a.open < blanks_start(src, 0, a.close),
    ensures
        clear(flat_of(bootstrap(a, src, path)->0), last_place(a, src), last_end(a, src)),
{
    let c = bootstrap(a, src, path)->0;
    let es = flat_of(c);
    let at = last_place(a, src);
    let to = last_end(a, src);
    let b = blanks_start(src, 0, a.close);
    lemma_blanks(src, a.close);
    lemma_byte_at(src, a.open, src.len() as int);
    lemma_byte_at(src, imports_end(src), src.len() as int);
    if !a.has_drain {
        lemma_byte_at(src, a.open, b);
        lemma_byte_at(src, b, a.close);
        if !a.has_import {
            if imports_end(src) < b {
                lemma_byte_at(src, imports_end(src), b);
            } else {
                lemma_byte_at(src, a.close, imports_end(src));
            }
        }
    }
    let p = |e: FlatView| e.start != e.end;
    assert forall|i: int, j: int| 0 <= i < j < es.len() implies !(p(#[trigger] es[i]) && p(
        #[trigger] es[j],
    )) by {
        assert(i < es.len() - 1);
        assert(es[i].start == es[i].end);
    }
}

/// What one pass finds does not overlap.
pub proof fn lemma_detected_apart(a: ActorView, src: Seq<char>, path: Seq<char>)
    requires
        actor_of(src) == Some(a),
        imports_clear(src),
        0 <= a.open <= a.close <= src.len(),
        0 <= imports_end(src) <= src.len(),
        forall|k: int|
            0 <= k < a.funcs.len() ==> sits(#[trigger] a.funcs[k], src, a.close) && a.open
                <= a.funcs[k].body_close,
    ensures
        first_overlap(edits_of(detected(src, path)), 0) is None,
{
    reveal(all_clear);
    let at = last_place(a, src);
    let to = last_end(a, src);
    let b = blanks_start(src, 0, a.close);
    lemma_blanks(src, a.close);
    assert forall|k: int| 0 <= k < a.funcs.len() implies sits(#[trigger] a.funcs[k], src, a.close)
        && byte_at(src, a.funcs[k].body_close) < at by {
        let f = a.funcs[k];
        assert(src[f.body_close] == '}');
        assert(f.body_close < b);
        lemma_byte_at(src, f.body_close, b);
        lemma_byte_at(src, b, src.len() as int);
    }
    lemma_funcs_clear(a, src, at, to, a.funcs.len());
    let boot = listed(bootstrap(a, src, path));
    let rest = funcs_edits(a, src, a.funcs.len());
    let all = found(src, path);
    assert(all == boot + rest);
    if bootstrap(a, src, path) is Some {
        assert(sits(a.funcs[0], src, a.close));
        assert(src[a.funcs[0].body_close] == '}');
        lemma_bootstrap_apart(a, src, path);
    }
    let one = |c: CandidateView| c.rule == Rule::MoBootstrap;
    assert forall|i: int| 0 <= i < all.len() implies keeps_clear(#[trigger] all[i], at, to) || (
    all[i].rule == Rule::MoBootstrap && clear(flat_of(all[i]), at, to)) by {
        if i >= boot.len() {
            assert(all[i] == rest[i - boot.len()]);
        }
    }
    assert(at_most_one(all, one)) by {
        assert forall|i: int, j: int| 0 <= i < j < all.len() implies !(one(#[trigger] all[i])
            && one(#[trigger] all[j])) by {
            assert(all[j] == rest[j - boot.len()]);
        }
    }
    let cs = by_place(all);
    law_sorted_has(all, candidate_key());
    lemma_sorted_one(all, candidate_key(), one, all.len());
    assert forall|i: int| 0 <= i < cs.len() implies keeps_clear(#[trigger] cs[i], at, to) || (
    cs[i].rule == Rule::MoBootstrap && clear(flat_of(cs[i]), at, to)) by {
        assert(all.contains(cs[i]));
    }
    lemma_clear(cs, Rule::MoBootstrap, at, to, cs.len());
    law_clear_edits_do_not_overlap(cs, at, to);
}

} // verus!
