//! Showing how recorded state changes.

use vstd::prelude::*;
use vstd::string::*;

use crate::diff::{
    deltas_view, initials_view, transitions_view, Delta, DeltaView, Initial, InitialView,
    Snapshot, Transition, TransitionView,
};
use crate::groups::{groups_view, Group, GroupView};
use crate::text::{dec, decimal, same_text, short_name, short_principal};

verus! {

/// A difference as a line.
pub open spec fn delta_line(d: DeltaView) -> Seq<char> {
    match d {
        DeltaView::Added { path, value } => "    + "@ + path + " = "@ + value + "\n"@,
        DeltaView::Removed { path, value } => "    - "@ + path + " = "@ + value + "\n"@,
        DeltaView::Changed { path, from, to } => "    ~ "@ + path + ": "@ + from + " → "@ + to
            + "\n"@,
    }
}

/// The first `n` differences, a line each.
pub open spec fn delta_lines(ds: Seq<DeltaView>, n: nat) -> Seq<char>
    decreases n,
{
    if n == 0 || n > ds.len() {
        Seq::empty()
    } else {
        delta_lines(ds, (n - 1) as nat) + delta_line(ds[n - 1])
    }
}

/// A transition as lines.
pub open spec fn transition_lines(t: TransitionView) -> Seq<char> {
    let head = "  seq "@ + dec(t.from_seq as nat) + " → "@ + dec(t.to_seq as nat);
    if t.deltas.len() == 0 {
        head + ": (no structural change)\n"@
    } else {
        head + ":\n"@ + delta_lines(t.deltas, t.deltas.len())
    }
}

fn show_delta(d: &Delta) -> (r: String)
    ensures
        r@ == delta_line(d@),
{
    match d {
        Delta::Added { path, value } => {
            let mut out = String::from_str("    + ");
            out.append(path.as_str());
            out.append(" = ");
            out.append(value.as_str());
            out.append("\n");
            out
        },
        Delta::Removed { path, value } => {
            let mut out = String::from_str("    - ");
            out.append(path.as_str());
            out.append(" = ");
            out.append(value.as_str());
            out.append("\n");
            out
        },
        Delta::Changed { path, from, to } => {
            let mut out = String::from_str("    ~ ");
            out.append(path.as_str());
            out.append(": ");
            out.append(from.as_str());
            out.append(" → ");
            out.append(to.as_str());
            out.append("\n");
            out
        },
    }
}

/// A transition as lines.
pub fn show_transition(t: &Transition) -> (r: String)
    ensures
        r@ == transition_lines(t@),
{
    let mut out = String::from_str("  seq ");
    out.append(decimal(t.from_seq as u128).as_str());
    out.append(" → ");
    out.append(decimal(t.to_seq as u128).as_str());
    if t.deltas.len() == 0 {
        out.append(": (no structural change)\n");
        return out;
    }
    out.append(":\n");
    let ghost head = out@;
    let ghost all = deltas_view(t.deltas@);
    assert(head + delta_lines(all, 0) =~= head);
    let mut i: usize = 0;
    while i < t.deltas.len()
        invariant
            i <= t.deltas@.len(),
            all == deltas_view(t.deltas@),
            out@ == head + delta_lines(all, i as nat),
        decreases t.deltas@.len() - i,
    {
        let ghost before = delta_lines(all, i as nat);
        assert(all[i as int] == t.deltas@[i as int]@);
        out.append(show_delta(&t.deltas[i]).as_str());
        assert(head + before + delta_line(all[i as int]) =~= head + (before + delta_line(
            all[i as int],
        )));
        i += 1;
    }
    out
}

/// Those of the first `n` transitions that are of the canister and the key, as lines.
pub open spec fn lines_of_group(
    ts: Seq<TransitionView>,
    canister: Seq<char>,
    key: Seq<char>,
    n: nat,
) -> Seq<char>
    decreases n,
{
    if n == 0 || n > ts.len() {
        Seq::empty()
    } else {
        let before = lines_of_group(ts, canister, key, (n - 1) as nat);
        if ts[n - 1].canister == canister && ts[n - 1].key == key {
            before + transition_lines(ts[n - 1])
        } else {
            before
        }
    }
}

/// One of the first `n` transitions is of the canister and the key.
pub open spec fn has_transition(
    ts: Seq<TransitionView>,
    canister: Seq<char>,
    key: Seq<char>,
    n: nat,
) -> bool
    decreases n,
{
    if n == 0 || n > ts.len() {
        false
    } else {
        has_transition(ts, canister, key, (n - 1) as nat) || (ts[n - 1].canister == canister
            && ts[n - 1].key == key)
    }
}

/// The first only snapshot at or after `i` of the canister and the key.
pub open spec fn initial_of(
    is: Seq<InitialView>,
    canister: Seq<char>,
    key: Seq<char>,
    i: int,
) -> Option<InitialView>
    decreases is.len() - i,
{
    if i < 0 || i >= is.len() {
        None
    } else if is[i].canister == canister && is[i].key == key {
        Some(is[i])
    } else {
        initial_of(is, canister, key, i + 1)
    }
}

/// A group as lines: its transitions, or its only snapshot.
pub open spec fn group_lines(
    g: GroupView<Snapshot>,
    ts: Seq<TransitionView>,
    is: Seq<InitialView>,
) -> Seq<char> {
    "["@ + short_name(g.a) + "] "@ + g.b + "  ("@ + dec(g.items.len()) + " snapshot(s))\n"@ + (
    if has_transition(ts, g.a, g.b, ts.len()) {
        lines_of_group(ts, g.a, g.b, ts.len())
    } else {
        match initial_of(is, g.a, g.b, 0) {
            Some(i) => "  · initial @ seq="@ + dec(i.seq as nat) + ": "@ + i.value + "\n"@,
            None => Seq::empty(),
        }
    }) + "\n"@
}

/// The first `n` groups as lines.
pub open spec fn groups_lines(
    gs: Seq<GroupView<Snapshot>>,
    ts: Seq<TransitionView>,
    is: Seq<InitialView>,
    n: nat,
) -> Seq<char>
    decreases n,
{
    if n == 0 || n > gs.len() {
        Seq::empty()
    } else {
        groups_lines(gs, ts, is, (n - 1) as nat) + group_lines(gs[n - 1], ts, is)
    }
}

/// The walk over a trace as text.
pub open spec fn walk_text(
    trace: Seq<char>,
    gs: Seq<GroupView<Snapshot>>,
    ts: Seq<TransitionView>,
    is: Seq<InitialView>,
) -> Seq<char> {
    "═══ state transitions in trace "@ + trace + " ═══\n  "@ + dec(gs.len())
        + " snapshot group(s) · "@ + dec(ts.len()) + " transition(s) · "@ + dec(is.len())
        + " single-snapshot(s)\n\n"@ + groups_lines(gs, ts, is, gs.len())
}

fn show_transitions_of(ts: &Vec<Transition>, canister: &str, key: &str) -> (r: (String, bool))
    ensures
        r.0@ == lines_of_group(transitions_view(ts@), canister@, key@, ts@.len()),
        r.1 == has_transition(transitions_view(ts@), canister@, key@, ts@.len()),
{
    let ghost all = transitions_view(ts@);
    let mut out = String::new();
    let mut any = false;
    let mut i: usize = 0;
    while i < ts.len()
        invariant
            i <= ts@.len(),
            all == transitions_view(ts@),
            out@ == lines_of_group(all, canister@, key@, i as nat),
            any == has_transition(all, canister@, key@, i as nat),
        decreases ts@.len() - i,
    {
        let t = &ts[i];
        assert(all[i as int] == t@);
        if same_text(t.canister.as_str(), canister) && same_text(t.key.as_str(), key) {
            out.append(show_transition(t).as_str());
            any = true;
        }
        i += 1;
    }
    (out, any)
}

fn find_initial<'a>(is: &'a Vec<Initial>, canister: &str, key: &str) -> (r: Option<&'a Initial>)
    ensures
        match r {
            Some(i) => initial_of(initials_view(is@), canister@, key@, 0) == Some(i@),
            None => initial_of(initials_view(is@), canister@, key@, 0) is None,
        },
{
    let ghost all = initials_view(is@);
    let mut i: usize = 0;
    while i < is.len()
        invariant
            i <= is@.len(),
            all == initials_view(is@),
            initial_of(all, canister@, key@, 0) == initial_of(all, canister@, key@, i as int),
        decreases is@.len() - i,
    {
        assert(all[i as int] == is@[i as int]@);
        if same_text(is[i].canister.as_str(), canister) && same_text(is[i].key.as_str(), key) {
            return Some(&is[i]);
        }
        i += 1;
    }
    None
}

fn show_group(g: &Group<Snapshot>, ts: &Vec<Transition>, is: &Vec<Initial>) -> (r: String)
    ensures
        r@ == group_lines(g@, transitions_view(ts@), initials_view(is@)),
{
    let mut out = String::from_str("[");
    out.append(short_principal(g.a.as_str()).as_str());
    out.append("] ");
    out.append(g.b.as_str());
    out.append("  (");
    out.append(decimal(g.items.len() as u128).as_str());
    out.append(" snapshot(s))\n");
    let mut body = String::new();
    let (lines, any) = show_transitions_of(ts, g.a.as_str(), g.b.as_str());
    if any {
        body = lines;
    } else {
        match find_initial(is, g.a.as_str(), g.b.as_str()) {
            Some(i) => {
                body = String::from_str("  · initial @ seq=");
                body.append(decimal(i.seq as u128).as_str());
                body.append(": ");
                body.append(i.value.as_str());
                body.append("\n");
            },
            None => {},
        }
    }
    out.append(body.as_str());
    out.append("\n");
    out
}

/// The walk over a trace as text.
pub fn render_walk(
    trace: &str,
    grouped: &Vec<Group<Snapshot>>,
    ts: &Vec<Transition>,
    is: &Vec<Initial>,
) -> (r: String)
    ensures
        r@ == walk_text(
            trace@,
            groups_view(grouped@),
            transitions_view(ts@),
            initials_view(is@),
        ),
{
    let mut out = String::from_str("═══ state transitions in trace ");
    out.append(trace);
    out.append(" ═══\n  ");
    out.append(decimal(grouped.len() as u128).as_str());
    out.append(" snapshot group(s) · ");
    out.append(decimal(ts.len() as u128).as_str());
    out.append(" transition(s) · ");
    out.append(decimal(is.len() as u128).as_str());
    out.append(" single-snapshot(s)\n\n");
    let ghost head = out@;
    let ghost all = groups_view(grouped@);
    let ghost tv = transitions_view(ts@);
    let ghost iv = initials_view(is@);
    assert(head + groups_lines(all, tv, iv, 0) =~= head);
    let mut i: usize = 0;
    while i < grouped.len()
        invariant
            i <= grouped@.len(),
            all == groups_view(grouped@),
            tv == transitions_view(ts@),
            iv == initials_view(is@),
            out@ == head + groups_lines(all, tv, iv, i as nat),
        decreases grouped@.len() - i,
    {
        let ghost before = groups_lines(all, tv, iv, i as nat);
        assert(all[i as int] == grouped@[i as int]@);
        out.append(show_group(&grouped[i], ts, is).as_str());
        assert(head + before + group_lines(all[i as int], tv, iv) =~= head + (before + group_lines(
            all[i as int],
            tv,
            iv,
        )));
        i += 1;
    }
    out
}

} // verus!
