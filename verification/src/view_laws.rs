//! What is shown of a timeline and of a walk.

use vstd::prelude::*;
use vstd::string::*;

use crate::diff::{DeltaView, InitialView, Snapshot, TransitionView};
use crate::diff_view::{
    delta_lines, group_lines, groups_lines, has_transition, initial_of, lines_of_group,
    transition_lines,
};
use crate::event::EventKind;
use crate::groups::GroupView;
use crate::replay::{EventRow, TraceSummary};
use crate::replay_view::{
    arg_texts, args_text, canister_lines, depth, event_line, filled, footer_text, header_text,
    kind_text, parent_text, repeated, shown_depth, three_digits,
};
use crate::text::{dec, hex_head, joined, padded, short_name, texts};

verus! {

// ---------- What happened ----------

/// What happened was refused: a method or a call came to its end with a reject.
pub open spec fn is_refused(k: EventKind) -> bool {
    (k matches EventKind::MethodExited { reject: Some(_) }) || (
    k matches EventKind::CallReturned { reject: Some(_) })
}

/// A reject is marked with a cross, and nothing else is.
pub proof fn law_rejects_are_marked(k: EventKind, decode: bool)
    ensures
        kind_text(k, decode).len() > 0,
        kind_text(k, decode)[0] == '✗' <==> is_refused(k),
{
    reveal_strlit("▶ INGRESS ");
    reveal_strlit("▶ ENTER   ");
    reveal_strlit("◀ EXIT");
    reveal_strlit("✗ EXIT    reject=");
    reveal_strlit("→ CALL    ");
    reveal_strlit("← RET     ok");
    reveal_strlit("✗ RET     reject=");
    reveal_strlit("• STATE   ");
    reveal_strlit("⏰ TIMER  ");
    reveal_strlit("· NOTE    ");
}

/// `s` begins with `p`.
pub open spec fn begins(s: Seq<char>, p: Seq<char>) -> bool {
    p.len() <= s.len() && s.subrange(0, p.len() as int) == p
}

/// `s` ends with `p`.
pub open spec fn ends(s: Seq<char>, p: Seq<char>) -> bool {
    p.len() <= s.len() && s.subrange(s.len() - p.len(), s.len() as int) == p
}

proof fn lemma_begins(p: Seq<char>, t: Seq<char>)
    ensures
        begins(p + t, p),
{
    assert((p + t).subrange(0, p.len() as int) =~= p);
}

proof fn lemma_ends(t: Seq<char>, p: Seq<char>)
    ensures
        ends(t + p, p),
{
    assert((t + p).subrange(t.len() as int, (t + p).len() as int) =~= p);
}

/// What is shown says what happened, and to what: the method, the label or the key comes first, and
/// who called, or why it was refused, comes last.
pub proof fn law_text_tells_what_happened(k: EventKind, decode: bool)
    ensures
        ({
            let t = kind_text(k, decode);
            match k {
                EventKind::IngressEntered { method, caller, .. } => begins(
                    t,
                    "▶ INGRESS "@ + method@,
                ) && ends(t, "  caller="@ + short_name(caller@)),
                EventKind::MethodEntered { method, caller, .. } => begins(
                    t,
                    "▶ ENTER   "@ + method@,
                ) && ends(t, "  caller="@ + short_name(caller@)),
                EventKind::MethodExited { reject } => match reject {
                    Some(r) => ends(t, "reject="@ + r@),
                    None => t == "◀ EXIT"@,
                },
                EventKind::CallSpawned { target, method, .. } => begins(
                    t,
                    "→ CALL    "@ + method@ + " on "@ + short_name(target@),
                ),
                EventKind::CallReturned { reject } => match reject {
                    Some(r) => ends(t, "reject="@ + r@),
                    None => t == "← RET     ok"@,
                },
                EventKind::StateSnapshot { key, .. } => begins(t, "• STATE   "@ + key@),
                EventKind::TimerFired { label } => t == "⏰ TIMER  "@ + label@,
                EventKind::Note { label } => t == "· NOTE    "@ + label@,
            }
        }),
{
    let t = kind_text(k, decode);
    match k {
        EventKind::IngressEntered { method, caller, .. } => {
            let p = "▶ INGRESS "@ + method@;
            let q = "  caller="@ + short_name(caller@);
            assert(t =~= p + q);
            lemma_begins(p, q);
            lemma_ends(p, q);
        },
        EventKind::MethodEntered { method, caller, args } => {
            let p = "▶ ENTER   "@ + method@;
            let a = args_text(args@);
            let q = "  caller="@ + short_name(caller@);
            assert(t =~= p + (a + q));
            assert(t =~= p + a + q);
            lemma_begins(p, a + q);
            lemma_ends(p + a, q);
        },
        EventKind::MethodExited { reject } => {
            if let Some(r) = reject {
                reveal_strlit("✗ EXIT    reject=");
                reveal_strlit("✗ EXIT    ");
                reveal_strlit("reject=");
                assert("✗ EXIT    reject="@ =~= "✗ EXIT    "@ + "reject="@);
                assert(t =~= "✗ EXIT    "@ + ("reject="@ + r@));
                lemma_ends("✗ EXIT    "@, "reject="@ + r@);
            }
        },
        EventKind::CallSpawned { target, method, args_hash } => {
            let p = "→ CALL    "@ + method@ + " on "@ + short_name(target@);
            let q = "  args_hash="@ + hex_head(args_hash@, 4);
            assert(t =~= p + q);
            lemma_begins(p, q);
        },
        EventKind::CallReturned { reject } => {
            if let Some(r) = reject {
                reveal_strlit("✗ RET     reject=");
                reveal_strlit("✗ RET     ");
                reveal_strlit("reject=");
                assert("✗ RET     reject="@ =~= "✗ RET     "@ + "reject="@);
                assert(t =~= "✗ RET     "@ + ("reject="@ + r@));
                lemma_ends("✗ RET     "@, "reject="@ + r@);
            }
        },
        EventKind::StateSnapshot { key, cbor } => {
            let p = "• STATE   "@ + key@;
            assert(t.subrange(0, p.len() as int) =~= p);
        },
        _ => {},
    }
}

// ---------- Depth ----------

/// The event begins a method of the canister.
pub open spec fn begins_method(e: EventRow, canister: Seq<char>) -> bool {
    e.canister@ == canister && (e.kind is MethodEntered || e.kind is IngressEntered)
}

/// The event ends a method of the canister.
pub open spec fn ends_method(e: EventRow, canister: Seq<char>) -> bool {
    e.canister@ == canister && e.kind is MethodExited
}

/// One method more of a canister is under way once it begins, and one less once it ends, where one
/// is; whatever else happens, in it or in another canister, leaves their number.
pub proof fn law_methods_under_way(es: Seq<EventRow>, canister: Seq<char>, n: nat)
    requires
        n < es.len(),
    ensures
        depth(es, canister, 0) == 0,
        begins_method(es[n as int], canister) ==> depth(es, canister, n + 1) == depth(
            es,
            canister,
            n,
        ) + 1,
        ends_method(es[n as int], canister) && depth(es, canister, n) > 0 ==> depth(
            es,
            canister,
            n + 1,
        ) == depth(es, canister, n) - 1,
        ends_method(es[n as int], canister) && depth(es, canister, n) == 0 ==> depth(
            es,
            canister,
            n + 1,
        ) == 0,
        !begins_method(es[n as int], canister) && !ends_method(es[n as int], canister) ==> depth(
            es,
            canister,
            n + 1,
        ) == depth(es, canister, n),
{
}

proof fn lemma_same_depth(es: Seq<EventRow>, canister: Seq<char>, i: int, j: int)
    requires
        0 <= i <= j <= es.len(),
        forall|k: int|
            i <= k < j ==> !begins_method(#[trigger] es[k], canister) && !ends_method(
                es[k],
                canister,
            ),
    ensures
        depth(es, canister, j as nat) == depth(es, canister, i as nat),
    decreases j - i,
{
    if i < j {
        lemma_same_depth(es, canister, i, j - 1);
        assert(!begins_method(es[j - 1], canister) && !ends_method(es[j - 1], canister));
    }
}

/// The end of a method stands as deep as its beginning, and what its canister does between stands
/// one deeper, whatever it is; other canisters do not count.
pub proof fn law_end_stands_as_deep_as_beginning(es: Seq<EventRow>, i: int, k: int, j: int)
    requires
        0 <= i < k <= j < es.len(),
        begins_method(es[i], es[i].canister@),
        ends_method(es[j], es[i].canister@),
        es[k].canister@ == es[i].canister@,
        forall|x: int|
            i < x < j ==> !begins_method(#[trigger] es[x], es[i].canister@) && !ends_method(
                es[x],
                es[i].canister@,
            ),
    ensures
        shown_depth(es, j) == shown_depth(es, i),
        k < j ==> shown_depth(es, k) == shown_depth(es, i) + 1,
{
    let c = es[i].canister@;
    lemma_same_depth(es, c, i + 1, j);
    lemma_same_depth(es, c, i + 1, k);
    law_methods_under_way(es, c, i as nat);
    if k < j {
        assert(!ends_method(es[k], c));
    }
}

/// The line of an event begins with its number and how long after the first event it came, in
/// thousandths of a thousandth of a second, and ends with what happened, as deep as it stands.
pub proof fn law_line_of_an_event(es: Seq<EventRow>, i: int, decode: bool)
    requires
        0 <= i < es.len(),
        es[0].ts_nanos <= es[i].ts_nanos,
    ensures
        begins(
            event_line(es, i, decode),
            "#"@ + three_digits(es[i].idx as nat) + " +"@ + padded(
                dec(((es[i].ts_nanos - es[0].ts_nanos) / 1000) as nat),
                6,
            ) + "µs ["@ + short_name(es[i].canister@),
        ),
        ends(
            event_line(es, i, decode),
            repeated("│ "@, shown_depth(es, i)) + kind_text(es[i].kind, decode),
        ),
{
    let e = es[i];
    let t = event_line(es, i, decode);
    let p = "#"@ + three_digits(e.idx as nat) + " +"@ + padded(
        dec(((e.ts_nanos - es[0].ts_nanos) / 1000) as nat),
        6,
    ) + "µs ["@;
    let name = short_name(e.canister@);
    let cell = filled(name, 5);
    let mid = "] seq="@ + filled(dec(e.seq as nat), 2) + " "@
        + filled(parent_text(e.parent_seq), 4) + " "@;
    let tail = repeated("│ "@, shown_depth(es, i)) + kind_text(e.kind, decode);
    assert(t =~= p + cell + mid + tail);
    lemma_ends(p + cell + mid, tail);
    assert(cell.subrange(0, name.len() as int) =~= name);
    assert(t.subrange(0, (p + name).len() as int) =~= p + name);
}

/// Behind the timeline a warning is shown where there were rejects, and only there.
pub proof fn law_footer_warns_of_rejects(s: TraceSummary)
    ensures
        s.rejects > 0 ==> begins(footer_text(s), "\n⚠ "@ + dec(s.rejects as nat)),
        s.rejects == 0 ==> begins(footer_text(s), "\n✓"@),
{
    if s.rejects > 0 {
        let p = "\n⚠ "@ + dec(s.rejects as nat);
        assert(footer_text(s).subrange(0, p.len() as int) =~= p);
    } else {
        reveal_strlit("\n✓");
        reveal_strlit("\n✓ replay complete, no rejects observed.\n");
        assert(footer_text(s).subrange(0, 2) =~= "\n✓"@);
    }
}

// ---------- Differences ----------

/// What was added is shown behind `+`, what was removed behind `-`, and what changed behind `~` with
/// both its values; each has its line.
pub proof fn law_every_difference_is_shown(ds: Seq<DeltaView>, n: nat)
    requires
        n < ds.len(),
    ensures
        delta_lines(ds, 0).len() == 0,
        delta_lines(ds, n + 1) == delta_lines(ds, n) + match ds[n as int] {
            DeltaView::Added { path, value } => "    + "@ + path + " = "@ + value + "\n"@,
            DeltaView::Removed { path, value } => "    - "@ + path + " = "@ + value + "\n"@,
            DeltaView::Changed { path, from, to } => "    ~ "@ + path + ": "@ + from + " → "@ + to
                + "\n"@,
        },
{
}

/// A transition without differences says so, and one with differences shows them.
pub proof fn law_transition_is_shown(t: TransitionView)
    ensures
        ({
            let head = "  seq "@ + dec(t.from_seq as nat) + " → "@ + dec(t.to_seq as nat);
            &&& t.deltas.len() == 0 ==> transition_lines(t) == head + ": (no structural change)\n"@
            &&& t.deltas.len() > 0 ==> transition_lines(t) == head + ":\n"@ + delta_lines(
                t.deltas,
                t.deltas.len(),
            )
        }),
{
}

/// The transitions of a canister and a key.
pub open spec fn transitions_of(
    ts: Seq<TransitionView>,
    canister: Seq<char>,
    key: Seq<char>,
) -> Seq<TransitionView> {
    ts.filter(|t: TransitionView| t.canister == canister && t.key == key)
}

/// One text of the lines of all transitions.
pub open spec fn all_lines(ts: Seq<TransitionView>) -> Seq<char>
    decreases ts.len(),
{
    if ts.len() == 0 {
        Seq::empty()
    } else {
        all_lines(ts.drop_last()) + transition_lines(ts.last())
    }
}

/// Under the name of a group the transitions of its canister and its key are shown, all of them and
/// no others, in order.
pub proof fn law_group_shows_its_transitions(
    ts: Seq<TransitionView>,
    canister: Seq<char>,
    key: Seq<char>,
    n: nat,
)
    requires
        n <= ts.len(),
    ensures
        lines_of_group(ts, canister, key, n) == all_lines(
            transitions_of(ts.subrange(0, n as int), canister, key),
        ),
        has_transition(ts, canister, key, n) <==> transitions_of(
            ts.subrange(0, n as int),
            canister,
            key,
        ).len() > 0,
    decreases n,
{
    reveal(Seq::filter);
    let now = ts.subrange(0, n as int);
    if n > 0 {
        law_group_shows_its_transitions(ts, canister, key, (n - 1) as nat);
        assert(now.drop_last() =~= ts.subrange(0, n - 1));
        let before = transitions_of(now.drop_last(), canister, key);
        let t = now.last();
        assert(t == ts[n - 1]);
        if t.canister == canister && t.key == key {
            assert(transitions_of(now, canister, key) == before.push(t));
            assert(before.push(t).drop_last() =~= before);
        }
    }
}

/// The only snapshot of a canister and a key is found.
pub proof fn law_single_snapshot_is_found(is: Seq<InitialView>, i: int, k: int)
    requires
        0 <= i <= k < is.len(),
        forall|j: int|
            i <= j < k ==> !((#[trigger] is[j]).canister == is[k].canister && is[j].key
                == is[k].key),
    ensures
        initial_of(is, is[k].canister, is[k].key, i) == Some(is[k]),
    decreases k - i,
{
    if i < k {
        assert(!(is[i].canister == is[k].canister && is[i].key == is[k].key));
        law_single_snapshot_is_found(is, i + 1, k);
    }
}

/// Each group is shown, in order.
pub proof fn law_every_group_is_shown(
    gs: Seq<GroupView<Snapshot>>,
    ts: Seq<TransitionView>,
    is: Seq<InitialView>,
    n: nat,
)
    requires
        n < gs.len(),
    ensures
        groups_lines(gs, ts, is, 0).len() == 0,
        groups_lines(gs, ts, is, n + 1) == groups_lines(gs, ts, is, n) + group_lines(
            gs[n as int],
            ts,
            is,
        ),
        begins(
            group_lines(gs[n as int], ts, is),
            "["@ + short_name(gs[n as int].a) + "] "@ + gs[n as int].b + "  ("@ + dec(
                gs[n as int].items.len(),
            ),
        ),
{
    let g = gs[n as int];
    let p = "["@ + short_name(g.a) + "] "@ + g.b + "  ("@ + dec(g.items.len());
    assert(group_lines(g, ts, is).subrange(0, p.len() as int) =~= p);
}

/// Each argument is shown as its name and its value with `=` between, in order, with commas between,
/// all in parentheses; nothing is shown where there are none.
pub proof fn law_arguments_are_shown(args: Seq<(String, String)>, n: nat)
    requires
        0 < n < args.len(),
    ensures
        args_text(Seq::empty()).len() == 0,
        args_text(args) == "("@ + joined(arg_texts(args), ", "@, args.len()) + ")"@,
        joined(arg_texts(args), ", "@, 1) == args[0].0@ + "="@ + args[0].1@,
        joined(arg_texts(args), ", "@, n + 1) == joined(arg_texts(args), ", "@, n) + ", "@ + (
        args[n as int].0@ + "="@ + args[n as int].1@),
{
    assert(arg_texts(args)[n as int] == args[n as int].0@ + "="@ + args[n as int].1@);
    assert(arg_texts(args)[0] == args[0].0@ + "="@ + args[0].1@);
}

/// A number has three digits or more, zeros first; a cell is as wide as is asked for or wider, with
/// spaces behind what it holds.
pub proof fn law_cells(n: nat, s: Seq<char>, width: nat)
    ensures
        three_digits(n).len() >= 3,
        ends(three_digits(n), dec(n)),
        forall|i: int| 0 <= i < three_digits(n).len() - dec(n).len() ==> three_digits(n)[i] == '0',
        begins(filled(s, width), s),
        filled(s, width).len() == if s.len() < width {
            width
        } else {
            s.len()
        },
        forall|i: int| s.len() <= i < filled(s, width).len() ==> filled(s, width)[i] == ' ',
{
    reveal_strlit("0");
    assert(filled(s, width).subrange(0, s.len() as int) =~= s);
    let d = dec(n);
    reveal_with_fuel(repeated, 4);
    let t = three_digits(n);
    assert(repeated("0"@, 1) =~= seq!['0']);
    assert(repeated("0"@, 2) =~= seq!['0', '0']);
    assert(repeated("0"@, 3) =~= seq!['0', '0', '0']);
    assert(t.subrange(t.len() - d.len(), t.len() as int) =~= d);
}

/// The canisters of a trace are shown before its timeline, each on a line of its own, in order; so
/// are the numbers of events, calls and rejects.
pub proof fn law_header_of_a_timeline(s: TraceSummary, names: Seq<Seq<char>>, n: nat)
    requires
        n < names.len(),
    ensures
        canister_lines(names, 0).len() == 0,
        canister_lines(names, n + 1) == canister_lines(names, n) + ("    · "@ + names[n as int]
            + "\n"@),
        ends(
            header_text(s),
            "  events:    "@ + dec(s.event_count as nat) + "\n  duration:  "@ + dec(
                (s.duration_nanos / 1000) as nat,
            ) + " µs\n  canisters: "@ + dec(s.canisters@.len()) + "\n"@ + canister_lines(
                texts(s.canisters@),
                s.canisters@.len(),
            ) + "  calls:     "@ + dec(s.call_spawned as nat) + "   rejects: "@ + dec(
                s.rejects as nat,
            ) + "\n\n"@,
        ),
{
    let front = "═══ trace "@ + s.trace_id@ + " ═══\n"@ + (if s.label@.len() == 0 {
        Seq::empty()
    } else {
        "  label:     "@ + s.label@ + "\n"@
    });
    let back = "  events:    "@ + dec(s.event_count as nat) + "\n  duration:  "@ + dec(
        (s.duration_nanos / 1000) as nat,
    ) + " µs\n  canisters: "@ + dec(s.canisters@.len()) + "\n"@ + canister_lines(
        texts(s.canisters@),
        s.canisters@.len(),
    ) + "  calls:     "@ + dec(s.call_spawned as nat) + "   rejects: "@ + dec(s.rejects as nat)
        + "\n\n"@;
    assert(header_text(s) =~= front + back);
    lemma_ends(front, back);
}

} // verus!
