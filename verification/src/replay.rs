//! Replaying a recorded trace: one order for the events of all canisters, and
//! what the trace amounts to.

use vstd::multiset::Multiset;
use vstd::prelude::*;
use vstd::string::*;

use crate::event::EventKind;
use crate::groups::{
    all_members, each_by_number, groups_view, law_put_adds, law_put_keeps_order,
    law_sorting_keeps_members, lemma_members_remove, members, ordered, put, put_in,
    sort_each, Group, GroupView, Numbered,
};
use crate::order::{in_order, law_sorted, slot, sorted};
use crate::text::{same_text, texts};

verus! {

/// What the user asked for.
pub struct Options {
    pub store: String,
    pub trace: String,
    pub step: bool,
    pub decode_cbor: bool,
    pub json: bool,
}

/// What a trace amounts to.
#[derive(Debug)]
pub struct TraceSummary {
    pub trace_id: String,
    pub started_at: i64,
    pub label: String,
    pub event_count: usize,
    pub canisters: Vec<String>,
    pub duration_nanos: u128,
    pub call_spawned: usize,
    pub rejects: usize,
}

/// An event of a trace. `idx` is its place in the timeline, counted from one.
#[derive(Debug)]
pub struct EventRow {
    pub idx: usize,
    pub canister: String,
    pub seq: u64,
    pub parent_seq: Option<u64>,
    pub span_id: u64,
    pub ts_nanos: u128,
    pub recv_nanos: Option<u128>,
    pub kind: EventKind,
}

impl Numbered for EventRow {
    open spec fn number(&self) -> int {
        self.seq as int
    }

    fn seq_number(&self) -> (n: u64) {
        self.seq
    }
}

// ---------- The order of events ----------

/// The first `n` events by canister.
pub open spec fn by_canister(es: Seq<EventRow>, n: nat) -> Seq<GroupView<EventRow>>
    decreases n,
{
    if n == 0 || n > es.len() {
        Seq::empty()
    } else {
        put_in(by_canister(es, (n - 1) as nat), es[n - 1].canister@, Seq::empty(), es[n - 1])
    }
}

/// The event has no parent in another canister.
pub open spec fn starts_trace(e: EventRow) -> bool {
    match e.parent_seq {
        None => true,
        Some(n) => n == 0,
    }
}

/// The first group at or after `i` whose first event has no parent in another canister.
pub open spec fn root(gs: Seq<GroupView<EventRow>>, i: int) -> Option<int>
    decreases gs.len() - i,
{
    if i < 0 || i >= gs.len() {
        None
    } else if gs[i].items.len() > 0 && starts_trace(gs[i].items[0]) {
        Some(i)
    } else {
        root(gs, i + 1)
    }
}

/// The event begins an execution.
pub open spec fn is_entry(e: EventRow) -> bool {
    e.kind is MethodEntered || e.kind is IngressEntered
}

/// The event ends an execution.
pub open spec fn is_exit(e: EventRow) -> bool {
    e.kind is MethodExited
}

/// The canister that an event calls, and the number of the event, which the callee has as the
/// parent of its entry.
pub open spec fn callee(e: EventRow) -> Option<(Seq<char>, u64)> {
    match e.kind {
        EventKind::CallSpawned { target, .. } => Some((target@, e.seq)),
        _ => None,
    }
}

/// The calls among the first `n` events.
pub open spec fn calls_in(es: Seq<EventRow>, n: nat) -> Seq<(Seq<char>, u64)>
    decreases n,
{
    if n == 0 || n > es.len() {
        Seq::empty()
    } else {
        let before = calls_in(es, (n - 1) as nat);
        match callee(es[n - 1]) {
            Some(c) => before.push(c),
            None => before,
        }
    }
}

/// The calls that the first `n` canisters made.
pub open spec fn calls_made(gs: Seq<GroupView<EventRow>>, n: nat) -> Seq<(Seq<char>, u64)>
    decreases n,
{
    if n == 0 || n > gs.len() {
        Seq::empty()
    } else {
        calls_made(gs, (n - 1) as nat) + calls_in(gs[n - 1].items, gs[n - 1].items.len())
    }
}

/// The number of the call that caused an execution with this first event: an entry has it for its
/// parent.
pub open spec fn cause(first: EventRow) -> Option<u64> {
    if is_entry(first) {
        first.parent_seq
    } else {
        None
    }
}

/// The first entry at or after `i` that the call with number `n` caused.
pub open spec fn entry_of(items: Seq<EventRow>, n: u64, i: int) -> Option<int>
    decreases items.len() - i,
{
    if i < 0 || i >= items.len() {
        None
    } else if cause(items[i]) == Some(n) {
        Some(i)
    } else {
        entry_of(items, n, i + 1)
    }
}

/// The place of the last event of an execution whose last event so far stands at `last`, from `j`
/// on, where `depth` executions are open. An event belongs to the one that was entered last; the
/// execution ends with its exit.
pub open spec fn last_from(items: Seq<EventRow>, j: int, depth: nat, last: int) -> int
    decreases items.len() - j,
{
    if j < 0 || j >= items.len() {
        last
    } else if is_entry(items[j]) {
        last_from(items, j + 1, depth + 1, last)
    } else if depth > 1 {
        last_from(
            items,
            j + 1,
            if is_exit(items[j]) {
                (depth - 1) as nat
            } else {
                depth
            },
            last,
        )
    } else if is_exit(items[j]) {
        j
    } else {
        last_from(items, j + 1, depth, j)
    }
}

/// The end of the execution that begins at `p`.
pub open spec fn execution_end(items: Seq<EventRow>, p: int) -> int {
    if is_exit(items[p]) {
        p + 1
    } else {
        last_from(items, p + 1, 1, p) + 1
    }
}

/// The first group at or after `i` of the canister.
pub open spec fn group_of(ts: Seq<GroupView<EventRow>>, canister: Seq<char>, i: int) -> Option<int>
    decreases ts.len() - i,
{
    if i < 0 || i >= ts.len() {
        None
    } else if ts[i].a == canister {
        Some(i)
    } else {
        group_of(ts, canister, i + 1)
    }
}

/// What is left to tell of a canister begins an execution that no recorded call caused: with an
/// entry, or with the canister's first event.
pub open spec fn begins_uncaused(
    gs: Seq<GroupView<EventRow>>,
    ts: Seq<GroupView<EventRow>>,
    d: int,
) -> bool {
    let items = ts[d].items;
    &&& items.len() > 0
    &&& is_entry(items[0]) || items.len() == gs[d].items.len()
    &&& match cause(items[0]) {
        Some(n) => !calls_made(gs, gs.len()).contains((ts[d].a, n)),
        None => true,
    }
}

/// How many events that are left of canister `d` are told behind a call with number `n`: those up
/// to the end of the execution that the call caused, or else of one that no recorded call caused.
#[verifier::opaque]
pub open spec fn told_at_call(
    gs: Seq<GroupView<EventRow>>,
    ts: Seq<GroupView<EventRow>>,
    d: int,
    n: u64,
) -> int {
    match entry_of(ts[d].items, n, 0) {
        Some(p) => execution_end(ts[d].items, p),
        None => if begins_uncaused(gs, ts, d) {
            execution_end(ts[d].items, 0)
        } else {
            0
        },
    }
}

/// A part of the timeline, and what is left to tell of each canister.
pub struct Told {
    pub out: Seq<EventRow>,
    pub rest: Seq<GroupView<EventRow>>,
}

/// What is left once the first event that is left of canister `c` is told.
pub open spec fn without_first(ts: Seq<GroupView<EventRow>>, c: int) -> Seq<GroupView<EventRow>> {
    ts.update(c, GroupView { items: ts[c].items.drop_first(), ..ts[c] })
}

/// The events of canister `c` in the order of their numbers, until `left` are left, with what each
/// call leads to behind it. `gs` holds all events, `ts` those that are left, and `fuel` is no less
/// than their number.
pub open spec fn told(
    gs: Seq<GroupView<EventRow>>,
    ts: Seq<GroupView<EventRow>>,
    c: int,
    left: int,
    fuel: nat,
) -> Told
    decreases fuel, 1nat,
{
    if fuel == 0 || c < 0 || c >= ts.len() || ts[c].items.len() <= left || ts[c].items.len() == 0 {
        Told { out: Seq::empty(), rest: ts }
    } else {
        let e = ts[c].items[0];
        let inner = behind(gs, without_first(ts, c), e, (fuel - 1) as nat);
        let tail = told(gs, inner.rest, c, left, (fuel - 1) as nat);
        Told { out: seq![e] + inner.out + tail.out, rest: tail.rest }
    }
}

/// What an event leads to.
pub open spec fn behind(
    gs: Seq<GroupView<EventRow>>,
    ts: Seq<GroupView<EventRow>>,
    e: EventRow,
    fuel: nat,
) -> Told
    decreases fuel, 2nat,
{
    match callee(e) {
        Some((t, n)) => match group_of(ts, t, 0) {
            Some(d) => told(gs, ts, d, ts[d].items.len() - told_at_call(gs, ts, d, n), fuel),
            None => Told { out: Seq::empty(), rest: ts },
        },
        None => Told { out: Seq::empty(), rest: ts },
    }
}

/// The items of the first `n` groups, one group after the other.
pub open spec fn flattened(gs: Seq<GroupView<EventRow>>, n: nat) -> Seq<EventRow>
    decreases n,
{
    if n == 0 || n > gs.len() {
        Seq::empty()
    } else {
        flattened(gs, (n - 1) as nat) + gs[n - 1].items
    }
}

/// Events go by their times.
pub open spec fn time_key() -> spec_fn(EventRow) -> int {
    |e: EventRow| e.ts_nanos as int
}

/// The timeline of canister `i` with all that it leads to, and what is left then.
pub open spec fn story(gs: Seq<GroupView<EventRow>>, i: int) -> Told {
    told(gs, gs, i, 0, all_members(gs).len())
}

/// The events in one order. It tells of the first canister that no other called. The events of a
/// canister come in the order of their numbers; at each call, those of the callee follow up to the
/// end of the execution that the call caused. What is not reached comes last. Where every canister
/// was called, the events come by their times, and those of the same time by canister and number.
pub open spec fn reordered(es: Seq<EventRow>) -> Seq<EventRow> {
    let gs = each_by_number(by_canister(es, es.len()));
    match root(gs, 0) {
        Some(i) => {
            let s = story(gs, i);
            s.out + flattened(s.rest, s.rest.len())
        },
        None => {
            let flat = flattened(gs, gs.len());
            sorted(flat, time_key(), flat.len())
        },
    }
}

fn find_root(gs: &Vec<Group<EventRow>>) -> (r: Option<usize>)
    ensures
        match r {
            Some(i) => root(groups_view(gs@), 0) == Some(i as int) && i < gs@.len()
                && gs@[i as int].items@.len() > 0,
            None => root(groups_view(gs@), 0) is None,
        },
{
    let ghost all = groups_view(gs@);
    let mut i: usize = 0;
    while i < gs.len()
        invariant
            i <= gs@.len(),
            all == groups_view(gs@),
            root(all, 0) == root(all, i as int),
        decreases gs@.len() - i,
    {
        assert(all[i as int] == gs@[i as int]@);
        if gs[i].items.len() > 0 {
            let starts = match gs[i].items[0].parent_seq {
                None => true,
                Some(n) => n == 0,
            };
            if starts {
                return Some(i);
            }
        }
        i += 1;
    }
    None
}

/// A call of a canister, by the number of the event.
pub struct Call {
    pub target: String,
    pub seq: u64,
}

/// A sequence of calls as a mathematical value.
pub open spec fn calls_view(v: Seq<Call>) -> Seq<(Seq<char>, u64)> {
    Seq::new(v.len(), |i: int| (v[i].target@, v[i].seq))
}

fn callee_of(e: &EventRow) -> (r: Option<Call>)
    ensures
        match r {
            Some(c) => callee(*e) == Some((c.target@, c.seq)),
            None => callee(*e) is None,
        },
{
    match &e.kind {
        EventKind::CallSpawned { target, .. } => Some(Call { target: target.clone(), seq: e.seq }),
        _ => None,
    }
}

fn list_calls(es: &Vec<EventRow>, out: &mut Vec<Call>)
    ensures
        calls_view(final(out)@) == calls_view(old(out)@) + calls_in(es@, es@.len()),
{
    let ghost start = calls_view(out@);
    let mut i: usize = 0;
    assert(start + calls_in(es@, 0) =~= start);
    while i < es.len()
        invariant
            i <= es@.len(),
            calls_view(out@) == start + calls_in(es@, i as nat),
        decreases es@.len() - i,
    {
        let ghost done = calls_in(es@, i as nat);
        if let Some(c) = callee_of(&es[i]) {
            let ghost pair = (c.target@, c.seq);
            let ghost before = calls_view(out@);
            out.push(c);
            assert(calls_view(out@) =~= before.push(pair));
            assert(before.push(pair) =~= start + done.push(pair));
        }
        i += 1;
    }
}

fn list_all_calls(gs: &Vec<Group<EventRow>>) -> (out: Vec<Call>)
    ensures
        calls_view(out@) == calls_made(groups_view(gs@), gs@.len()),
{
    let ghost all = groups_view(gs@);
    let mut out: Vec<Call> = Vec::new();
    let mut i: usize = 0;
    assert(calls_view(out@) =~= calls_made(all, 0));
    while i < gs.len()
        invariant
            i <= gs@.len(),
            all == groups_view(gs@),
            calls_view(out@) == calls_made(all, i as nat),
        decreases gs@.len() - i,
    {
        assert(all[i as int] == gs@[i as int]@);
        list_calls(&gs[i].items, &mut out);
        i += 1;
    }
    out
}

fn has_call(calls: &Vec<Call>, target: &str, seq: u64) -> (r: bool)
    ensures
        r == calls_view(calls@).contains((target@, seq)),
{
    let mut i: usize = 0;
    while i < calls.len()
        invariant
            i <= calls@.len(),
            forall|k: int| 0 <= k < i ==> #[trigger] calls_view(calls@)[k] != (target@, seq),
        decreases calls@.len() - i,
    {
        assert(calls_view(calls@)[i as int] == (calls@[i as int].target@, calls@[i as int].seq));
        if calls[i].seq == seq && same_text(calls[i].target.as_str(), target) {
            return true;
        }
        i += 1;
    }
    false
}

fn enters(e: &EventRow) -> (r: bool)
    ensures
        r == is_entry(*e),
{
    match &e.kind {
        EventKind::MethodEntered { .. } => true,
        EventKind::IngressEntered { .. } => true,
        _ => false,
    }
}

fn cause_of(e: &EventRow) -> (r: Option<u64>)
    ensures
        r == cause(*e),
{
    if enters(e) {
        e.parent_seq
    } else {
        None
    }
}

fn exits(e: &EventRow) -> (r: bool)
    ensures
        r == is_exit(*e),
{
    match &e.kind {
        EventKind::MethodExited { .. } => true,
        _ => false,
    }
}

fn find_entry(items: &Vec<EventRow>, n: u64) -> (r: Option<usize>)
    ensures
        match r {
            Some(p) => entry_of(items@, n, 0) == Some(p as int) && p < items@.len(),
            None => entry_of(items@, n, 0) is None,
        },
{
    let mut i: usize = 0;
    while i < items.len()
        invariant
            i <= items@.len(),
            entry_of(items@, n, 0) == entry_of(items@, n, i as int),
        decreases items@.len() - i,
    {
        if let Some(k) = cause_of(&items[i]) {
            if k == n {
                return Some(i);
            }
        }
        i += 1;
    }
    None
}

fn find_execution_end(items: &Vec<EventRow>, p: usize) -> (r: usize)
    requires
        p < items@.len(),
    ensures
        r == execution_end(items@, p as int),
        p < r <= items@.len(),
{
    let total: usize = items.len();
    if exits(&items[p]) {
        return p + 1;
    }
    let mut depth: usize = 1;
    let mut last: usize = p;
    let mut j: usize = p + 1;
    while j < total
        invariant
            total == items@.len(),
            p < j <= total,
            p <= last < j,
            1 <= depth <= j,
            execution_end(items@, p as int) == last_from(
                items@,
                j as int,
                depth as nat,
                last as int,
            ) + 1,
        decreases total - j,
    {
        if enters(&items[j]) {
            depth += 1;
        } else if depth > 1 {
            if exits(&items[j]) {
                depth -= 1;
            }
        } else if exits(&items[j]) {
            return j + 1;
        } else {
            last = j;
        }
        j += 1;
    }
    last + 1
}

fn find_group(ts: &Vec<Group<EventRow>>, canister: &str) -> (r: Option<usize>)
    ensures
        match r {
            Some(i) => group_of(groups_view(ts@), canister@, 0) == Some(i as int) && i < ts@.len(),
            None => group_of(groups_view(ts@), canister@, 0) is None,
        },
{
    let ghost all = groups_view(ts@);
    let mut i: usize = 0;
    while i < ts.len()
        invariant
            i <= ts@.len(),
            all == groups_view(ts@),
            group_of(all, canister@, 0) == group_of(all, canister@, i as int),
        decreases ts@.len() - i,
    {
        assert(all[i as int] == ts@[i as int]@);
        if same_text(ts[i].a.as_str(), canister) {
            return Some(i);
        }
        i += 1;
    }
    None
}

/// The numbers of events of the groups.
pub open spec fn are_sizes(sizes: Seq<usize>, gs: Seq<GroupView<EventRow>>) -> bool {
    sizes.len() == gs.len() && forall|i: int|
        0 <= i < gs.len() ==> #[trigger] sizes[i] == gs[i].items.len()
}

fn list_sizes(gs: &Vec<Group<EventRow>>) -> (out: Vec<usize>)
    ensures
        are_sizes(out@, groups_view(gs@)),
{
    let mut out: Vec<usize> = Vec::new();
    let mut i: usize = 0;
    while i < gs.len()
        invariant
            i <= gs@.len(),
            out@.len() == i,
            forall|k: int| 0 <= k < i ==> #[trigger] out@[k] == gs@[k].items@.len(),
        decreases gs@.len() - i,
    {
        out.push(gs[i].items.len());
        i += 1;
    }
    out
}

fn count_at_call(
    ts: &Vec<Group<EventRow>>,
    sizes: &Vec<usize>,
    calls: &Vec<Call>,
    d: usize,
    n: u64,
    Ghost(gs): Ghost<Seq<GroupView<EventRow>>>,
) -> (r: usize)
    requires
        d < ts@.len(),
        ts@.len() == gs.len(),
        are_sizes(sizes@, gs),
        calls_view(calls@) == calls_made(gs, gs.len()),
    ensures
        r == told_at_call(gs, groups_view(ts@), d as int, n),
        r <= ts@[d as int].items@.len(),
{
    proof {
        reveal(told_at_call);
    }
    let g = &ts[d];
    assert(groups_view(ts@)[d as int] == g@);
    if let Some(p) = find_entry(&g.items, n) {
        return find_execution_end(&g.items, p);
    }
    if g.items.len() == 0 {
        return 0;
    }
    if !enters(&g.items[0]) && g.items.len() != sizes[d] {
        return 0;
    }
    let free = match cause_of(&g.items[0]) {
        Some(k) => !has_call(calls, g.a.as_str(), k),
        None => true,
    };
    if free {
        find_execution_end(&g.items, 0)
    } else {
        0
    }
}

/// Telling an event takes it away.
pub proof fn lemma_without_first(ts: Seq<GroupView<EventRow>>, c: int)
    requires
        0 <= c < ts.len(),
        ts[c].items.len() > 0,
    ensures
        all_members(ts) == all_members(without_first(ts, c)).insert(ts[c].items[0]),
        all_members(ts).len() == all_members(without_first(ts, c)).len() + 1,
{
    let e = ts[c].items[0];
    let less = without_first(ts, c);
    let rest = ts[c].items.drop_first();
    lemma_members_remove(ts, c, ts.len());
    lemma_members_remove(less, c, less.len());
    assert(ts.remove(c) =~= less.remove(c));
    assert(ts[c].items =~= seq![e] + rest);
    lemma_first_apart(e, rest);
    let other = all_members(ts.remove(c));
    assert(other.add(rest.to_multiset().insert(e)) =~= other.add(rest.to_multiset()).insert(e));
}

proof fn lemma_first_apart(e: EventRow, rest: Seq<EventRow>)
    ensures
        (seq![e] + rest).to_multiset() == rest.to_multiset().insert(e),
{
    broadcast use vstd::seq_lib::group_to_multiset_ensures;

    vstd::seq_lib::lemma_multiset_commutative(seq![e], rest);
    assert(seq![e] =~= Seq::<EventRow>::empty().push(e));
    assert(seq![e].to_multiset() =~= Multiset::empty().insert(e));
    assert(seq![e].to_multiset().add(rest.to_multiset()) =~= rest.to_multiset().insert(e));
}

/// Tells the events of canister `c` until `left` are left, with what each call leads to.
fn tell(
    ts: &mut Vec<Group<EventRow>>,
    c: usize,
    left: usize,
    sizes: &Vec<usize>,
    calls: &Vec<Call>,
    out: &mut Vec<EventRow>,
    Ghost(gs): Ghost<Seq<GroupView<EventRow>>>,
    Ghost(fuel): Ghost<nat>,
)
    requires
        c < old(ts)@.len(),
        old(ts)@.len() == gs.len(),
        are_sizes(sizes@, gs),
        calls_view(calls@) == calls_made(gs, gs.len()),
        all_members(groups_view(old(ts)@)).len() <= fuel,
    ensures
        final(ts)@.len() == gs.len(),
        all_members(groups_view(final(ts)@)).len() <= all_members(groups_view(old(ts)@)).len(),
        ({
            let s = told(gs, groups_view(old(ts)@), c as int, left as int, fuel);
            final(out)@ == old(out)@ + s.out && groups_view(final(ts)@) == s.rest
        }),
    decreases fuel,
{
    let ghost start = out@;
    let ghost whole = told(gs, groups_view(ts@), c as int, left as int, fuel);
    let ghost mut f: nat = fuel;
    while ts[c].items.len() > left
        invariant
            c < ts@.len(),
            ts@.len() == gs.len(),
            are_sizes(sizes@, gs),
            calls_view(calls@) == calls_made(gs, gs.len()),
            f <= fuel,
            all_members(groups_view(ts@)).len() <= f,
            all_members(groups_view(ts@)).len() <= all_members(groups_view(old(ts)@)).len(),
            out@ + told(gs, groups_view(ts@), c as int, left as int, f).out == start + whole.out,
            told(gs, groups_view(ts@), c as int, left as int, f).rest == whole.rest,
        decreases f,
    {
        let ghost here = groups_view(ts@);
        let ghost before = out@;
        assert(here[c as int] == ts@[c as int]@);
        let mut g = ts.remove(c);
        let e = g.items.remove(0);
        assert(g.items@ =~= here[c as int].items.drop_first());
        ts.insert(c, g);
        let ghost less = without_first(here, c as int);
        proof {
            lemma_without_first(here, c as int);
        }
        assert(groups_view(ts@) =~= less);
        let ghost d0: nat = (f - 1) as nat;
        let call = callee_of(&e);
        let ghost inner = behind(gs, less, e, d0);
        out.push(e);
        let place = match &call {
            Some(k) => find_group(ts, k.target.as_str()),
            None => None,
        };
        match (call, place) {
            (Some(k), Some(d)) => {
                let n = count_at_call(ts, sizes, calls, d, k.seq, Ghost(gs));
                let stop: usize = ts[d].items.len() - n;
                assert(less[d as int].items.len() == ts@[d as int].items@.len());
                tell(ts, d, stop, sizes, calls, out, Ghost(gs), Ghost(d0));
            },
            _ => {
                assert(out@ =~= before + seq![e] + inner.out);
            },
        }
        proof {
            let tail = told(gs, inner.rest, c as int, left as int, d0).out;
            assert(out@ =~= before + seq![e] + inner.out);
            assert(before + (seq![e] + inner.out + tail) =~= out@ + tail);
            f = d0;
        }
    }
    assert(groups_view(ts@)[c as int] == ts@[c as int]@);
    assert(out@ + Seq::<EventRow>::empty() =~= out@);
}

fn flatten(gs: Vec<Group<EventRow>>, out: &mut Vec<EventRow>)
    ensures
        final(out)@ == old(out)@ + flattened(groups_view(gs@), gs@.len()),
{
    let ghost all = groups_view(gs@);
    let ghost start = out@;
    let ghost n = gs@.len();
    let ghost mut k: nat = 0;
    let mut rest = gs;
    assert(all.subrange(0, all.len() as int) =~= all);
    assert(start + flattened(all, 0) =~= start);
    while rest.len() > 0
        invariant
            n == all.len(),
            k + rest@.len() == n,
            groups_view(rest@) == all.subrange(k as int, n as int),
            out@ == start + flattened(all, k),
        decreases rest@.len(),
    {
        let ghost left = groups_view(rest@);
        let ghost done = flattened(all, k);
        assert(left[0] == rest@[0]@);
        assert(left[0] == all[k as int]);
        let mut g = rest.remove(0);
        let ghost items = g.items@;
        out.append(&mut g.items);
        assert(start + done + items =~= start + (done + items));
        proof {
            k = k + 1;
        }
        assert(groups_view(rest@) =~= left.subrange(1, left.len() as int));
        assert(groups_view(rest@) =~= all.subrange(k as int, n as int));
    }
}

fn sort_by_time(items: Vec<EventRow>) -> (out: Vec<EventRow>)
    ensures
        out@ == sorted(items@, time_key(), items@.len()),
{
    let ghost all = items@;
    let ghost key = time_key();
    let mut rest = items;
    let mut out: Vec<EventRow> = Vec::new();
    let ghost mut done: nat = 0;
    assert(all.subrange(0, all.len() as int) =~= all);
    while rest.len() > 0
        invariant
            key == time_key(),
            done + rest@.len() == all.len(),
            rest@ == all.subrange(done as int, all.len() as int),
            out@ == sorted(all, key, done),
        decreases rest@.len(),
    {
        let x = rest.remove(0);
        assert(x == all[done as int]);
        let ghost before = out@;
        let mut n: usize = out.len();
        while n > 0 && out[n - 1].ts_nanos > x.ts_nanos
            invariant
                n <= out@.len(),
                key == time_key(),
                before == out@,
                slot(before, key, x.ts_nanos as int, before.len() as int) == slot(
                    before,
                    key,
                    x.ts_nanos as int,
                    n as int,
                ),
            decreases n,
        {
            n -= 1;
        }
        out.insert(n, x);
        proof {
            done = done + 1;
        }
        assert(rest@ =~= all.subrange(done as int, all.len() as int));
    }
    out
}

fn group_by_canister(events: Vec<EventRow>) -> (out: Vec<Group<EventRow>>)
    ensures
        groups_view(out@) == each_by_number(by_canister(events@, events@.len())),
{
    let ghost all = events@;
    let ghost mut done: nat = 0;
    let mut rest = events;
    let mut gs: Vec<Group<EventRow>> = Vec::new();
    assert(all.subrange(0, all.len() as int) =~= all);
    assert(groups_view(gs@) =~= Seq::<GroupView<EventRow>>::empty());
    while rest.len() > 0
        invariant
            done + rest@.len() == all.len(),
            rest@ == all.subrange(done as int, all.len() as int),
            groups_view(gs@) == by_canister(all, done),
        decreases rest@.len(),
    {
        let e = rest.remove(0);
        assert(e == all[done as int]);
        put(&mut gs, e.canister.clone(), String::new(), e);
        proof {
            done = done + 1;
        }
        assert(rest@ =~= all.subrange(done as int, all.len() as int));
    }
    sort_each(gs)
}

/// The events in one order.
pub fn reorder_causal(events: Vec<EventRow>) -> (out: Vec<EventRow>)
    ensures
        out@ == reordered(events@),
{
    let gs = group_by_canister(events);
    let ghost all = groups_view(gs@);
    let mut out: Vec<EventRow> = Vec::new();
    match find_root(&gs) {
        Some(i) => {
            let calls = list_all_calls(&gs);
            let sizes = list_sizes(&gs);
            let mut ts = gs;
            let ghost n = all_members(all).len();
            tell(&mut ts, i, 0, &sizes, &calls, &mut out, Ghost(all), Ghost(n));
            let ghost s = story(all, i as int);
            assert(out@ =~= s.out);
            flatten(ts, &mut out);
            out
        },
        None => {
            flatten(gs, &mut out);
            assert(out@ =~= flattened(all, all.len()));
            sort_by_time(out)
        },
    }
}

/// What is told of a canister is taken away, and nothing else.
proof fn lemma_told_members(
    gs: Seq<GroupView<EventRow>>,
    ts: Seq<GroupView<EventRow>>,
    c: int,
    left: int,
    fuel: nat,
)
    ensures
        ({
            let s = told(gs, ts, c, left, fuel);
            all_members(ts) == s.out.to_multiset().add(all_members(s.rest))
        }),
    decreases fuel, 1nat,
{
    let s = told(gs, ts, c, left, fuel);
    if fuel == 0 || c < 0 || c >= ts.len() || ts[c].items.len() <= left || ts[c].items.len() == 0 {
        lemma_none(all_members(ts));
    } else {
        let e = ts[c].items[0];
        let less = without_first(ts, c);
        let d = (fuel - 1) as nat;
        let inner = behind(gs, less, e, d);
        let tail = told(gs, inner.rest, c, left, d);
        lemma_without_first(ts, c);
        lemma_behind_members(gs, less, e, d);
        lemma_told_members(gs, inner.rest, c, left, d);
        assert(seq![e] + inner.out + tail.out =~= seq![e] + (inner.out + tail.out));
        lemma_first_apart(e, inner.out + tail.out);
        vstd::seq_lib::lemma_multiset_commutative(inner.out, tail.out);
        let x = inner.out.to_multiset();
        let y = tail.out.to_multiset();
        let z = all_members(tail.rest);
        assert(x.add(y.add(z)).insert(e) =~= x.add(y).insert(e).add(z));
    }
}

proof fn lemma_none(m: Multiset<EventRow>)
    ensures
        Seq::<EventRow>::empty().to_multiset().add(m) == m,
{
    broadcast use vstd::seq_lib::group_to_multiset_ensures;

    assert(Seq::<EventRow>::empty().to_multiset() =~= Multiset::empty());
    assert(Multiset::empty().add(m) =~= m);
}

pub proof fn lemma_behind_members(
    gs: Seq<GroupView<EventRow>>,
    ts: Seq<GroupView<EventRow>>,
    e: EventRow,
    fuel: nat,
)
    ensures
        ({
            let s = behind(gs, ts, e, fuel);
            all_members(ts) == s.out.to_multiset().add(all_members(s.rest))
        }),
    decreases fuel, 2nat,
{
    lemma_none(all_members(ts));
    if let Some((t, n)) = callee(e) {
        if let Some(d) = group_of(ts, t, 0) {
            lemma_told_members(gs, ts, d, ts[d].items.len() - told_at_call(gs, ts, d, n), fuel);
        }
    }
}

proof fn lemma_flattened_members(gs: Seq<GroupView<EventRow>>, n: nat)
    requires
        n <= gs.len(),
    ensures
        flattened(gs, n).to_multiset() == members(gs, n),
    decreases n,
{
    broadcast use vstd::seq_lib::group_to_multiset_ensures;

    if n > 0 {
        lemma_flattened_members(gs, (n - 1) as nat);
        vstd::seq_lib::lemma_multiset_commutative(flattened(gs, (n - 1) as nat), gs[n - 1].items);
    } else {
        assert(flattened(gs, 0).to_multiset() =~= members(gs, 0));
    }
}

/// The groups of events are in the order of their canisters, each once, and hold every event.
pub proof fn law_canisters_hold_all(es: Seq<EventRow>, n: nat)
    requires
        n <= es.len(),
    ensures
        ordered(by_canister(es, n)),
        all_members(each_by_number(by_canister(es, n))) == es.subrange(0, n as int).to_multiset(),
    decreases n,
{
    broadcast use vstd::seq_lib::group_to_multiset_ensures;

    let gs = by_canister(es, n);
    law_sorting_keeps_members(gs, gs.len());
    if n == 0 {
        assert(es.subrange(0, 0) =~= Seq::<EventRow>::empty());
        assert(all_members(gs) =~= es.subrange(0, 0).to_multiset());
    } else {
        let m = (n - 1) as nat;
        law_canisters_hold_all(es, m);
        law_sorting_keeps_members(by_canister(es, m), by_canister(es, m).len());
        let e = es[n - 1];
        law_put_keeps_order(by_canister(es, m), e.canister@, Seq::empty(), e);
        law_put_adds(by_canister(es, m), e.canister@, Seq::empty(), e);
        assert(es.subrange(0, n as int) =~= es.subrange(0, m as int).push(e));
    }
}

/// No event is lost, and none comes twice, when the events are put in one order.
pub proof fn law_reordering_loses_nothing(es: Seq<EventRow>)
    ensures
        reordered(es).to_multiset() == es.to_multiset(),
        reordered(es).len() == es.len(),
{
    broadcast use vstd::seq_lib::group_to_multiset_ensures;

    let gs = each_by_number(by_canister(es, es.len()));
    law_canisters_hold_all(es, es.len());
    assert(es.subrange(0, es.len() as int) =~= es);
    match root(gs, 0) {
        Some(i) => {
            let s = story(gs, i);
            lemma_told_members(gs, gs, i, 0, all_members(gs).len());
            lemma_flattened_members(s.rest, s.rest.len());
            vstd::seq_lib::lemma_multiset_commutative(s.out, flattened(s.rest, s.rest.len()));
        },
        None => {
            let flat = flattened(gs, gs.len());
            lemma_flattened_members(gs, gs.len());
            law_sorted(flat, time_key(), flat.len());
            assert(flat.subrange(0, flat.len() as int) =~= flat);
        },
    }
    assert(reordered(es).len() == reordered(es).to_multiset().len());
    assert(es.len() == es.to_multiset().len());
}

/// Where every canister was called by another, the events come in the order of their times.
pub proof fn law_without_root_by_time(es: Seq<EventRow>)
    requires
        root(each_by_number(by_canister(es, es.len())), 0) is None,
    ensures
        in_order(reordered(es), time_key()),
{
    let gs = each_by_number(by_canister(es, es.len()));
    let flat = flattened(gs, gs.len());
    law_sorted(flat, time_key(), flat.len());
}

// ---------- The timeline and the summary ----------

/// The events with their places, counted from one.
pub open spec fn placed_in_time(es: Seq<EventRow>) -> Seq<EventRow> {
    Seq::new(es.len(), |i: int| EventRow { idx: (i + 1) as usize, ..es[i] })
}

fn number(events: Vec<EventRow>) -> (out: Vec<EventRow>)
    ensures
        out@ == placed_in_time(events@),
{
    let ghost all = events@;
    let total: usize = events.len();
    let mut rest = events;
    let mut out: Vec<EventRow> = Vec::new();
    assert(all.subrange(0, all.len() as int) =~= all);
    while rest.len() > 0
        invariant
            total == all.len(),
            out@.len() + rest@.len() == total,
            rest@ == all.subrange(out@.len() as int, all.len() as int),
            out@ == placed_in_time(all).subrange(0, out@.len() as int),
        decreases rest@.len(),
    {
        let ghost k = out@.len() as int;
        let ghost before = out@;
        let mut e = rest.remove(0);
        assert(e == all[k]);
        e.idx = out.len() + 1;
        out.push(e);
        assert(out@ =~= before.push(placed_in_time(all)[k]));
        assert(placed_in_time(all).subrange(0, k + 1) =~= placed_in_time(all).subrange(0, k).push(
            placed_in_time(all)[k],
        ));
        assert(rest@ =~= all.subrange(k + 1, all.len() as int));
    }
    assert(out@ =~= placed_in_time(all));
    out
}

/// The timeline of the events: in one order, with their places.
pub fn timeline(events: Vec<EventRow>) -> (out: Vec<EventRow>)
    ensures
        out@ == placed_in_time(reordered(events@)),
        forall|i: int|
            0 <= i < out@.len() ==> #[trigger] out@[i] == (EventRow {
                idx: (i + 1) as usize,
                ..reordered(events@)[i]
            }),
        out@.len() == events@.len(),
        forall|i: int| 0 <= i < out@.len() ==> (#[trigger] out@[i]).idx == i + 1,
{
    proof {
        law_reordering_loses_nothing(events@);
    }
    let out = number(reorder_causal(events));
    let len: usize = out.len();
    out
}

/// The canisters of the first `n` events, each once, in the order in which they come.
pub open spec fn canisters_of(es: Seq<EventRow>, n: nat) -> Seq<Seq<char>>
    decreases n,
{
    if n == 0 || n > es.len() {
        Seq::empty()
    } else {
        let before = canisters_of(es, (n - 1) as nat);
        if before.contains(es[n - 1].canister@) {
            before
        } else {
            before.push(es[n - 1].canister@)
        }
    }
}

/// The event is a call.
pub open spec fn is_call(e: EventRow) -> bool {
    e.kind is CallSpawned
}

/// The event tells of a reject.
pub open spec fn is_reject(e: EventRow) -> bool {
    match e.kind {
        EventKind::CallReturned { reject } => reject is Some,
        EventKind::MethodExited { reject } => reject is Some,
        _ => false,
    }
}

/// The number of calls among the first `n` events.
pub open spec fn calls(es: Seq<EventRow>, n: nat) -> nat
    decreases n,
{
    if n == 0 || n > es.len() {
        0
    } else {
        calls(es, (n - 1) as nat) + if is_call(es[n - 1]) {
            1nat
        } else {
            0nat
        }
    }
}

/// The number of rejects among the first `n` events.
pub open spec fn rejects(es: Seq<EventRow>, n: nat) -> nat
    decreases n,
{
    if n == 0 || n > es.len() {
        0
    } else {
        rejects(es, (n - 1) as nat) + if is_reject(es[n - 1]) {
            1nat
        } else {
            0nat
        }
    }
}

/// The time from the first event to the last.
pub open spec fn duration(es: Seq<EventRow>) -> int {
    if es.len() == 0 {
        0
    } else {
        es.last().ts_nanos - es[0].ts_nanos
    }
}

fn holds(names: &Vec<String>, name: &str) -> (r: bool)
    ensures
        r == texts(names@).contains(name@),
{
    let mut i: usize = 0;
    while i < names.len()
        invariant
            i <= names@.len(),
            forall|k: int| 0 <= k < i ==> #[trigger] texts(names@)[k] != name@,
        decreases names@.len() - i,
    {
        if same_text(names[i].as_str(), name) {
            assert(texts(names@)[i as int] == name@);
            return true;
        }
        i += 1;
    }
    false
}

/// What the events of a timeline amount to. The last event is not earlier than the first.
pub fn summarize(trace_id: &str, started_at: i64, label: String, events: &Vec<EventRow>) -> (s:
    TraceSummary)
    requires
        duration(events@) >= 0,
    ensures
        s.trace_id@ == trace_id@,
        s.started_at == started_at,
        s.label == label,
        s.event_count == events@.len(),
        texts(s.canisters@) == canisters_of(events@, events@.len()),
        s.duration_nanos == duration(events@),
        events@.len() > 0 ==> s.duration_nanos == events@.last().ts_nanos - events@[0].ts_nanos,
        s.call_spawned == calls(events@, events@.len()),
        s.rejects == rejects(events@, events@.len()),
{
    let n: usize = events.len();
    let mut canisters: Vec<String> = Vec::new();
    let mut spawned: usize = 0;
    let mut rejected: usize = 0;
    assert(texts(canisters@) =~= canisters_of(events@, 0));
    let mut i: usize = 0;
    while i < n
        invariant
            n == events@.len(),
            i <= n,
            spawned <= i,
            rejected <= i,
            texts(canisters@) == canisters_of(events@, i as nat),
            spawned == calls(events@, i as nat),
            rejected == rejects(events@, i as nat),
        decreases n - i,
    {
        let e = &events[i];
        let ghost before = texts(canisters@);
        if !holds(&canisters, e.canister.as_str()) {
            canisters.push(e.canister.clone());
            assert(texts(canisters@) =~= before.push(e.canister@));
        }
        match &e.kind {
            EventKind::CallSpawned { .. } => {
                spawned += 1;
            },
            EventKind::CallReturned { reject: Some(_) } => {
                rejected += 1;
            },
            EventKind::MethodExited { reject: Some(_) } => {
                rejected += 1;
            },
            _ => {},
        }
        i += 1;
    }
    let duration_nanos: u128 = if n == 0 {
        0
    } else {
        events[n - 1].ts_nanos - events[0].ts_nanos
    };
    TraceSummary {
        trace_id: String::from_str(trace_id),
        started_at,
        label,
        event_count: n,
        canisters,
        duration_nanos,
        call_spawned: spawned,
        rejects: rejected,
    }
}

/// The calls that are counted are the events that spawned one.
pub proof fn law_calls_are_counted(es: Seq<EventRow>)
    ensures
        calls(es, es.len()) == es.filter(|e: EventRow| e.kind is CallSpawned).len(),
    decreases es.len(),
{
    reveal(Seq::filter);
    if es.len() > 0 {
        law_calls_are_counted(es.drop_last());
        lemma_calls_before(es, es.drop_last(), (es.len() - 1) as nat);
    }
}

proof fn lemma_calls_before(es: Seq<EventRow>, fs: Seq<EventRow>, n: nat)
    requires
        n <= fs.len() <= es.len(),
        forall|i: int| 0 <= i < fs.len() ==> es[i] == fs[i],
    ensures
        calls(es, n) == calls(fs, n),
        rejects(es, n) == rejects(fs, n),
        canisters_of(es, n) == canisters_of(fs, n),
    decreases n,
{
    if n > 0 {
        lemma_calls_before(es, fs, (n - 1) as nat);
    }
}

/// The rejects that are counted are the calls that came back, and the methods that ended, with a
/// reject.
pub proof fn law_rejects_are_counted(es: Seq<EventRow>)
    ensures
        rejects(es, es.len()) == es.filter(
            |e: EventRow|
                (e.kind is CallReturned && e.kind->CallReturned_reject is Some) || (
                e.kind is MethodExited && e.kind->MethodExited_reject is Some),
        ).len(),
    decreases es.len(),
{
    reveal(Seq::filter);
    if es.len() > 0 {
        law_rejects_are_counted(es.drop_last());
        lemma_calls_before(es, es.drop_last(), (es.len() - 1) as nat);
    }
}

/// Each canister of the first `n` events is named once, and no other is; those of later events are
/// named behind them.
pub proof fn law_canisters_are_named_once(es: Seq<EventRow>, n: nat)
    requires
        n <= es.len(),
    ensures
        canisters_of(es, n).no_duplicates(),
        forall|i: int| 0 <= i < n ==> canisters_of(es, n).contains((#[trigger] es[i]).canister@),
        forall|k: int|
            0 <= k < canisters_of(es, n).len() ==> exists|i: int|
                0 <= i < n && (#[trigger] es[i]).canister@ == #[trigger] canisters_of(es, n)[k],
        n > 0 ==> canisters_of(es, n).len() >= canisters_of(es, (n - 1) as nat).len()
            && canisters_of(es, n).subrange(0, canisters_of(es, (n - 1) as nat).len() as int)
            == canisters_of(es, (n - 1) as nat),
    decreases n,
{
    if n > 0 {
        let m = (n - 1) as nat;
        law_canisters_are_named_once(es, m);
        let before = canisters_of(es, m);
        let now = canisters_of(es, n);
        let c = es[n - 1].canister@;
        assert(now.subrange(0, before.len() as int) =~= before);
        assert forall|i: int| 0 <= i < n implies now.contains((#[trigger] es[i]).canister@) by {
            if i < m {
                let x = choose|x: int| 0 <= x < before.len() && before[x] == es[i].canister@;
                assert(now[x] == before[x]);
            } else if !before.contains(c) {
                assert(now[before.len() as int] == c);
            }
        }
        assert forall|k: int| 0 <= k < now.len() implies exists|i: int|
            0 <= i < n && (#[trigger] es[i]).canister@ == #[trigger] now[k] by {
            if k < before.len() {
                assert(now[k] == before[k]);
                let i = choose|i: int| 0 <= i < m && (#[trigger] es[i]).canister@ == before[k];
                assert(es[i].canister@ == now[k]);
            } else {
                assert(es[n - 1].canister@ == now[k]);
            }
        }
    }
}

} // verus!
