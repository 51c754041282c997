//! How much of a callee is told behind a call.

use vstd::prelude::*;

use crate::event::EventKind;
use crate::groups::GroupView;
use crate::replay::{
    behind, callee, calls_in, calls_made, entry_of, execution_end, group_of, last_from,
    told_at_call, EventRow,
};

verus! {

/// The event begins an execution.
pub open spec fn enters(e: EventRow) -> bool {
    e.kind is MethodEntered || e.kind is IngressEntered
}

/// How many executions are open before event `j`, of those that began at `p` or later.
pub open spec fn open_at(items: Seq<EventRow>, p: int, j: int) -> int
    decreases j - p,
{
    if j <= p + 1 {
        1
    } else {
        open_at(items, p, j - 1) + if enters(items[j - 1]) {
            1int
        } else if items[j - 1].kind is MethodExited {
            -1
        } else {
            0
        }
    }
}

proof fn lemma_last_from(items: Seq<EventRow>, p: int, j: int, q: int, last: int)
    requires
        0 <= p < j <= q < items.len(),
        forall|x: int| p < x <= q ==> #[trigger] open_at(items, p, x) >= 1,
        items[q].kind is MethodExited,
        open_at(items, p, q) == 1,
        forall|x: int|
            p < x < q && (#[trigger] items[x]).kind is MethodExited ==> open_at(items, p, x) > 1,
    ensures
        last_from(items, j, open_at(items, p, j) as nat, last) == q,
    decreases q - j,
{
    assert(open_at(items, p, j) >= 1);
    if j < q {
        assert(open_at(items, p, j + 1) >= 1);
        let d = open_at(items, p, j);
        let e = items[j];
        if enters(e) || d > 1 {
            lemma_last_from(items, p, j + 1, q, last);
        } else {
            assert(!(e.kind is MethodExited));
            lemma_last_from(items, p, j + 1, q, j);
        }
    }
}

/// An execution ends with the exit that leaves none of those open that began in it, and with no
/// event before, whatever was recorded and however many began and ended in it.
pub proof fn law_execution_ends_with_its_exit(items: Seq<EventRow>, p: int, q: int)
    requires
        0 <= p < q < items.len(),
        enters(items[p]),
        forall|x: int| p < x <= q ==> #[trigger] open_at(items, p, x) >= 1,
        items[q].kind is MethodExited,
        open_at(items, p, q) == 1,
        forall|x: int|
            p < x < q && (#[trigger] items[x]).kind is MethodExited ==> open_at(items, p, x) > 1,
    ensures
        execution_end(items, p) == q + 1,
{
    lemma_last_from(items, p, p + 1, q, p);
}

proof fn lemma_still_open(items: Seq<EventRow>, j: int, last: int)
    requires
        0 <= last < j <= items.len(),
        last == j - 1,
        forall|x: int|
            j <= x < items.len() ==> !enters(#[trigger] items[x]) && !(items[x].kind
                is MethodExited),
    ensures
        last_from(items, j, 1, last) == items.len() - 1,
    decreases items.len() - j,
{
    if j < items.len() {
        assert(!enters(items[j]) && !(items[j].kind is MethodExited));
        lemma_still_open(items, j + 1, j);
    }
}

/// An execution that does not end holds all events behind its entry, where no other begins.
pub proof fn law_open_execution_holds_the_rest(items: Seq<EventRow>, p: int)
    requires
        0 <= p < items.len(),
        enters(items[p]),
        forall|x: int|
            p < x < items.len() ==> !enters(#[trigger] items[x]) && !(items[x].kind
                is MethodExited),
    ensures
        execution_end(items, p) == items.len(),
{
    lemma_still_open(items, p + 1, p);
}

proof fn lemma_entry_at(items: Seq<EventRow>, n: u64, i: int, p: int)
    requires
        0 <= i <= p <= items.len(),
        forall|x: int|
            i <= x < p && enters(#[trigger] items[x]) ==> items[x].parent_seq != Some(n),
        p < items.len() ==> enters(items[p]) && items[p].parent_seq == Some(n),
    ensures
        p < items.len() ==> entry_of(items, n, i) == Some(p),
        p == items.len() ==> entry_of(items, n, i) is None,
    decreases p - i,
{
    if i < p {
        if enters(items[i]) {
            assert(items[i].parent_seq != Some(n));
        }
        lemma_entry_at(items, n, i + 1, p);
    }
}

/// Where an entry with the number of the call for its parent is left of the callee, the first such
/// entry decides: what is left is told up to the end of its execution.
pub proof fn law_caused_execution_is_told(
    gs: Seq<GroupView<EventRow>>,
    ts: Seq<GroupView<EventRow>>,
    d: int,
    n: u64,
    p: int,
)
    requires
        0 <= p < ts[d].items.len(),
        enters(ts[d].items[p]),
        ts[d].items[p].parent_seq == Some(n),
        forall|x: int|
            0 <= x < p && enters(#[trigger] ts[d].items[x]) ==> ts[d].items[x].parent_seq != Some(
                n,
            ),
    ensures
        told_at_call(gs, ts, d, n) == execution_end(ts[d].items, p),
{
    reveal(told_at_call);
    lemma_entry_at(ts[d].items, n, 0, p);
}

/// The event calls canister `t` under the number `n`.
pub open spec fn calls_under(e: EventRow, t: Seq<char>, n: u64) -> bool {
    e.seq == n && (e.kind matches EventKind::CallSpawned { target, .. } && target@ == t)
}

/// An event of the trace calls canister `t` under the number `n`.
pub open spec fn is_recorded_call(gs: Seq<GroupView<EventRow>>, t: Seq<char>, n: u64) -> bool {
    exists|g: int, i: int|
        0 <= g < gs.len() && 0 <= i < gs[g].items.len() && calls_under(
            #[trigger] gs[g].items[i],
            t,
            n,
        )
}

proof fn lemma_calls_in(es: Seq<EventRow>, m: nat, t: Seq<char>, n: u64)
    requires
        m <= es.len(),
    ensures
        calls_in(es, m).contains((t, n)) <==> exists|i: int|
            0 <= i < m && calls_under(#[trigger] es[i], t, n),
    decreases m,
{
    if m > 0 {
        lemma_calls_in(es, (m - 1) as nat, t, n);
        let before = calls_in(es, (m - 1) as nat);
        let now = calls_in(es, m);
        if let Some(c) = callee(es[m - 1]) {
            assert(now == before.push(c));
            assert(now[before.len() as int] == c);
            if before.contains((t, n)) {
                let x = choose|x: int| 0 <= x < before.len() && before[x] == (t, n);
                assert(now[x] == (t, n));
            }
            if now.contains((t, n)) && c != (t, n) {
                let x = choose|x: int| 0 <= x < now.len() && now[x] == (t, n);
                assert(before[x] == (t, n));
            }
        }
        assert(callee(es[m - 1]) == Some((t, n)) <==> calls_under(es[m - 1], t, n));
    }
}

proof fn lemma_calls_made(gs: Seq<GroupView<EventRow>>, m: nat, t: Seq<char>, n: u64)
    requires
        m <= gs.len(),
    ensures
        calls_made(gs, m).contains((t, n)) <==> exists|g: int, i: int|
            0 <= g < m && 0 <= i < gs[g].items.len() && calls_under(
                #[trigger] gs[g].items[i],
                t,
                n,
            ),
    decreases m,
{
    if m > 0 {
        lemma_calls_made(gs, (m - 1) as nat, t, n);
        let items = gs[m - 1].items;
        lemma_calls_in(items, items.len(), t, n);
        let a = calls_made(gs, (m - 1) as nat);
        let b = calls_in(items, items.len());
        if a.contains((t, n)) {
            let x = choose|x: int| 0 <= x < a.len() && a[x] == (t, n);
            assert((a + b)[x] == (t, n));
        }
        if b.contains((t, n)) {
            let x = choose|x: int| 0 <= x < b.len() && b[x] == (t, n);
            assert((a + b)[a.len() + x] == (t, n));
            let i = choose|i: int| 0 <= i < items.len() && calls_under(#[trigger] items[i], t, n);
            assert(calls_under(gs[m - 1].items[i], t, n));
        }
        if (a + b).contains((t, n)) {
            let x = choose|x: int| 0 <= x < (a + b).len() && (a + b)[x] == (t, n);
            if x < a.len() {
                assert(a[x] == (t, n));
            } else {
                assert(b[x - a.len()] == (t, n));
            }
        }
        if exists|g: int, i: int|
            0 <= g < m && 0 <= i < gs[g].items.len() && calls_under(
                #[trigger] gs[g].items[i],
                t,
                n,
            ) {
            let (g, i) = choose|g: int, i: int|
                0 <= g < m && 0 <= i < gs[g].items.len() && calls_under(
                    #[trigger] gs[g].items[i],
                    t,
                    n,
                );
            if g == m - 1 {
                assert(calls_under(items[i], t, n));
            } else {
                assert(calls_under(gs[g].items[i], t, n));
            }
        }
    }
}

/// Where no entry with the number of the call for its parent is left of the callee, an execution is
/// told whose own call was not recorded, where one comes next. What another recorded call caused is
/// kept for that call.
pub proof fn law_only_uncaused_executions_are_told(
    gs: Seq<GroupView<EventRow>>,
    ts: Seq<GroupView<EventRow>>,
    d: int,
    n: u64,
)
    requires
        forall|x: int|
            0 <= x < ts[d].items.len() && enters(#[trigger] ts[d].items[x])
                ==> ts[d].items[x].parent_seq != Some(n),
    ensures
        ts[d].items.len() == 0 ==> told_at_call(gs, ts, d, n) == 0,
        ts[d].items.len() > 0 ==> {
            let first = ts[d].items[0];
            &&& enters(first) && (first.parent_seq matches Some(m) && is_recorded_call(
                gs,
                ts[d].a,
                m,
            )) ==> told_at_call(gs, ts, d, n) == 0
            &&& enters(first) && (first.parent_seq is None || !is_recorded_call(
                gs,
                ts[d].a,
                first.parent_seq->0,
            )) ==> told_at_call(gs, ts, d, n) == execution_end(ts[d].items, 0)
            &&& !enters(first) && ts[d].items.len() == gs[d].items.len() ==> told_at_call(
                gs,
                ts,
                d,
                n,
            ) == execution_end(ts[d].items, 0)
            &&& !enters(first) && ts[d].items.len() != gs[d].items.len() ==> told_at_call(
                gs,
                ts,
                d,
                n,
            ) == 0
        },
{
    reveal(told_at_call);
    let items = ts[d].items;
    lemma_entry_at(items, n, 0, items.len() as int);
    if items.len() > 0 {
        if let Some(m) = items[0].parent_seq {
            lemma_calls_made(gs, gs.len(), ts[d].a, m);
        }
    }
}

/// What is no call leads to nothing, and a call of a canister without events leads to nothing.
pub proof fn law_only_calls_lead_on(
    gs: Seq<GroupView<EventRow>>,
    ts: Seq<GroupView<EventRow>>,
    e: EventRow,
    fuel: nat,
)
    requires
        !(e.kind is CallSpawned) || (forall|i: int|
            0 <= i < ts.len() ==> (#[trigger] ts[i]).a != e.kind->CallSpawned_target@),
    ensures
        behind(gs, ts, e, fuel).out.len() == 0,
        behind(gs, ts, e, fuel).rest == ts,
{
    if let EventKind::CallSpawned { target, .. } = e.kind {
        lemma_no_group(ts, target@, 0);
    }
}

proof fn lemma_no_group(ts: Seq<GroupView<EventRow>>, t: Seq<char>, i: int)
    requires
        0 <= i,
        forall|k: int| 0 <= k < ts.len() ==> (#[trigger] ts[k]).a != t,
    ensures
        group_of(ts, t, i) is None,
    decreases ts.len() - i,
{
    if i < ts.len() {
        assert(ts[i].a != t);
        lemma_no_group(ts, t, i + 1);
    }
}

} // verus!
