//! What the one order of the events of a trace keeps.

use vstd::prelude::*;

use crate::event::EventKind;
use crate::groups::{
    all_members, by_number, each_by_number, law_put_keeps_order, lemma_members_remove, number_key,
    ordered, put_in, rank2, spot, GroupView,
};
use crate::order::{
    law_sorted, law_sorted_has, law_sorted_stable, lemma_with_key_add, lemma_with_key_one, with_key,
};
use crate::replay::{
    behind, by_canister, callee, cause, entry_of, execution_end, flattened, group_of, last_from,
    lemma_behind_members, lemma_without_first, reordered, root, starts_trace, story, time_key, told,
    told_at_call, without_first, EventRow,
};
use crate::text::{lemma_rank_same, rank, Rank};

verus! {

/// The events of a canister, in order.
pub open spec fn events_of(es: Seq<EventRow>, c: Seq<char>) -> Seq<EventRow> {
    es.filter(|e: EventRow| e.canister@ == c)
}

/// All events of the groups.
spec fn flat(gs: Seq<GroupView<EventRow>>) -> Seq<EventRow> {
    flattened(gs, gs.len())
}

/// The group holds events of the canister that it is named after, at least one.
#[verifier::opaque]
spec fn is_group(g: GroupView<EventRow>) -> bool {
    g.items.len() > 0 && forall|k: int|
        0 <= k < g.items.len() ==> (#[trigger] g.items[k]).canister@ == g.a
}

/// Each group holds events of the canister that it is named after, at least one, and no two are
/// named alike.
#[verifier::opaque]
spec fn proper(gs: Seq<GroupView<EventRow>>) -> bool {
    &&& forall|i: int| 0 <= i < gs.len() ==> is_group(#[trigger] gs[i])
    &&& forall|i: int, j: int|
        0 <= i < j < gs.len() ==> (#[trigger] gs[i]).a != (#[trigger] gs[j]).a
}

proof fn lemma_of_add(x: Seq<EventRow>, y: Seq<EventRow>, c: Seq<char>)
    ensures
        events_of(x + y, c) == events_of(x, c) + events_of(y, c),
{
    Seq::filter_distributes_over_add(x, y, |e: EventRow| e.canister@ == c);
}

proof fn lemma_of_none(x: Seq<EventRow>, c: Seq<char>)
    requires
        forall|i: int| 0 <= i < x.len() ==> (#[trigger] x[i]).canister@ != c,
    ensures
        events_of(x, c) == Seq::<EventRow>::empty(),
    decreases x.len(),
{
    reveal(Seq::filter);
    if x.len() > 0 {
        assert(x[x.len() - 1].canister@ != c);
        lemma_of_none(x.drop_last(), c);
    }
}

proof fn lemma_of_all(x: Seq<EventRow>, c: Seq<char>)
    requires
        forall|i: int| 0 <= i < x.len() ==> (#[trigger] x[i]).canister@ == c,
    ensures
        events_of(x, c) == x,
    decreases x.len(),
{
    reveal(Seq::filter);
    if x.len() > 0 {
        assert(x[x.len() - 1].canister@ == c);
        lemma_of_all(x.drop_last(), c);
        assert(x.drop_last().push(x.last()) =~= x);
    }
}

/// The events of the first `n` groups that are of a canister are those of its group.
proof fn lemma_flat_of(gs: Seq<GroupView<EventRow>>, c: Seq<char>, n: nat)
    requires
        proper(gs),
        n <= gs.len(),
    ensures
        forall|i: int|
            0 <= i < n && (#[trigger] gs[i]).a == c ==> events_of(flattened(gs, n), c)
                == gs[i].items,
        (forall|i: int| 0 <= i < n ==> (#[trigger] gs[i]).a != c) ==> events_of(
            flattened(gs, n),
            c,
        ) == Seq::<EventRow>::empty(),
    decreases n,
{
    reveal(proper);
    if n == 0 {
        lemma_of_none(flattened(gs, 0), c);
    } else {
        let m = (n - 1) as nat;
        let items = gs[n - 1].items;
        assert(is_group(gs[n - 1]));
        reveal(is_group);
        lemma_flat_of(gs, c, m);
        lemma_of_add(flattened(gs, m), items, c);
        if gs[n - 1].a == c {
            lemma_of_all(items, c);
            assert(forall|i: int| 0 <= i < m ==> (#[trigger] gs[i]).a != c);
            assert(Seq::<EventRow>::empty() + items =~= items);
        } else {
            lemma_of_none(items, c);
            let before = events_of(flattened(gs, m), c);
            assert(before + Seq::<EventRow>::empty() =~= before);
        }
    }
}

proof fn lemma_group_of(gs: Seq<GroupView<EventRow>>, c: Seq<char>, i: int)
    requires
        0 <= i <= gs.len(),
    ensures
        match group_of(gs, c, i) {
            Some(k) => i <= k < gs.len() && gs[k].a == c,
            None => forall|k: int| i <= k < gs.len() ==> (#[trigger] gs[k]).a != c,
        },
    decreases gs.len() - i,
{
    if i < gs.len() && gs[i].a != c {
        lemma_group_of(gs, c, i + 1);
    }
}

/// Taking a group away takes the events of its canister away, and no others.
proof fn lemma_remove_group(gs: Seq<GroupView<EventRow>>, at: int, c: Seq<char>)
    requires
        proper(gs),
        0 <= at < gs.len(),
    ensures
        proper(gs.remove(at)),
        events_of(flat(gs), c) == events_of(gs[at].items, c) + events_of(flat(gs.remove(at)), c),
        events_of(flat(gs.remove(at)), gs[at].a) == Seq::<EventRow>::empty(),
{
    reveal(proper);
    let rest = gs.remove(at);
    assert forall|i: int| 0 <= i < rest.len() implies is_group(#[trigger] rest[i]) by {
        assert(rest[i] == gs[if i < at {
            i
        } else {
            i + 1
        }]);
    }
    assert(is_group(gs[at]));
    reveal(is_group);
    assert forall|i: int, j: int| 0 <= i < j < rest.len() implies (#[trigger] rest[i]).a != (
    #[trigger] rest[j]).a by {
        let x = if i < at {
            i
        } else {
            i + 1
        };
        let y = if j < at {
            j
        } else {
            j + 1
        };
        assert(rest[i] == gs[x] && rest[j] == gs[y]);
        assert(gs[x].a != gs[y].a);
    }
    lemma_others_differ(gs, at);
    lemma_flat_of(rest, gs[at].a, rest.len());
    lemma_flat_of(gs, c, gs.len());
    lemma_flat_of(rest, c, rest.len());
    if gs[at].a == c {
        lemma_of_all(gs[at].items, c);
        assert(gs[at].items + Seq::<EventRow>::empty() =~= gs[at].items);
    } else {
        lemma_of_none(gs[at].items, c);
        lemma_group_of(gs, c, 0);
        match group_of(gs, c, 0) {
            Some(i) => {
                let j = if i < at {
                    i
                } else {
                    i - 1
                };
                assert(rest[j] == gs[i]);
            },
            None => {
                assert forall|k: int| 0 <= k < rest.len() implies (#[trigger] rest[k]).a != c by {
                    assert(rest[k] == gs[if k < at {
                        k
                    } else {
                        k + 1
                    }]);
                }
            },
        }
        let left = events_of(flat(rest), c);
        assert(Seq::<EventRow>::empty() + left =~= left);
    }
}

proof fn lemma_others_differ(gs: Seq<GroupView<EventRow>>, at: int)
    requires
        proper(gs),
        0 <= at < gs.len(),
    ensures
        forall|k: int| 0 <= k < gs.len() - 1 ==> (#[trigger] gs.remove(at)[k]).a != gs[at].a,
{
    reveal(proper);
    assert forall|k: int| 0 <= k < gs.len() - 1 implies (#[trigger] gs.remove(at)[k]).a
        != gs[at].a by {
        if k < at {
            assert(gs.remove(at)[k] == gs[k]);
        } else {
            assert(gs.remove(at)[k] == gs[k + 1]);
        }
    }
}

/// The groups of the first `n` events hold the events of each canister in the order in which they
/// came.
proof fn lemma_by_canister(es: Seq<EventRow>, n: nat, c: Seq<char>)
    requires
        n <= es.len(),
    ensures
        ordered(by_canister(es, n)),
        proper(by_canister(es, n)),
        forall|i: int|
            0 <= i < by_canister(es, n).len() ==> (#[trigger] by_canister(es, n)[i]).b
                == Seq::<char>::empty(),
        events_of(flat(by_canister(es, n)), c) == events_of(es.subrange(0, n as int), c),
    decreases n,
{
    if n == 0 {
        reveal(proper);
        lemma_of_none(Seq::empty(), c);
        assert(es.subrange(0, 0) =~= Seq::<EventRow>::empty());
    } else {
        let m = (n - 1) as nat;
        let e = es[n - 1];
        lemma_by_canister(es, m, c);
        lemma_put_in_proper(by_canister(es, m), e);
        lemma_put_in(by_canister(es, m), e, c);
        assert(es.subrange(0, n as int) =~= es.subrange(0, m as int) + seq![e]);
        lemma_of_add(es.subrange(0, m as int), seq![e], c);
    }
}

proof fn lemma_group_grows(g: GroupView<EventRow>, e: EventRow)
    requires
        is_group(g),
        e.canister@ == g.a,
    ensures
        is_group(GroupView { a: g.a, b: g.b, items: g.items.push(e) }),
{
    reveal(is_group);
}

/// Groups in order that have no second names differ in their first.
proof fn lemma_names_differ(gs: Seq<GroupView<EventRow>>)
    requires
        ordered(gs),
        forall|i: int| 0 <= i < gs.len() ==> (#[trigger] gs[i]).b == Seq::<char>::empty(),
    ensures
        forall|i: int, j: int|
            0 <= i < j < gs.len() ==> (#[trigger] gs[i]).a != (#[trigger] gs[j]).a,
{
    assert forall|i: int, j: int| 0 <= i < j < gs.len() implies (#[trigger] gs[i]).a != (
    #[trigger] gs[j]).a by {
        assert(rank2(gs[i].a, gs[i].b, gs[j].a, gs[j].b) == Rank::Before);
        lemma_rank_same(gs[i].a, gs[j].a);
        lemma_rank_same(gs[i].b, gs[j].b);
    }
}

/// An event that is put into the groups leaves them proper.
proof fn lemma_put_in_proper(gs: Seq<GroupView<EventRow>>, e: EventRow)
    requires
        ordered(gs),
        proper(gs),
        forall|i: int| 0 <= i < gs.len() ==> (#[trigger] gs[i]).b == Seq::<char>::empty(),
    ensures
        ordered(put_in(gs, e.canister@, Seq::empty(), e)),
        proper(put_in(gs, e.canister@, Seq::empty(), e)),
        forall|i: int|
            0 <= i < put_in(gs, e.canister@, Seq::empty(), e).len() ==> (#[trigger] put_in(
                gs,
                e.canister@,
                Seq::empty(),
                e,
            )[i]).b == Seq::<char>::empty(),
{
    reveal(proper);
    let a = e.canister@;
    let b = Seq::<char>::empty();
    let at = spot(gs, a, b, 0);
    let out = put_in(gs, a, b, e);
    law_put_keeps_order(gs, a, b, e);
    lemma_spot_in(gs, a, b, 0);
    let found = at < gs.len() && gs[at].a == a && gs[at].b == b;
    assert forall|i: int| 0 <= i < out.len() implies (#[trigger] out[i]).b == b && is_group(
        out[i],
    ) by {
        if i != at {
            assert(out[i] == gs[if found || i < at {
                i
            } else {
                i - 1
            }]);
        } else if found {
            lemma_group_grows(gs[at], e);
        } else {
            reveal(is_group);
        }
    }
    lemma_names_differ(out);
}

/// An event that is put into the groups comes behind those of its canister.
proof fn lemma_put_in(gs: Seq<GroupView<EventRow>>, e: EventRow, c: Seq<char>)
    requires
        ordered(gs),
        proper(gs),
        forall|i: int| 0 <= i < gs.len() ==> (#[trigger] gs[i]).b == Seq::<char>::empty(),
    ensures
        events_of(flat(put_in(gs, e.canister@, Seq::empty(), e)), c) == events_of(flat(gs), c)
            + events_of(seq![e], c),
{
    let a = e.canister@;
    let b = Seq::<char>::empty();
    let at = spot(gs, a, b, 0);
    let out = put_in(gs, a, b, e);
    lemma_put_in_proper(gs, e);
    lemma_spot_in(gs, a, b, 0);
    lemma_remove_group(out, at, c);
    lemma_remove_group(out, at, a);
    let one = events_of(seq![e], c);
    if c != a {
        lemma_of_none(seq![e], c);
    }
    if at < gs.len() && gs[at].a == a && gs[at].b == b {
        assert(out.remove(at) =~= gs.remove(at));
        lemma_remove_group(gs, at, c);
        assert(out[at].items =~= gs[at].items + seq![e]);
        lemma_of_add(gs[at].items, seq![e], c);
        let held = events_of(gs[at].items, c);
        let rest = events_of(flat(gs.remove(at)), c);
        assert(held + one + rest =~= held + rest + one);
    } else {
        assert(out.remove(at) =~= gs);
        let rest = events_of(flat(gs), c);
        assert(out[at].items =~= seq![e]);
        assert(one + rest =~= rest + one);
    }
}

proof fn lemma_spot_in(gs: Seq<GroupView<EventRow>>, a: Seq<char>, b: Seq<char>, i: int)
    requires
        0 <= i <= gs.len(),
    ensures
        i <= spot(gs, a, b, i) <= gs.len(),
    decreases gs.len() - i,
{
    if i < gs.len() && rank2(gs[i].a, gs[i].b, a, b) == Rank::Before {
        lemma_spot_in(gs, a, b, i + 1);
    }
}

proof fn lemma_group_sorts(g: GroupView<EventRow>)
    requires
        is_group(g),
    ensures
        is_group(GroupView { a: g.a, b: g.b, items: by_number(g.items) }),
{
    reveal(is_group);
    let items = g.items;
    let out = by_number(items);
    law_sorted(items, number_key::<EventRow>(), items.len());
    law_sorted_has(items, number_key::<EventRow>());
    assert forall|k: int| 0 <= k < out.len() implies (#[trigger] out[k]).canister@ == g.a by {
        assert(items.contains(out[k]));
    }
}

/// Sorting each group sorts the events of each canister.
proof fn lemma_each_by_number(gs: Seq<GroupView<EventRow>>, c: Seq<char>)
    requires
        proper(gs),
    ensures
        proper(each_by_number(gs)),
        events_of(flat(each_by_number(gs)), c) == by_number(events_of(flat(gs), c)),
{
    reveal(proper);
    let out = each_by_number(gs);
    assert forall|i: int| 0 <= i < out.len() implies is_group(#[trigger] out[i]) by {
        assert(is_group(gs[i]));
        lemma_group_sorts(gs[i]);
    }
    assert forall|i: int, j: int| 0 <= i < j < out.len() implies (#[trigger] out[i]).a != (
    #[trigger] out[j]).a by {
        assert(gs[i].a != gs[j].a);
    }
    lemma_flat_of(gs, c, gs.len());
    lemma_flat_of(out, c, out.len());
    lemma_group_of(gs, c, 0);
    match group_of(gs, c, 0) {
        Some(i) => {
            assert(out[i].a == c);
        },
        None => {
            assert(forall|k: int| 0 <= k < out.len() ==> (#[trigger] out[k]).a != c);
        },
    }
}

// ---------- What is left ----------

/// The events of each canister are of the canister that the group is named after, and no two groups
/// are named alike.
#[verifier::opaque]
spec fn sorted_out(ts: Seq<GroupView<EventRow>>) -> bool {
    &&& forall|i: int, k: int|
        0 <= i < ts.len() && 0 <= k < ts[i].items.len() ==> (#[trigger] ts[i].items[k]).canister@
            == ts[i].a
    &&& forall|i: int, j: int|
        0 <= i < j < ts.len() ==> (#[trigger] ts[i]).a != (#[trigger] ts[j]).a
}

/// What is left of a canister.
#[verifier::opaque]
spec fn left_of(ts: Seq<GroupView<EventRow>>, c: Seq<char>) -> Seq<EventRow> {
    match group_of(ts, c, 0) {
        Some(i) => ts[i].items,
        None => Seq::empty(),
    }
}

proof fn lemma_sorted_out(gs: Seq<GroupView<EventRow>>)
    requires
        proper(gs),
    ensures
        sorted_out(gs),
{
    reveal(proper);
    reveal(sorted_out);
    reveal(is_group);
    assert forall|i: int, k: int| 0 <= i < gs.len() && 0 <= k < gs[i].items.len() implies (
    #[trigger] gs[i].items[k]).canister@ == gs[i].a by {
        assert(is_group(gs[i]));
    }
}

/// What is left of a canister is its part of all that is left.
proof fn lemma_left_of(ts: Seq<GroupView<EventRow>>, c: Seq<char>, n: nat)
    requires
        sorted_out(ts),
        n <= ts.len(),
    ensures
        events_of(flattened(ts, n), c) == match group_of(ts, c, 0) {
            Some(i) => if i < n {
                ts[i].items
            } else {
                Seq::empty()
            },
            None => Seq::empty(),
        },
    decreases n,
{
    reveal(sorted_out);
    lemma_group_of(ts, c, 0);
    if n == 0 {
        lemma_of_none(flattened(ts, 0), c);
    } else {
        let m = (n - 1) as nat;
        let items = ts[n - 1].items;
        lemma_left_of(ts, c, m);
        lemma_of_add(flattened(ts, m), items, c);
        let before = events_of(flattened(ts, m), c);
        if ts[n - 1].a == c {
            assert forall|k: int| 0 <= k < items.len() implies (#[trigger] items[k]).canister@
                == c by {
                assert(ts[n - 1].items[k].canister@ == ts[n - 1].a);
            }
            lemma_of_all(items, c);
            let i = group_of(ts, c, 0)->0;
            assert(i == n - 1);
            assert(Seq::<EventRow>::empty() + items =~= items);
        } else {
            assert forall|k: int| 0 <= k < items.len() implies (#[trigger] items[k]).canister@
                != c by {
                assert(ts[n - 1].items[k].canister@ == ts[n - 1].a);
            }
            lemma_of_none(items, c);
            assert(before + Seq::<EventRow>::empty() =~= before);
        }
    }
}

/// Telling the first event that is left of a canister takes it from that canister alone.
proof fn lemma_tell_first(ts: Seq<GroupView<EventRow>>, c: int, can: Seq<char>)
    requires
        sorted_out(ts),
        0 <= c < ts.len(),
        ts[c].items.len() > 0,
    ensures
        sorted_out(without_first(ts, c)),
        left_of(ts, can) == events_of(seq![ts[c].items[0]], can) + left_of(
            without_first(ts, c),
            can,
        ),
{
    reveal(left_of);
    reveal(sorted_out);
    let less = without_first(ts, c);
    let e = ts[c].items[0];
    assert forall|i: int, k: int| 0 <= i < less.len() && 0 <= k < less[i].items.len() implies (
    #[trigger] less[i].items[k]).canister@ == less[i].a by {
        if i == c {
            assert(less[i].items[k] == ts[i].items[k + 1]);
        } else {
            assert(less[i].items[k] == ts[i].items[k]);
        }
    }
    assert forall|i: int, j: int| 0 <= i < j < less.len() implies (#[trigger] less[i]).a != (
    #[trigger] less[j]).a by {
        assert(ts[i].a != ts[j].a);
    }
    lemma_group_of(ts, can, 0);
    lemma_group_of(less, can, 0);
    assert(e.canister@ == ts[c].a);
    let none = Seq::<EventRow>::empty();
    if can == ts[c].a {
        assert(less[c].a == can);
        let i = group_of(ts, can, 0)->0;
        let j = group_of(less, can, 0)->0;
        assert(i == c);
        assert(j == c) by {
            assert(less[j].a == can);
        }
        lemma_of_all(seq![e], can);
        assert(ts[c].items =~= seq![e] + less[c].items);
    } else {
        lemma_of_none(seq![e], can);
        if let Some(i) = group_of(ts, can, 0) {
            assert(less[i].a == can);
            let j = group_of(less, can, 0)->0;
            assert(j == i) by {
                assert(less[j].a == can);
            }
        } else if let Some(j) = group_of(less, can, 0) {
            assert(ts[j].a == can);
        }
        assert(none + left_of(less, can) =~= left_of(less, can));
    }
}

/// Of each canister, what is told and then what is left make up what was left before.
proof fn lemma_told_keeps(
    gs: Seq<GroupView<EventRow>>,
    ts: Seq<GroupView<EventRow>>,
    c: int,
    left: int,
    fuel: nat,
    can: Seq<char>,
)
    requires
        sorted_out(ts),
    ensures
        ({
            let s = told(gs, ts, c, left, fuel);
            sorted_out(s.rest) && left_of(ts, can) == events_of(s.out, can) + left_of(s.rest, can)
        }),
    decreases fuel, 1nat,
{
    let s = told(gs, ts, c, left, fuel);
    if fuel == 0 || c < 0 || c >= ts.len() || ts[c].items.len() <= left || ts[c].items.len() == 0 {
        lemma_of_none(s.out, can);
        lemma_none_first(left_of(ts, can));
    } else {
        let e = ts[c].items[0];
        let less = without_first(ts, c);
        let d = (fuel - 1) as nat;
        let inner = behind(gs, less, e, d);
        let tail = told(gs, inner.rest, c, left, d);
        lemma_tell_first(ts, c, can);
        lemma_behind_keeps(gs, less, e, d, can);
        lemma_told_keeps(gs, inner.rest, c, left, d, can);
        lemma_of_add(seq![e] + inner.out, tail.out, can);
        lemma_of_add(seq![e], inner.out, can);
        let x = events_of(seq![e], can);
        let y = events_of(inner.out, can);
        let z = events_of(tail.out, can);
        let w = left_of(tail.rest, can);
        lemma_four_parts(x, y, z, w);
    }
}

proof fn lemma_four_parts(
    x: Seq<EventRow>,
    y: Seq<EventRow>,
    z: Seq<EventRow>,
    w: Seq<EventRow>,
)
    ensures
        x + (y + (z + w)) == x + y + z + w,
{
    assert(x + (y + (z + w)) =~= x + y + z + w);
}

proof fn lemma_three_parts(x: Seq<EventRow>, y: Seq<EventRow>, z: Seq<EventRow>)
    ensures
        x + y + z == x + (y + z),
{
    assert(x + y + z =~= x + (y + z));
}

proof fn lemma_none_first(x: Seq<EventRow>)
    ensures
        Seq::<EventRow>::empty() + x == x,
{
    assert(Seq::<EventRow>::empty() + x =~= x);
}

proof fn lemma_behind_keeps(
    gs: Seq<GroupView<EventRow>>,
    ts: Seq<GroupView<EventRow>>,
    e: EventRow,
    fuel: nat,
    can: Seq<char>,
)
    requires
        sorted_out(ts),
    ensures
        ({
            let s = behind(gs, ts, e, fuel);
            sorted_out(s.rest) && left_of(ts, can) == events_of(s.out, can) + left_of(s.rest, can)
        }),
    decreases fuel, 2nat,
{
    lemma_of_none(Seq::empty(), can);
    lemma_none_first(left_of(ts, can));
    if let Some((t, n)) = callee(e) {
        if let Some(d) = group_of(ts, t, 0) {
            let left = ts[d].items.len() - told_at_call(gs, ts, d, n);
            lemma_told_keeps(gs, ts, d, left, fuel, can);
        }
    }
}

// ---------- The laws ----------

/// The events of a trace by canister, those of each by their numbers.
pub open spec fn canisters(es: Seq<EventRow>) -> Seq<GroupView<EventRow>> {
    each_by_number(by_canister(es, es.len()))
}

/// The events that are reached from the first canister that no other called.
pub open spec fn reached(es: Seq<EventRow>) -> Seq<EventRow> {
    story(canisters(es), root(canisters(es), 0)->0).out
}

proof fn lemma_canisters(es: Seq<EventRow>, c: Seq<char>)
    ensures
        sorted_out(canisters(es)),
        left_of(canisters(es), c) == by_number(events_of(es, c)),
{
    reveal(left_of);
    let gs = canisters(es);
    lemma_by_canister(es, es.len(), c);
    assert(es.subrange(0, es.len() as int) =~= es);
    lemma_each_by_number(by_canister(es, es.len()), c);
    lemma_sorted_out(gs);
    lemma_left_of(gs, c, gs.len());
    lemma_group_of(gs, c, 0);
}

/// Where a canister was called by no other, the timeline holds the events of each canister in the
/// order of their numbers.
pub proof fn law_canister_keeps_its_order(es: Seq<EventRow>, c: Seq<char>)
    requires
        root(canisters(es), 0) is Some,
    ensures
        events_of(reordered(es), c) == by_number(events_of(es, c)),
{
    reveal(left_of);
    let gs = canisters(es);
    let i = root(gs, 0)->0;
    let s = story(gs, i);
    lemma_canisters(es, c);
    lemma_told_keeps(gs, gs, i, 0, all_members(gs).len(), c);
    lemma_left_of(s.rest, c, s.rest.len());
    lemma_group_of(s.rest, c, 0);
    lemma_of_add(s.out, flattened(s.rest, s.rest.len()), c);
}

/// Where a canister was called by no other, no event of the timeline has a greater number than a
/// later one of its canister.
pub proof fn law_numbers_ascend(es: Seq<EventRow>, i: int, j: int)
    requires
        root(canisters(es), 0) is Some,
        0 <= i < j < reordered(es).len(),
        reordered(es)[i].canister@ == reordered(es)[j].canister@,
    ensures
        reordered(es)[i].seq <= reordered(es)[j].seq,
{
    let out = reordered(es);
    let c = out[i].canister@;
    law_canister_keeps_its_order(es, c);
    law_sorted(events_of(es, c), number_key::<EventRow>(), events_of(es, c).len());
    let x = out.subrange(0, i);
    let a = seq![out[i]];
    let y = out.subrange(i + 1, j);
    let b = seq![out[j]];
    let z = out.subrange(j + 1, out.len() as int);
    assert(out =~= x + a + y + b + z);
    lemma_of_add(x + a + y + b, z, c);
    lemma_of_add(x + a + y, b, c);
    lemma_of_add(x + a, y, c);
    lemma_of_add(x, a, c);
    lemma_of_all(a, c);
    lemma_of_all(b, c);
    let p = events_of(x, c).len() as int;
    let q = p + 1 + events_of(y, c).len();
    let own = events_of(out, c);
    assert(own[p] == out[i]);
    assert(own[q] == out[j]);
    let key = number_key::<EventRow>();
    assert(key(own[p]) <= key(own[q]));
}

/// Where a canister was called by no other, the timeline begins with the first event of the first
/// such canister.
pub proof fn law_begins_with_root(es: Seq<EventRow>)
    requires
        root(canisters(es), 0) is Some,
    ensures
        ({
            let first = canisters(es)[root(canisters(es), 0)->0].items[0];
            reordered(es).len() > 0 && reordered(es)[0] == first && starts_trace(first)
        }),
{
    let gs = canisters(es);
    let i = root(gs, 0)->0;
    lemma_root(gs, 0);
    lemma_without_first(gs, i);
    let s = story(gs, i);
    assert(s.out[0] == gs[i].items[0]);
}

proof fn lemma_root(gs: Seq<GroupView<EventRow>>, i: int)
    ensures
        root(gs, i) matches Some(k) ==> 0 <= i <= k < gs.len() && gs[k].items.len() > 0
            && starts_trace(gs[k].items[0]),
    decreases gs.len() - i,
{
    if 0 <= i < gs.len() && !(gs[i].items.len() > 0 && starts_trace(gs[i].items[0])) {
        lemma_root(gs, i + 1);
    }
}

proof fn lemma_last_from(items: Seq<EventRow>, j: int, depth: nat, last: int)
    requires
        0 <= last < j,
        last < items.len(),
    ensures
        last <= last_from(items, j, depth, last) < items.len(),
    decreases items.len() - j,
{
    if j < items.len() {
        lemma_last_from(items, j + 1, depth + 1, last);
        lemma_last_from(items, j + 1, depth, last);
        lemma_last_from(items, j + 1, depth, j);
        if depth > 1 {
            lemma_last_from(items, j + 1, (depth - 1) as nat, last);
        }
    }
}

/// Told at a call, the entry that the call caused comes first where it is the first event that is
/// left of its canister.
proof fn lemma_entry_first(
    gs: Seq<GroupView<EventRow>>,
    ts: Seq<GroupView<EventRow>>,
    e: EventRow,
    fuel: nat,
)
    requires
        all_members(ts).len() <= fuel,
        callee(e) matches Some((t, n)) && left_of(ts, t).len() > 0 && cause(left_of(ts, t)[0])
            == Some(n),
    ensures
        behind(gs, ts, e, fuel).out.len() > 0,
        behind(gs, ts, e, fuel).out[0] == left_of(ts, (callee(e)->0).0)[0],
{
    reveal(told_at_call);
    reveal(left_of);
    let (t, n) = callee(e)->0;
    lemma_group_of(ts, t, 0);
    let d = group_of(ts, t, 0)->0;
    let items = ts[d].items;
    assert(entry_of(items, n, 0) == Some(0int));
    lemma_last_from(items, 1, 1, 0);
    assert(execution_end(items, 0) >= 1);
    lemma_without_first(ts, d);
}

proof fn lemma_told_follows(
    gs: Seq<GroupView<EventRow>>,
    ts: Seq<GroupView<EventRow>>,
    c: int,
    left: int,
    fuel: nat,
    k: int,
)
    requires
        sorted_out(ts),
        all_members(ts).len() <= fuel,
        ({
            let s = told(gs, ts, c, left, fuel);
            &&& 0 <= k < s.out.len()
            &&& callee(s.out[k]) matches Some((t, n)) && ({
                let next = events_of(s.out.subrange(k + 1, s.out.len() as int), t) + left_of(
                    s.rest,
                    t,
                );
                next.len() > 0 && cause(next[0]) == Some(n)
            })
        }),
    ensures
        ({
            let s = told(gs, ts, c, left, fuel);
            let t = (callee(s.out[k])->0).0;
            let next = events_of(s.out.subrange(k + 1, s.out.len() as int), t) + left_of(s.rest, t);
            k + 1 < s.out.len() && s.out[k + 1] == next[0]
        }),
    decreases fuel, 1nat,
{
    let s = told(gs, ts, c, left, fuel);
    let t = (callee(s.out[k])->0).0;
    let e = ts[c].items[0];
    let less = without_first(ts, c);
    let d = (fuel - 1) as nat;
    let inner = behind(gs, less, e, d);
    let tail = told(gs, inner.rest, c, left, d);
    lemma_without_first(ts, c);
    lemma_tell_first(ts, c, t);
    lemma_behind_keeps(gs, less, e, d, t);
    lemma_told_keeps(gs, inner.rest, c, left, d, t);
    lemma_behind_less(gs, less, e, d);
    let len = s.out.len() as int;
    let n = inner.out.len() as int;
    if k == 0 {
        assert(s.out.subrange(1, len) =~= inner.out + tail.out);
        lemma_of_add(inner.out, tail.out, t);
        let x = events_of(inner.out, t);
        let y = events_of(tail.out, t);
        lemma_three_parts(x, y, left_of(tail.rest, t));
        lemma_entry_first(gs, less, e, d);
        assert(s.out[1] == inner.out[0]);
    } else if k <= n {
        let part = inner.out.subrange(k, n);
        assert(s.out.subrange(k + 1, len) =~= part + tail.out);
        lemma_of_add(part, tail.out, t);
        let x = events_of(part, t);
        let y = events_of(tail.out, t);
        lemma_three_parts(x, y, left_of(tail.rest, t));
        assert(s.out[k] == inner.out[k - 1]);
        lemma_behind_follows(gs, less, e, d, k - 1);
        assert(s.out[k + 1] == inner.out[k]);
    } else {
        let j = k - 1 - n;
        assert(s.out[k] == tail.out[j]);
        assert(s.out.subrange(k + 1, len) =~= tail.out.subrange(j + 1, tail.out.len() as int));
        lemma_told_follows(gs, inner.rest, c, left, d, j);
        assert(s.out[k + 1] == tail.out[j + 1]);
    }
}

proof fn lemma_behind_follows(
    gs: Seq<GroupView<EventRow>>,
    ts: Seq<GroupView<EventRow>>,
    e: EventRow,
    fuel: nat,
    k: int,
)
    requires
        sorted_out(ts),
        all_members(ts).len() <= fuel,
        ({
            let s = behind(gs, ts, e, fuel);
            &&& 0 <= k < s.out.len()
            &&& callee(s.out[k]) matches Some((t, n)) && ({
                let next = events_of(s.out.subrange(k + 1, s.out.len() as int), t) + left_of(
                    s.rest,
                    t,
                );
                next.len() > 0 && cause(next[0]) == Some(n)
            })
        }),
    ensures
        ({
            let s = behind(gs, ts, e, fuel);
            let t = (callee(s.out[k])->0).0;
            let next = events_of(s.out.subrange(k + 1, s.out.len() as int), t) + left_of(s.rest, t);
            k + 1 < s.out.len() && s.out[k + 1] == next[0]
        }),
    decreases fuel, 2nat,
{
    let (t, n) = callee(e)->0;
    let d = group_of(ts, t, 0)->0;
    let left = ts[d].items.len() - told_at_call(gs, ts, d, n);
    lemma_told_follows(gs, ts, d, left, fuel, k);
}

/// Where a call is reached, and the next event of the canister that it calls is the entry that it
/// caused, that entry stands directly behind the call.
pub proof fn law_entry_follows_its_call(es: Seq<EventRow>, k: int)
    requires
        root(canisters(es), 0) is Some,
        0 <= k < reached(es).len(),
        callee(reordered(es)[k]) matches Some((t, n)) && ({
            let next = events_of(reordered(es).subrange(k + 1, reordered(es).len() as int), t);
            next.len() > 0 && cause(next[0]) == Some(n)
        }),
    ensures
        ({
            let t = (callee(reordered(es)[k])->0).0;
            let next = events_of(reordered(es).subrange(k + 1, reordered(es).len() as int), t);
            k + 1 < reordered(es).len() && reordered(es)[k + 1] == next[0]
        }),
{
    reveal(left_of);
    let gs = canisters(es);
    let i = root(gs, 0)->0;
    let s = story(gs, i);
    let out = reordered(es);
    let rest = flattened(s.rest, s.rest.len());
    assert(out[k] == s.out[k]);
    let t = (callee(out[k])->0).0;
    let part = s.out.subrange(k + 1, s.out.len() as int);
    assert(out.subrange(k + 1, out.len() as int) =~= part + rest);
    lemma_of_add(part, rest, t);
    lemma_canisters(es, t);
    lemma_told_keeps(gs, gs, i, 0, all_members(gs).len(), t);
    lemma_left_of(s.rest, t, s.rest.len());
    lemma_group_of(s.rest, t, 0);
    lemma_told_follows(gs, gs, i, 0, all_members(gs).len(), k);
}

/// No event comes back.
proof fn lemma_behind_less(
    gs: Seq<GroupView<EventRow>>,
    ts: Seq<GroupView<EventRow>>,
    e: EventRow,
    fuel: nat,
)
    ensures
        all_members(behind(gs, ts, e, fuel).rest).len() <= all_members(ts).len(),
{
    lemma_behind_members(gs, ts, e, fuel);
}

// ---------- Whole executions ----------

/// The first `m` events are those up to the end of the execution that the call with number `n`
/// caused: it begins at `p` with the first entry that has the call for its parent, and ends with
/// its exit, or is still open. None of the events is a call, and no other execution begins in it.
pub open spec fn whole_execution(items: Seq<EventRow>, n: u64, p: int, m: int) -> bool {
    &&& 0 <= p < m <= items.len()
    &&& items[p].kind is MethodEntered || items[p].kind is IngressEntered
    &&& items[p].parent_seq == Some(n)
    &&& forall|j: int|
        0 <= j < p && ((#[trigger] items[j]).kind is MethodEntered || items[j].kind is IngressEntered)
            ==> items[j].parent_seq != Some(n)
    &&& forall|j: int|
        p < j < m - 1 ==> !((#[trigger] items[j]).kind is MethodEntered)
            && !(items[j].kind is IngressEntered) && !(items[j].kind is MethodExited)
    &&& m < items.len() ==> items[m - 1].kind is MethodExited
    &&& m - 1 > p ==> !(items[m - 1].kind is MethodEntered) && !(items[m - 1].kind is IngressEntered)
    &&& forall|j: int| 0 <= j < m ==> !((#[trigger] items[j]).kind is CallSpawned)
}

proof fn lemma_first_entry(items: Seq<EventRow>, n: u64, p: int, m: int, i: int)
    requires
        whole_execution(items, n, p, m),
        0 <= i <= p,
    ensures
        entry_of(items, n, i) == Some(p),
    decreases p - i,
{
    if i < p {
        assert(cause(items[i]) != Some(n));
        lemma_first_entry(items, n, p, m, i + 1);
    }
}

proof fn lemma_execution_end(items: Seq<EventRow>, n: u64, p: int, m: int, j: int)
    requires
        whole_execution(items, n, p, m),
        p < j <= m,
        j == m ==> m == items.len() || m - 1 == p,
    ensures
        last_from(items, j, 1, j - 1) == m - 1,
    decreases m - j,
{
    if j < m - 1 {
        assert(!(items[j].kind is MethodExited));
        lemma_execution_end(items, n, p, m, j + 1);
    } else if j == m - 1 {
        if !(items[j].kind is MethodExited) {
            assert(m == items.len());
            lemma_execution_end(items, n, p, m, j + 1);
        }
    } else if m < items.len() {
        assert(items[p].kind is MethodExited);
    }
}

/// Events that call nothing are told one after the other.
proof fn lemma_told_plain(
    gs: Seq<GroupView<EventRow>>,
    ts: Seq<GroupView<EventRow>>,
    c: int,
    m: nat,
    fuel: nat,
)
    requires
        0 <= c < ts.len(),
        m <= ts[c].items.len(),
        m <= fuel,
        forall|j: int| 0 <= j < m ==> !((#[trigger] ts[c].items[j]).kind is CallSpawned),
    ensures
        told(gs, ts, c, ts[c].items.len() - m, fuel).out == ts[c].items.subrange(0, m as int),
    decreases m,
{
    let items = ts[c].items;
    let s = told(gs, ts, c, items.len() - m, fuel);
    if m > 0 {
        let less = without_first(ts, c);
        let e = items[0];
        assert(!(items[0].kind is CallSpawned));
        let inner = behind(gs, less, e, (fuel - 1) as nat);
        assert(inner.out =~= Seq::<EventRow>::empty());
        assert(inner.rest == less);
        assert forall|j: int| 0 <= j < m - 1 implies !((#[trigger] less[c].items[j]).kind is CallSpawned) by {
            assert(less[c].items[j] == items[j + 1]);
        }
        lemma_told_plain(gs, less, c, (m - 1) as nat, (fuel - 1) as nat);
        assert(s.out =~= items.subrange(0, m as int));
    } else {
        assert(items.subrange(0, 0) =~= Seq::<EventRow>::empty());
    }
}

/// Behind a call stands the whole execution that it caused, and nothing else.
proof fn lemma_behind_whole(
    gs: Seq<GroupView<EventRow>>,
    ts: Seq<GroupView<EventRow>>,
    e: EventRow,
    fuel: nat,
    p: int,
    m: int,
)
    requires
        all_members(ts).len() <= fuel,
        callee(e) matches Some((t, n)) && whole_execution(left_of(ts, t), n, p, m),
    ensures
        behind(gs, ts, e, fuel).out == left_of(ts, (callee(e)->0).0).subrange(0, m),
{
    reveal(told_at_call);
    reveal(left_of);
    let (t, n) = callee(e)->0;
    lemma_group_of(ts, t, 0);
    let d = group_of(ts, t, 0)->0;
    let items = ts[d].items;
    lemma_first_entry(items, n, p, m, 0);
    lemma_execution_end(items, n, p, m, p + 1);
    assert(execution_end(items, p) == m);
    lemma_group_size(ts, d);
    lemma_told_plain(gs, ts, d, m as nat, fuel);
}

proof fn lemma_group_size(ts: Seq<GroupView<EventRow>>, d: int)
    requires
        0 <= d < ts.len(),
    ensures
        ts[d].items.len() <= all_members(ts).len(),
{
    broadcast use vstd::seq_lib::group_to_multiset_ensures;

    lemma_members_remove(ts, d, ts.len());
}

/// What comes behind the call at `k` of a part of the timeline.
spec fn pending(out: Seq<EventRow>, rest: Seq<GroupView<EventRow>>, k: int, t: Seq<char>) -> Seq<
    EventRow,
> {
    events_of(out.subrange(k + 1, out.len() as int), t) + left_of(rest, t)
}

/// The execution stands behind the call at `k`; where no event of its canister before it is a call,
/// another canister goes on.
spec fn stands_behind(out: Seq<EventRow>, k: int, t: Seq<char>, next: Seq<EventRow>, m: int) -> bool {
    &&& k + m < out.len()
    &&& out.subrange(k + 1, k + 1 + m) == next.subrange(0, m)
    &&& (forall|j: int|
        0 <= j <= k && (#[trigger] out[j]).canister@ == t ==> !(out[j].kind is CallSpawned)) && k + 1
        + m < out.len() ==> out[k + 1 + m].canister@ != t
}

proof fn lemma_told_whole(
    gs: Seq<GroupView<EventRow>>,
    ts: Seq<GroupView<EventRow>>,
    c: int,
    left: int,
    fuel: nat,
    k: int,
    p: int,
    m: int,
)
    requires
        sorted_out(ts),
        all_members(ts).len() <= fuel,
        ({
            let s = told(gs, ts, c, left, fuel);
            &&& 0 <= k < s.out.len()
            &&& callee(s.out[k]) matches Some((t, n)) && whole_execution(
                pending(s.out, s.rest, k, t),
                n,
                p,
                m,
            )
        }),
    ensures
        ({
            let s = told(gs, ts, c, left, fuel);
            let t = (callee(s.out[k])->0).0;
            stands_behind(s.out, k, t, pending(s.out, s.rest, k, t), m)
        }),
    decreases fuel, 1nat,
{
    let s = told(gs, ts, c, left, fuel);
    let t = (callee(s.out[k])->0).0;
    let e = ts[c].items[0];
    let less = without_first(ts, c);
    let d = (fuel - 1) as nat;
    let inner = behind(gs, less, e, d);
    let tail = told(gs, inner.rest, c, left, d);
    lemma_without_first(ts, c);
    lemma_tell_first(ts, c, t);
    lemma_behind_keeps(gs, less, e, d, t);
    lemma_told_keeps(gs, inner.rest, c, left, d, t);
    lemma_behind_less(gs, less, e, d);
    let len = s.out.len() as int;
    let n = inner.out.len() as int;
    let next = pending(s.out, s.rest, k, t);
    lemma_named(ts, c);
    lemma_tail_named(gs, ts, c, left, fuel);
    assert(s.out[0] == e);
    if k == 0 {
        assert(s.out.subrange(1, len) =~= inner.out + tail.out);
        lemma_of_add(inner.out, tail.out, t);
        lemma_three_parts(events_of(inner.out, t), events_of(tail.out, t), left_of(tail.rest, t));
        lemma_behind_whole(gs, less, e, d, p, m);
        assert(s.out.subrange(1, 1 + m) =~= inner.out);
        if 1 + m < len {
            assert(s.out[1 + m] == tail.out[0]);
            assert(s.out[0].canister@ == t ==> s.out[0].kind is CallSpawned);
        }
    } else if k <= n {
        let part = inner.out.subrange(k, n);
        assert(s.out.subrange(k + 1, len) =~= part + tail.out);
        lemma_of_add(part, tail.out, t);
        lemma_three_parts(events_of(part, t), events_of(tail.out, t), left_of(tail.rest, t));
        assert(s.out[k] == inner.out[k - 1]);
        lemma_behind_stands(gs, less, e, d, k - 1, p, m);
        assert(s.out.subrange(k + 1, k + 1 + m) =~= inner.out.subrange(k, k + m));
        if forall|j: int|
            0 <= j <= k && (#[trigger] s.out[j]).canister@ == t ==> !(s.out[j].kind is CallSpawned) {
            assert forall|j: int|
                0 <= j <= k - 1 && (#[trigger] inner.out[j]).canister@ == t implies !(
            inner.out[j].kind is CallSpawned) by {
                assert(s.out[j + 1] == inner.out[j]);
            }
            if k + m < n {
                assert(s.out[k + 1 + m] == inner.out[k + m]);
            } else if k + 1 + m < len {
                assert(s.out[k + 1 + m] == tail.out[0]);
                assert(s.out[0].kind is CallSpawned);
            }
        }
    } else {
        let j = k - 1 - n;
        assert(s.out[k] == tail.out[j]);
        assert(s.out.subrange(k + 1, len) =~= tail.out.subrange(j + 1, tail.out.len() as int));
        lemma_told_whole(gs, inner.rest, c, left, d, j, p, m);
        assert(s.out.subrange(k + 1, k + 1 + m) =~= tail.out.subrange(j + 1, j + 1 + m));
        if forall|x: int|
            0 <= x <= k && (#[trigger] s.out[x]).canister@ == t ==> !(s.out[x].kind is CallSpawned) {
            assert forall|x: int|
                0 <= x <= j && (#[trigger] tail.out[x]).canister@ == t implies !(
            tail.out[x].kind is CallSpawned) by {
                assert(s.out[x + 1 + n] == tail.out[x]);
            }
            if k + 1 + m < len {
                assert(s.out[k + 1 + m] == tail.out[j + 1 + m]);
            }
        }
    }
}

/// The first event that is left of a canister is of that canister.
proof fn lemma_named(ts: Seq<GroupView<EventRow>>, c: int)
    requires
        sorted_out(ts),
        0 <= c < ts.len(),
    ensures
        ts[c].items.len() > 0 ==> ts[c].items[0].canister@ == ts[c].a,
{
    reveal(sorted_out);
}

/// Behind what the first event leads to, its canister goes on.
proof fn lemma_tail_named(
    gs: Seq<GroupView<EventRow>>,
    ts: Seq<GroupView<EventRow>>,
    c: int,
    left: int,
    fuel: nat,
)
    requires
        sorted_out(ts),
        0 < fuel,
        0 <= c < ts.len(),
        ts[c].items.len() > 0,
    ensures
        ({
            let d = (fuel - 1) as nat;
            let inner = behind(gs, without_first(ts, c), ts[c].items[0], d);
            let tail = told(gs, inner.rest, c, left, d);
            tail.out.len() > 0 ==> tail.out[0].canister@ == ts[c].a
        }),
{
    let d = (fuel - 1) as nat;
    let less = without_first(ts, c);
    let e = ts[c].items[0];
    lemma_tell_first(ts, c, Seq::empty());
    lemma_behind_keeps(gs, less, e, d, Seq::empty());
    let inner = behind(gs, less, e, d);
    lemma_behind_names(gs, less, e, d);
    let tail = told(gs, inner.rest, c, left, d);
    if tail.out.len() > 0 {
        lemma_named(inner.rest, c);
    }
}

/// The groups keep their names.
proof fn lemma_told_names(
    gs: Seq<GroupView<EventRow>>,
    ts: Seq<GroupView<EventRow>>,
    c: int,
    left: int,
    fuel: nat,
)
    ensures
        ({
            let s = told(gs, ts, c, left, fuel);
            s.rest.len() == ts.len() && forall|i: int|
                0 <= i < ts.len() ==> (#[trigger] s.rest[i]).a == ts[i].a
        }),
    decreases fuel, 1nat,
{
    if fuel == 0 || c < 0 || c >= ts.len() || ts[c].items.len() <= left || ts[c].items.len() == 0 {
    } else {
        let e = ts[c].items[0];
        let less = without_first(ts, c);
        let d = (fuel - 1) as nat;
        lemma_behind_names(gs, less, e, d);
        let inner = behind(gs, less, e, d);
        lemma_told_names(gs, inner.rest, c, left, d);
        let tail = told(gs, inner.rest, c, left, d);
        assert forall|i: int| 0 <= i < ts.len() implies (#[trigger] tail.rest[i]).a == ts[i].a by {
            assert(inner.rest[i].a == less[i].a);
        }
    }
}

proof fn lemma_behind_names(
    gs: Seq<GroupView<EventRow>>,
    ts: Seq<GroupView<EventRow>>,
    e: EventRow,
    fuel: nat,
)
    ensures
        ({
            let s = behind(gs, ts, e, fuel);
            s.rest.len() == ts.len() && forall|i: int|
                0 <= i < ts.len() ==> (#[trigger] s.rest[i]).a == ts[i].a
        }),
    decreases fuel, 2nat,
{
    if let Some((t, n)) = callee(e) {
        if let Some(d) = group_of(ts, t, 0) {
            let left = ts[d].items.len() - told_at_call(gs, ts, d, n);
            lemma_told_names(gs, ts, d, left, fuel);
        }
    }
}

proof fn lemma_behind_stands(
    gs: Seq<GroupView<EventRow>>,
    ts: Seq<GroupView<EventRow>>,
    e: EventRow,
    fuel: nat,
    k: int,
    p: int,
    m: int,
)
    requires
        sorted_out(ts),
        all_members(ts).len() <= fuel,
        ({
            let s = behind(gs, ts, e, fuel);
            &&& 0 <= k < s.out.len()
            &&& callee(s.out[k]) matches Some((t, n)) && whole_execution(
                pending(s.out, s.rest, k, t),
                n,
                p,
                m,
            )
        }),
    ensures
        ({
            let s = behind(gs, ts, e, fuel);
            let t = (callee(s.out[k])->0).0;
            stands_behind(s.out, k, t, pending(s.out, s.rest, k, t), m)
        }),
    decreases fuel, 2nat,
{
    let (t, n) = callee(e)->0;
    let d = group_of(ts, t, 0)->0;
    let left = ts[d].items.len() - told_at_call(gs, ts, d, n);
    lemma_told_whole(gs, ts, d, left, fuel, k, p, m);
}

/// An execution ends only with its exit, whatever it recorded before. Where a call of canister `t`
/// is reached, `next` being the later events of `t`, and the events up to the end of the execution
/// that it caused call nothing, all of these stand directly behind the call in their order; and
/// where no event of `t` up to there was a call, another canister goes on behind them.
pub proof fn law_whole_execution_follows_its_call(
    es: Seq<EventRow>,
    k: int,
    t: String,
    next: Seq<EventRow>,
    p: int,
    m: int,
)
    requires
        root(canisters(es), 0) is Some,
        0 <= k < reached(es).len(),
        reordered(es)[k].kind matches EventKind::CallSpawned { target, .. } && target == t,
        next == reordered(es).subrange(k + 1, reordered(es).len() as int).filter(
            |e: EventRow| e.canister@ == t@,
        ),
        whole_execution(next, reordered(es)[k].seq, p, m),
    ensures
        k + m < reached(es).len() <= reordered(es).len(),
        reordered(es).subrange(k + 1, k + 1 + m) == next.subrange(0, m),
        (forall|j: int|
            0 <= j <= k && (#[trigger] reordered(es)[j]).canister@ == t@ ==> !(reordered(
                es,
            )[j].kind is CallSpawned)) && k + 1 + m < reached(es).len() ==> reordered(es)[k + 1
            + m].canister@ != t@,
{
    reveal(left_of);
    let gs = canisters(es);
    let i = root(gs, 0)->0;
    let s = story(gs, i);
    let out = reordered(es);
    let rest = flattened(s.rest, s.rest.len());
    assert(out[k] == s.out[k]);
    let part = s.out.subrange(k + 1, s.out.len() as int);
    assert(out.subrange(k + 1, out.len() as int) =~= part + rest);
    assert(next == events_of(part + rest, t@));
    lemma_of_add(part, rest, t@);
    lemma_canisters(es, t@);
    lemma_told_keeps(gs, gs, i, 0, all_members(gs).len(), t@);
    lemma_left_of(s.rest, t@, s.rest.len());
    lemma_group_of(s.rest, t@, 0);
    lemma_told_whole(gs, gs, i, 0, all_members(gs).len(), k, p, m);
    assert(out.subrange(k + 1, k + 1 + m) =~= s.out.subrange(k + 1, k + 1 + m));
    if (forall|j: int|
        0 <= j <= k && (#[trigger] out[j]).canister@ == t@ ==> !(out[j].kind is CallSpawned)) && k + 1
        + m < s.out.len() {
        assert forall|j: int| 0 <= j <= k && (#[trigger] s.out[j]).canister@ == t@ implies !(
        s.out[j].kind is CallSpawned) by {
            assert(out[j] == s.out[j]);
        }
        assert(out[k + 1 + m] == s.out[k + 1 + m]);
    }
}

// ---------- The first canister ----------

/// No event of the trace has a lower number in its canister.
pub open spec fn is_lowest(es: Seq<EventRow>, f: EventRow) -> bool {
    es.contains(f) && forall|i: int|
        0 <= i < es.len() && (#[trigger] es[i]).canister@ == f.canister@ ==> f.seq <= es[i].seq
}

proof fn lemma_of_has(es: Seq<EventRow>, c: Seq<char>, x: int)
    requires
        0 <= x < es.len(),
        es[x].canister@ == c,
    ensures
        events_of(es, c).contains(es[x]),
{
    es.lemma_filter_contains(|e: EventRow| e.canister@ == c, x);
}

proof fn lemma_of_rev(es: Seq<EventRow>, c: Seq<char>, f: EventRow)
    requires
        events_of(es, c).contains(f),
    ensures
        es.contains(f),
    decreases es.len(),
{
    reveal(Seq::filter);
    if es.len() > 0 {
        let less = es.drop_last();
        let all = events_of(es, c);
        let before = events_of(less, c);
        let x = choose|x: int| 0 <= x < all.len() && all[x] == f;
        if x < before.len() {
            assert(before[x] == f);
            lemma_of_rev(less, c, f);
            let y = choose|y: int| 0 <= y < less.len() && less[y] == f;
            assert(es[y] == f);
        } else {
            assert(es[es.len() - 1] == f);
        }
    }
}

/// A group holds the events of its canister by their numbers.
proof fn lemma_group_is(es: Seq<EventRow>, i: int)
    requires
        0 <= i < canisters(es).len(),
    ensures
        canisters(es)[i].items == by_number(events_of(es, canisters(es)[i].a)),
        canisters(es)[i].items.len() > 0,
        canisters(es)[i].items[0].canister@ == canisters(es)[i].a,
        is_lowest(es, canisters(es)[i].items[0]),
{
    let gs = canisters(es);
    let a = gs[i].a;
    let plain = by_canister(es, es.len());
    lemma_canisters(es, a);
    lemma_by_canister(es, es.len(), a);
    lemma_each_by_number(plain, a);
    reveal(left_of);
    reveal(proper);
    reveal(is_group);
    lemma_group_of(gs, a, 0);
    let j = group_of(gs, a, 0)->0;
    assert(j == i);
    assert(is_group(gs[i]));
    let own = events_of(es, a);
    let key = number_key::<EventRow>();
    law_sorted(own, key, own.len());
    law_sorted_has(own, key);
    let f = gs[i].items[0];
    assert(own.contains(f));
    lemma_of_rev(es, a, f);
    assert forall|x: int| 0 <= x < es.len() && (#[trigger] es[x]).canister@ == f.canister@ implies f.seq
        <= es[x].seq by {
        lemma_of_has(es, a, x);
        lemma_sorted_keeps(own, es[x]);
        let y = choose|y: int| 0 <= y < gs[i].items.len() && gs[i].items[y] == es[x];
        assert(key(gs[i].items[0]) <= key(gs[i].items[y]));
    }
}

proof fn lemma_sorted_keeps(own: Seq<EventRow>, e: EventRow)
    requires
        own.contains(e),
    ensures
        by_number(own).contains(e),
{
    broadcast use vstd::seq_lib::group_to_multiset_ensures;

    law_sorted(own, number_key::<EventRow>(), own.len());
    assert(own.subrange(0, own.len() as int) =~= own);
    assert(own.to_multiset().count(e) > 0);
}

/// Every canister of the trace has its group.
proof fn lemma_has_group(es: Seq<EventRow>, f: EventRow) -> (i: int)
    requires
        es.contains(f),
    ensures
        0 <= i < canisters(es).len(),
        canisters(es)[i].a == f.canister@,
{
    let gs = canisters(es);
    let c = f.canister@;
    lemma_canisters(es, c);
    lemma_group_of(gs, c, 0);
    reveal(left_of);
    let x = choose|x: int| 0 <= x < es.len() && es[x] == f;
    lemma_of_has(es, c, x);
    lemma_sorted_keeps(events_of(es, c), f);
    group_of(gs, c, 0)->0
}

/// The canisters are in the order of their names.
proof fn lemma_groups_ordered(es: Seq<EventRow>)
    ensures
        forall|i: int, j: int|
            0 <= i < j < canisters(es).len() ==> rank(
                (#[trigger] canisters(es)[i]).a,
                (#[trigger] canisters(es)[j]).a,
            ) == Rank::Before,
{
    let plain = by_canister(es, es.len());
    lemma_by_canister(es, es.len(), Seq::empty());
    let gs = canisters(es);
    assert forall|i: int, j: int| 0 <= i < j < gs.len() implies rank(
        (#[trigger] gs[i]).a,
        (#[trigger] gs[j]).a,
    ) == Rank::Before by {
        assert(plain[i].a == gs[i].a && plain[j].a == gs[j].a);
        assert(rank2(plain[i].a, plain[i].b, plain[j].a, plain[j].b) == Rank::Before);
        lemma_rank_same(plain[i].b, plain[j].b);
    }
}

proof fn lemma_root_first(gs: Seq<GroupView<EventRow>>, i: int, j: int)
    requires
        0 <= i <= j < gs.len(),
        gs[j].items.len() > 0,
        gs[j].items[0].parent_seq is None || gs[j].items[0].parent_seq == Some(0u64),
    ensures
        root(gs, i) matches Some(k) && k <= j,
    decreases j - i,
{
    if i < j && !(gs[i].items.len() > 0 && starts_trace(gs[i].items[0])) {
        lemma_root_first(gs, i + 1, j);
    }
}

/// Where the lowest event of some canister has no parent, or the parent 0, the timeline begins with
/// such an event, that of the canister whose name comes first among these, and it tells of all of
/// that canister's events before what is left over.
pub proof fn law_first_canister_is_told_first(es: Seq<EventRow>, f: EventRow)
    requires
        is_lowest(es, f),
        f.parent_seq is None || f.parent_seq == Some(0u64),
        forall|i: int|
            0 <= i < es.len() && (#[trigger] es[i]).canister@ == f.canister@ && es[i].seq == f.seq
                ==> es[i] == f,
    ensures
        root(canisters(es), 0) is Some,
        reordered(es).len() > 0,
        is_lowest(es, reordered(es)[0]),
        reordered(es)[0].parent_seq is None || reordered(es)[0].parent_seq == Some(0u64),
        reordered(es)[0].canister@ == f.canister@ || rank(
            reordered(es)[0].canister@,
            f.canister@,
        ) == Rank::Before,
        forall|j: int|
            0 <= j < reordered(es).len() && (#[trigger] reordered(es)[j]).canister@ == reordered(
                es,
            )[0].canister@ ==> j < reached(es).len(),
{
    let gs = canisters(es);
    let j = lemma_has_group(es, f);
    lemma_group_is(es, j);
    let g = gs[j].items[0];
    assert(g.seq == f.seq) by {
        let x = choose|x: int| 0 <= x < es.len() && es[x] == f;
        let y = choose|y: int| 0 <= y < es.len() && es[y] == g;
        assert(g.seq <= es[x].seq);
        assert(f.seq <= es[y].seq);
    }
    assert(g == f) by {
        let y = choose|y: int| 0 <= y < es.len() && es[y] == g;
        assert(es[y].seq == f.seq);
    }
    lemma_root_first(gs, 0, j);
    let i = root(gs, 0)->0;
    lemma_root(gs, 0);
    law_begins_with_root(es);
    lemma_group_is(es, i);
    lemma_groups_ordered(es);
    law_root_is_reached(es);
}

/// All events of the canister that the timeline begins with are reached.
pub proof fn law_root_is_reached(es: Seq<EventRow>)
    requires
        root(canisters(es), 0) is Some,
    ensures
        reached(es).len() <= reordered(es).len(),
        forall|j: int|
            0 <= j < reordered(es).len() && (#[trigger] reordered(es)[j]).canister@ == reordered(
                es,
            )[0].canister@ ==> j < reached(es).len(),
{
    let gs = canisters(es);
    let i = root(gs, 0)->0;
    let s = story(gs, i);
    let out = reordered(es);
    lemma_root(gs, 0);
    lemma_group_is(es, i);
    law_begins_with_root(es);
    let c = gs[i].a;
    lemma_canisters(es, c);
    let n = all_members(gs).len();
    lemma_told_keeps(gs, gs, i, 0, n, c);
    lemma_told_all(gs, gs, i, 0, n);
    lemma_told_names(gs, gs, i, 0, n);
    lemma_left_of(s.rest, c, s.rest.len());
    lemma_group_of(s.rest, c, 0);
    let rest = flattened(s.rest, s.rest.len());
    assert(events_of(rest, c).len() == 0) by {
        reveal(sorted_out);
        let k = group_of(s.rest, c, 0)->0;
        assert(s.rest[i].a == c);
        assert(k == i) by {
            if k < i {
                assert(s.rest[k].a != s.rest[i].a);
            } else if i < k {
                assert(s.rest[i].a != s.rest[k].a);
            }
        }
    }
    assert forall|j: int| 0 <= j < out.len() && (#[trigger] out[j]).canister@ == out[0].canister@ implies j
        < s.out.len() by {
        if j >= s.out.len() {
            let x = j - s.out.len();
            assert(out[j] == rest[x]);
            lemma_of_has(rest, c, x);
        }
    }
}

/// A canister is told until no more than `left` of its events are left.
proof fn lemma_told_all(
    gs: Seq<GroupView<EventRow>>,
    ts: Seq<GroupView<EventRow>>,
    c: int,
    left: int,
    fuel: nat,
)
    requires
        0 <= c < ts.len(),
        0 <= left,
        all_members(ts).len() <= fuel,
    ensures
        ({
            let s = told(gs, ts, c, left, fuel);
            s.rest.len() == ts.len() && s.rest[c].items.len() <= left
        }),
    decreases fuel,
{
    lemma_group_size(ts, c);
    if ts[c].items.len() > left {
        let e = ts[c].items[0];
        let less = without_first(ts, c);
        let d = (fuel - 1) as nat;
        lemma_without_first(ts, c);
        lemma_behind_less(gs, less, e, d);
        lemma_behind_names(gs, less, e, d);
        let inner = behind(gs, less, e, d);
        lemma_told_all(gs, inner.rest, c, left, d);
    }
}

/// Where the lowest event of some canister has no parent, or the parent 0, the events of each
/// canister come in the order of their numbers.
pub proof fn law_numbers_ascend_from_a_start(es: Seq<EventRow>, f: EventRow, i: int, j: int)
    requires
        is_lowest(es, f),
        f.parent_seq is None || f.parent_seq == Some(0u64),
        forall|k: int|
            0 <= k < es.len() && (#[trigger] es[k]).canister@ == f.canister@ && es[k].seq == f.seq
                ==> es[k] == f,
        0 <= i < j < reordered(es).len(),
        reordered(es)[i].canister@ == reordered(es)[j].canister@,
    ensures
        reordered(es)[i].seq <= reordered(es)[j].seq,
{
    law_first_canister_is_told_first(es, f);
    law_numbers_ascend(es, i, j);
}

// ---------- Without a first canister ----------

proof fn lemma_flat_sorted(es: Seq<EventRow>, n: nat)
    requires
        n <= canisters(es).len(),
    ensures
        forall|x: int, y: int|
            0 <= x < y < flattened(canisters(es), n).len() ==> goes_before(
                #[trigger] flattened(canisters(es), n)[x],
                #[trigger] flattened(canisters(es), n)[y],
            ),
        forall|x: int|
            0 <= x < flattened(canisters(es), n).len() ==> exists|i: int|
                0 <= i < n && (#[trigger] canisters(es)[i]).a == (#[trigger] flattened(
                    canisters(es),
                    n,
                )[x]).canister@,
    decreases n,
{
    let gs = canisters(es);
    if n > 0 {
        let m = (n - 1) as nat;
        let before = flattened(gs, m);
        let items = gs[n - 1].items;
        let all = flattened(gs, n);
        lemma_flat_sorted(es, m);
        lemma_group_is(es, m as int);
        lemma_groups_ordered(es);
        lemma_canisters(es, Seq::empty());
        let own = events_of(es, gs[n - 1].a);
        law_sorted(own, number_key::<EventRow>(), own.len());
        reveal(sorted_out);
        assert forall|x: int| 0 <= x < all.len() implies exists|i: int|
            0 <= i < n && (#[trigger] gs[i]).a == (#[trigger] all[x]).canister@ by {
            if x < before.len() {
                assert(all[x] == before[x]);
                let i = choose|i: int|
                    0 <= i < m && (#[trigger] gs[i]).a == before[x].canister@;
                assert(gs[i].a == all[x].canister@);
            } else {
                assert(all[x] == items[x - before.len()]);
                assert(gs[n - 1].items[x - before.len()].canister@ == gs[n - 1].a);
            }
        }
        assert forall|x: int, y: int| 0 <= x < y < all.len() implies goes_before(
            #[trigger] all[x],
            #[trigger] all[y],
        ) by {
            if y < before.len() {
                assert(all[x] == before[x] && all[y] == before[y]);
            } else {
                let b = y - before.len();
                assert(all[y] == items[b]);
                assert(gs[n - 1].items[b].canister@ == gs[n - 1].a);
                if x < before.len() {
                    assert(all[x] == before[x]);
                    let i = choose|i: int|
                        0 <= i < m && (#[trigger] gs[i]).a == before[x].canister@;
                    assert(rank(gs[i].a, gs[n - 1].a) == Rank::Before);
                } else {
                    let a = x - before.len();
                    assert(all[x] == items[a]);
                    assert(gs[n - 1].items[a].canister@ == gs[n - 1].a);
                    let key = number_key::<EventRow>();
                    assert(key(items[a]) <= key(items[b]));
                }
            }
        }
    }
}

/// The event is of a canister whose name comes first, or of the same with no greater number.
pub open spec fn goes_before(a: EventRow, b: EventRow) -> bool {
    rank(a.canister@, b.canister@) == Rank::Before || (a.canister@ == b.canister@ && a.seq <= b.seq)
}

proof fn lemma_filter_pairs(es: Seq<EventRow>, k: int)
    requires
        forall|x: int, y: int|
            0 <= x < y < es.len() ==> goes_before(#[trigger] es[x], #[trigger] es[y]),
    ensures
        forall|x: int, y: int|
            0 <= x < y < with_key(es, time_key(), k).len() ==> goes_before(
                #[trigger] with_key(es, time_key(), k)[x],
                #[trigger] with_key(es, time_key(), k)[y],
            ),
        forall|x: int|
            0 <= x < with_key(es, time_key(), k).len() ==> es.contains(
                #[trigger] with_key(es, time_key(), k)[x],
            ),
    decreases es.len(),
{
    reveal(Seq::filter);
    let key = time_key();
    let all = with_key(es, key, k);
    if es.len() > 0 {
        let less = es.drop_last();
        lemma_filter_pairs(less, k);
        let before = with_key(less, key, k);
        assert forall|x: int| 0 <= x < all.len() implies es.contains(#[trigger] all[x]) by {
            if x < before.len() {
                assert(all[x] == before[x]);
                let y = choose|y: int| 0 <= y < less.len() && less[y] == before[x];
                assert(es[y] == all[x]);
            } else {
                assert(es[es.len() - 1] == all[x]);
            }
        }
        assert forall|x: int, y: int| 0 <= x < y < all.len() implies goes_before(
            #[trigger] all[x],
            #[trigger] all[y],
        ) by {
            if y < before.len() {
                assert(all[x] == before[x] && all[y] == before[y]);
            } else {
                assert(all[x] == before[x]);
                let z = choose|z: int| 0 <= z < less.len() && less[z] == before[x];
                assert(goes_before(es[z], es[es.len() - 1]));
            }
        }
    }
}

/// Where the lowest event of every canister has a parent other than 0, the events come by their
/// times, and those of the same time by canister and number.
pub proof fn law_without_a_start_by_time(es: Seq<EventRow>, i: int, j: int)
    requires
        forall|f: EventRow|
            #[trigger] is_lowest(es, f) ==> f.parent_seq is Some && f.parent_seq != Some(0u64),
        0 <= i < j < reordered(es).len(),
    ensures
        reordered(es)[i].ts_nanos <= reordered(es)[j].ts_nanos,
        reordered(es)[i].ts_nanos == reordered(es)[j].ts_nanos ==> rank(
            reordered(es)[i].canister@,
            reordered(es)[j].canister@,
        ) == Rank::Before || (reordered(es)[i].canister@ == reordered(es)[j].canister@ && reordered(
            es,
        )[i].seq <= reordered(es)[j].seq),
{
    let gs = canisters(es);
    lemma_root(gs, 0);
    if root(gs, 0) is Some {
        lemma_group_is(es, root(gs, 0)->0);
        assert(is_lowest(es, gs[root(gs, 0)->0].items[0]));
    }
    let flat = flattened(gs, gs.len());
    let key = time_key();
    let out = reordered(es);
    law_sorted(flat, key, flat.len());
    assert(key(out[i]) <= key(out[j]));
    if out[i].ts_nanos == out[j].ts_nanos {
        let k = out[i].ts_nanos as int;
        lemma_flat_sorted(es, gs.len());
        lemma_filter_pairs(flat, k);
        law_sorted_stable(flat, key, flat.len(), k);
        assert(flat.subrange(0, flat.len() as int) =~= flat);
        let x = out.subrange(0, i);
        let a = seq![out[i]];
        let y = out.subrange(i + 1, j);
        let b = seq![out[j]];
        let z = out.subrange(j + 1, out.len() as int);
        assert(out =~= x + a + y + b + z);
        lemma_with_key_add(x + a + y + b, z, key, k);
        lemma_with_key_add(x + a + y, b, key, k);
        lemma_with_key_add(x + a, y, key, k);
        lemma_with_key_add(x, a, key, k);
        lemma_with_key_one(out[i], key);
        lemma_with_key_one(out[j], key);
        let own = with_key(out, key, k);
        let s = with_key(x, key, k).len() as int;
        let t = s + 1 + with_key(y, key, k).len();
        assert(own[s] == out[i]);
        assert(own[t] == out[j]);
        assert(goes_before(own[s], own[t]));
    }
}

} // verus!
