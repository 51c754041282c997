//! What the walk over snapshots gives.

use vstd::prelude::*;

use crate::diff::{
    asked_pair, differences, grouped, is_comparison, law_grouping_loses_nothing, numbered,
    transitions, unquoted, walked, wanted, Options, PairError, Transition, InitialView, Snapshot,
    TransitionView,
};
use crate::groups::{
    by_number, each_by_number, lemma_rank2_flip, lemma_spot, number_key, ordered, put_in, rank2,
    spot, GroupView,
};
use crate::order::law_sorted;
use crate::text::Rank;
use crate::value::{decoded, shown, Datum};

verus! {

// ---------- What is asked for ----------

/// Those of the snapshots that are of the canister and the key, as far as these are given.
pub open spec fn asked_for(
    ss: Seq<Snapshot>,
    canister: Option<Seq<char>>,
    key: Option<Seq<char>>,
) -> Seq<Snapshot> {
    ss.filter(
        |s: Snapshot|
            (canister is None || s.canister@ == canister->0) && (key is None || s.key@ == key->0),
    )
}

/// What is selected is what is asked for, all of it, in order.
pub proof fn law_selection(
    ss: Seq<Snapshot>,
    canister: Option<Seq<char>>,
    key: Option<Seq<char>>,
    n: nat,
)
    requires
        n <= ss.len(),
    ensures
        wanted(ss, canister, key, n) == asked_for(ss.subrange(0, n as int), canister, key),
    decreases n,
{
    reveal(Seq::filter);
    if n == 0 {
        assert(ss.subrange(0, 0) =~= Seq::<Snapshot>::empty());
    } else {
        law_selection(ss, canister, key, (n - 1) as nat);
        let now = ss.subrange(0, n as int);
        assert(now.drop_last() =~= ss.subrange(0, n - 1));
        assert(now.last() == ss[n - 1]);
    }
}

// ---------- Groups ----------

/// The snapshots of a canister and a key, in order.
pub open spec fn named(ss: Seq<Snapshot>, canister: Seq<char>, key: Seq<char>) -> Seq<Snapshot> {
    ss.filter(|s: Snapshot| s.canister@ == canister && s.key@ == key)
}

proof fn lemma_named_push(ss: Seq<Snapshot>, x: Snapshot, canister: Seq<char>, key: Seq<char>)
    ensures
        named(ss.push(x), canister, key) == if x.canister@ == canister && x.key@ == key {
            named(ss, canister, key).push(x)
        } else {
            named(ss, canister, key)
        },
{
    reveal(Seq::filter);
    assert(ss.push(x).drop_last() =~= ss);
}

proof fn lemma_not_named(ss: Seq<Snapshot>, canister: Seq<char>, key: Seq<char>)
    requires
        forall|i: int|
            0 <= i < ss.len() ==> !((#[trigger] ss[i]).canister@ == canister && ss[i].key@ == key),
    ensures
        named(ss, canister, key) == Seq::<Snapshot>::empty(),
    decreases ss.len(),
{
    reveal(Seq::filter);
    if ss.len() > 0 {
        assert(ss.last() == ss[ss.len() - 1]);
        assert forall|i: int| 0 <= i < ss.drop_last().len() implies !((
        #[trigger] ss.drop_last()[i]).canister@ == canister && ss.drop_last()[i].key@ == key) by {
            assert(ss.drop_last()[i] == ss[i]);
        }
        lemma_not_named(ss.drop_last(), canister, key);
    }
}

spec fn hold_named(gs: Seq<GroupView<Snapshot>>, ss: Seq<Snapshot>) -> bool {
    forall|g: int|
        0 <= g < gs.len() ==> (#[trigger] gs[g]).items.len() > 0 && gs[g].items == named(
            ss,
            gs[g].a,
            gs[g].b,
        )
}

spec fn is_grouped(gs: Seq<GroupView<Snapshot>>, s: Snapshot) -> bool {
    exists|g: int|
        0 <= g < gs.len() && (#[trigger] gs[g]).a == s.canister@ && gs[g].b == s.key@
}

proof fn lemma_put_named(gs: Seq<GroupView<Snapshot>>, ss: Seq<Snapshot>, x: Snapshot)
    requires
        ordered(gs),
        hold_named(gs, ss),
        forall|i: int| 0 <= i < ss.len() ==> is_grouped(gs, #[trigger] ss[i]),
    ensures
        hold_named(put_in(gs, x.canister@, x.key@, x), ss.push(x)),
        forall|i: int|
            0 <= i < ss.push(x).len() ==> is_grouped(
                put_in(gs, x.canister@, x.key@, x),
                #[trigger] ss.push(x)[i],
            ),
{
    let a = x.canister@;
    let b = x.key@;
    let out = put_in(gs, a, b, x);
    lemma_spot(gs, a, b, 0);
    let at = spot(gs, a, b, 0);
    let there = at < gs.len() && gs[at].a == a && gs[at].b == b;
    assert forall|g: int| 0 <= g < gs.len() && g != at implies !((#[trigger] gs[g]).a == a
        && gs[g].b == b) by {
        lemma_rank2_flip(gs[g].a, gs[g].b, a, b);
        if g > at {
            assert(rank2(gs[at].a, gs[at].b, gs[g].a, gs[g].b) == Rank::Before);
        }
    }
    if !there {
        assert forall|i: int| 0 <= i < ss.len() implies !((#[trigger] ss[i]).canister@ == a
            && ss[i].key@ == b) by {
            assert(is_grouped(gs, ss[i]));
        }
        lemma_not_named(ss, a, b);
        assert(Seq::<Snapshot>::empty().push(x) =~= seq![x]);
    }
    assert forall|g: int| 0 <= g < out.len() implies (#[trigger] out[g]).items.len() > 0
        && out[g].items == named(ss.push(x), out[g].a, out[g].b) by {
        lemma_named_push(ss, x, out[g].a, out[g].b);
        if g < at {
            assert(out[g] == gs[g]);
        } else if g > at {
            if there {
                assert(out[g] == gs[g]);
            } else {
                assert(out[g] == gs[g - 1]);
                if g - 1 == at {
                    assert(gs[at].a != a || gs[at].b != b);
                }
            }
        }
    }
    assert forall|i: int| 0 <= i < ss.push(x).len() implies is_grouped(
        out,
        #[trigger] ss.push(x)[i],
    ) by {
        if i == ss.len() {
            assert(out[at].a == a && out[at].b == b);
        } else {
            assert(ss.push(x)[i] == ss[i]);
            let g = choose|g: int|
                0 <= g < gs.len() && (#[trigger] gs[g]).a == ss[i].canister@ && gs[g].b
                    == ss[i].key@;
            if there || g < at {
                assert(out[g].a == gs[g].a && out[g].b == gs[g].b);
            } else {
                assert(out[g + 1] == gs[g]);
            }
        }
    }
}

proof fn lemma_grouped(ss: Seq<Snapshot>, n: nat)
    requires
        n <= ss.len(),
    ensures
        hold_named(grouped(ss, n), ss.subrange(0, n as int)),
        forall|i: int| 0 <= i < n ==> is_grouped(grouped(ss, n), #[trigger] ss[i]),
    decreases n,
{
    if n > 0 {
        let m = (n - 1) as nat;
        lemma_grouped(ss, m);
        law_grouping_loses_nothing(ss, m);
        let before = ss.subrange(0, m as int);
        assert forall|i: int| 0 <= i < before.len() implies is_grouped(
            grouped(ss, m),
            #[trigger] before[i],
        ) by {
            assert(before[i] == ss[i]);
        }
        lemma_put_named(grouped(ss, m), before, ss[n - 1]);
        assert(ss.subrange(0, n as int) =~= before.push(ss[n - 1]));
        assert forall|i: int| 0 <= i < n implies is_grouped(
            grouped(ss, n),
            #[trigger] ss[i],
        ) by {
            assert(before.push(ss[n - 1])[i] == ss[i]);
        }
    }
}

/// Each group holds the snapshots of its canister and its key, all of them and no others, and at
/// least one; each snapshot stands in the group of its own. In a group they go by their numbers.
pub proof fn law_groups_hold_their_own(ss: Seq<Snapshot>, g: int, i: int)
    ensures
        ({
            let before = grouped(ss, ss.len());
            let gs = each_by_number(before);
            &&& gs.len() == before.len()
            &&& 0 <= g < gs.len() ==> gs[g].a == before[g].a && gs[g].b == before[g].b
                && before[g].items == named(ss, gs[g].a, gs[g].b) && gs[g].items.len() > 0
                && gs[g].items.to_multiset() == named(ss, gs[g].a, gs[g].b).to_multiset()
            &&& 0 <= g < gs.len() ==> forall|j: int, k: int|
                0 <= j <= k < gs[g].items.len() ==> (#[trigger] gs[g].items[j]).seq <= (
                #[trigger] gs[g].items[k]).seq
            &&& 0 <= i < ss.len() ==> exists|h: int|
                0 <= h < gs.len() && (#[trigger] gs[h]).a == ss[i].canister@ && gs[h].b
                    == ss[i].key@
        }),
{
    let before = grouped(ss, ss.len());
    let gs = each_by_number(before);
    lemma_grouped(ss, ss.len());
    assert(ss.subrange(0, ss.len() as int) =~= ss);
    if 0 <= g < gs.len() {
        let items = before[g].items;
        let key = number_key::<Snapshot>();
        law_sorted(items, key, items.len());
        assert(items.subrange(0, items.len() as int) =~= items);
        assert(gs[g].items == by_number(items));
        broadcast use vstd::seq_lib::group_to_multiset_ensures;

        assert(gs[g].items.len() == items.len());
        assert forall|j: int, k: int| 0 <= j <= k < gs[g].items.len() implies (
        #[trigger] gs[g].items[j]).seq <= (#[trigger] gs[g].items[k]).seq by {
            assert(key(gs[g].items[j]) <= key(gs[g].items[k]));
        }
    }
    if 0 <= i < ss.len() {
        assert(is_grouped(before, ss[i]));
        let h = choose|h: int|
            0 <= h < before.len() && (#[trigger] before[h]).a == ss[i].canister@ && before[h].b
                == ss[i].key@;
        assert(gs[h].a == before[h].a && gs[h].b == before[h].b);
    }
}

// ---------- Transitions ----------

/// Every snapshot of the group can be read.
pub open spec fn readable(g: GroupView<Snapshot>) -> bool {
    forall|j: int| 0 <= j < g.items.len() ==> decoded((#[trigger] g.items[j]).cbor@) is Ok
}

/// The value that a snapshot of a group holds.
pub open spec fn value_at(g: GroupView<Snapshot>, j: int) -> Datum {
    decoded(g.items[j].cbor@)->Ok_0
}

/// The change from a snapshot of a group to the next one.
pub open spec fn change(g: GroupView<Snapshot>, j: int) -> TransitionView {
    TransitionView {
        canister: g.a,
        key: g.b,
        from_seq: g.items[j].seq,
        to_seq: g.items[j + 1].seq,
        deltas: differences(Seq::empty(), value_at(g, j), value_at(g, j + 1)),
    }
}

proof fn lemma_changes(g: GroupView<Snapshot>, n: nat)
    requires
        readable(g),
        n < g.items.len(),
    ensures
        transitions(g, n) is Ok,
        transitions(g, n)->Ok_0 == Seq::new(n, |j: int| change(g, j)),
    decreases n,
{
    if n > 0 {
        lemma_changes(g, (n - 1) as nat);
        assert(decoded(g.items[n - 1].cbor@) is Ok);
        assert(decoded(g.items[n as int].cbor@) is Ok);
        assert(transitions(g, n)->Ok_0 =~= Seq::new(n, |j: int| change(g, j)));
    } else {
        assert(transitions(g, n)->Ok_0 =~= Seq::new(n, |j: int| change(g, j)));
    }
}

/// A group of which every snapshot can be read gives the change from each to the next, in order, and
/// nothing else.
pub proof fn law_neighbours_are_compared(g: GroupView<Snapshot>, j: int)
    requires
        readable(g),
        g.items.len() > 0,
    ensures
        transitions(g, (g.items.len() - 1) as nat) is Ok,
        transitions(g, (g.items.len() - 1) as nat)->Ok_0.len() == g.items.len() - 1,
        0 <= j < g.items.len() - 1 ==> transitions(g, (g.items.len() - 1) as nat)->Ok_0[j]
            == change(g, j),
{
    lemma_changes(g, (g.items.len() - 1) as nat);
}

/// The only snapshot of a group, as it is shown.
pub open spec fn alone(g: GroupView<Snapshot>) -> InitialView {
    InitialView {
        canister: g.a,
        key: g.b,
        seq: g.items[0].seq,
        value: shown(value_at(g, 0), 8),
    }
}

/// Where every snapshot can be read, the walk succeeds. It tells each change of each group, and the
/// snapshot of each group that has only one.
pub proof fn law_walk_tells_all(gs: Seq<GroupView<Snapshot>>, n: nat, k: int, j: int)
    requires
        n <= gs.len(),
        forall|i: int| 0 <= i < n ==> readable(#[trigger] gs[i]),
    ensures
        walked(gs, n) is Ok,
        0 <= k < n && 0 <= j < gs[k].items.len() - 1 ==> walked(gs, n)->Ok_0.0.contains(
            change(gs[k], j),
        ),
        0 <= k < n && gs[k].items.len() == 1 ==> walked(gs, n)->Ok_0.1.contains(alone(gs[k])),
    decreases n,
{
    if n > 0 {
        let m = (n - 1) as nat;
        law_walk_tells_all(gs, m, k, j);
        let g = gs[n - 1];
        assert(readable(g));
        let (ts, is) = walked(gs, m)->Ok_0;
        if g.items.len() == 1 {
            assert(decoded(g.items[0].cbor@) is Ok);
            let now = is.push(alone(g));
            assert(walked(gs, n)->Ok_0.1 == now);
            assert(now[is.len() as int] == alone(g));
            if 0 <= k < m && gs[k].items.len() == 1 {
                let x = choose|x: int| 0 <= x < is.len() && is[x] == alone(gs[k]);
                assert(now[x] == alone(gs[k]));
            }
        } else if g.items.len() > 1 {
            lemma_changes(g, (g.items.len() - 1) as nat);
            let more = transitions(g, (g.items.len() - 1) as nat)->Ok_0;
            assert(walked(gs, n)->Ok_0.0 == ts + more);
            if 0 <= k < m && 0 <= j < gs[k].items.len() - 1 {
                let x = choose|x: int| 0 <= x < ts.len() && ts[x] == change(gs[k], j);
                assert((ts + more)[x] == change(gs[k], j));
            }
            if k == m && 0 <= j < g.items.len() - 1 {
                assert(more[j] == change(g, j));
                assert((ts + more)[ts.len() + j] == change(g, j));
            }
        }
    }
}

/// What the walk tells as a change is the change from a snapshot of a group to the next one. The
/// result is the group and the place in it.
pub proof fn law_walk_tells_only_changes(
    gs: Seq<GroupView<Snapshot>>,
    n: nat,
    t: TransitionView,
) -> (r: (int, int))
    requires
        n <= gs.len(),
        forall|i: int| 0 <= i < n ==> readable(#[trigger] gs[i]),
        walked(gs, n) is Ok,
        walked(gs, n)->Ok_0.0.contains(t),
    ensures
        0 <= r.0 < n,
        0 <= r.1 < gs[r.0].items.len() - 1,
        t == change(gs[r.0], r.1),
    decreases n,
{
    let m = (n - 1) as nat;
    let g = gs[n - 1];
    law_walk_tells_all(gs, m, 0, 0);
    assert(readable(g));
    let (ts, is) = walked(gs, m)->Ok_0;
    if ts.contains(t) {
        law_walk_tells_only_changes(gs, m, t)
    } else {
        if g.items.len() == 1 {
            assert(decoded(g.items[0].cbor@) is Ok);
        }
        assert(g.items.len() > 1);
        lemma_changes(g, (g.items.len() - 1) as nat);
        let more = transitions(g, (g.items.len() - 1) as nat)->Ok_0;
        let all = ts + more;
        let x = choose|x: int| 0 <= x < all.len() && all[x] == t;
        if x < ts.len() {
            assert(ts[x] == t);
        }
        (m as int, x - ts.len())
    }
}

/// What the walk tells as a single snapshot is the only one of its group.
pub proof fn law_walk_tells_only_single_snapshots(
    gs: Seq<GroupView<Snapshot>>,
    n: nat,
    v: InitialView,
) -> (k: int)
    requires
        n <= gs.len(),
        forall|i: int| 0 <= i < n ==> readable(#[trigger] gs[i]),
        walked(gs, n) is Ok,
        walked(gs, n)->Ok_0.1.contains(v),
    ensures
        0 <= k < n,
        gs[k].items.len() == 1,
        v == alone(gs[k]),
    decreases n,
{
    let m = (n - 1) as nat;
    let g = gs[n - 1];
    law_walk_tells_all(gs, m, 0, 0);
    assert(readable(g));
    let (ts, is) = walked(gs, m)->Ok_0;
    if is.contains(v) {
        law_walk_tells_only_single_snapshots(gs, m, v)
    } else {
        if g.items.len() > 1 {
            lemma_changes(g, (g.items.len() - 1) as nat);
        }
        assert(g.items.len() == 1);
        assert(decoded(g.items[0].cbor@) is Ok);
        let all = is.push(alone(g));
        let x = choose|x: int| 0 <= x < all.len() && all[x] == v;
        if x < is.len() {
            assert(is[x] == v);
        }
        m as int
    }
}

proof fn lemma_transitions_err(g: GroupView<Snapshot>, n: nat, j: int)
    requires
        0 <= j <= n < g.items.len(),
        n > 0,
        decoded(g.items[j].cbor@) is Err,
    ensures
        transitions(g, n) is Err,
    decreases n,
{
    if j < n && n > 1 {
        lemma_transitions_err(g, (n - 1) as nat, j);
    }
}

/// Where a snapshot cannot be read, the walk fails.
pub proof fn law_unreadable_snapshot_fails(gs: Seq<GroupView<Snapshot>>, n: nat, k: int, j: int)
    requires
        0 <= k < n <= gs.len(),
        0 <= j < gs[k].items.len(),
        decoded(gs[k].items[j].cbor@) is Err,
    ensures
        walked(gs, n) is Err,
    decreases n,
{
    if k < n - 1 {
        law_unreadable_snapshot_fails(gs, (n - 1) as nat, k, j);
    } else if gs[k].items.len() > 1 {
        lemma_transitions_err(gs[k], (gs[k].items.len() - 1) as nat, j);
    }
}

// ---------- A pair ----------

/// A number names the first snapshot that has it, and none where none has.
pub proof fn law_number_names_first(ss: Seq<Snapshot>, n: u64, i: int, k: int)
    requires
        0 <= i <= k <= ss.len(),
        forall|j: int| i <= j < k ==> (#[trigger] ss[j]).seq != n,
        k < ss.len() ==> ss[k].seq == n,
    ensures
        k < ss.len() ==> numbered(ss, n, i) == Some(ss[k]),
        k == ss.len() ==> numbered(ss, n, i) is None,
    decreases k - i,
{
    if i < k {
        assert(ss[i].seq != n);
        law_number_names_first(ss, n, i + 1, k);
    }
}

/// A pair is compared where both its numbers are given with a canister and a key; one number alone is
/// refused, and so is a pair without its canister or its key.
pub proof fn law_when_a_pair_is_compared(o: Options)
    ensures
        o.from is None && o.to is None ==> asked_pair(o) matches Ok(None),
        o.from is Some && o.to is Some && o.canister is Some && o.key is Some ==> asked_pair(o)
            == Ok::<Option<(u64, u64)>, PairError>(Some((o.from->0, o.to->0))),
        o.from is Some && o.to is Some && (o.canister is None || o.key is None) ==> asked_pair(
            o,
        ) matches Err(PairError::ScopeMissing),
        o.from is Some && o.to is None ==> asked_pair(o) matches Err(PairError::ToMissing),
        o.from is None && o.to is Some ==> asked_pair(o) matches Err(PairError::FromMissing),
{
}

/// A pair that is there and can be read gives the change from the first snapshot to the second; what
/// is not there is named.
pub proof fn law_pair_is_compared(
    r: Result<Transition, PairError>,
    ss: Seq<Snapshot>,
    from: u64,
    to: u64,
    i: int,
    j: int,
)
    requires
        is_comparison(r, ss, from, to),
        0 <= i < ss.len(),
        0 <= j < ss.len(),
        ss[i].seq == from,
        ss[j].seq == to,
        forall|x: int| 0 <= x < i ==> (#[trigger] ss[x]).seq != from,
        forall|x: int| 0 <= x < j ==> (#[trigger] ss[x]).seq != to,
        decoded(ss[i].cbor@) is Ok,
        decoded(ss[j].cbor@) is Ok,
    ensures
        r matches Ok(t) && t@ == (TransitionView {
            canister: ss[i].canister@,
            key: ss[i].key@,
            from_seq: from,
            to_seq: to,
            deltas: differences(
                Seq::empty(),
                decoded(ss[i].cbor@)->Ok_0,
                decoded(ss[j].cbor@)->Ok_0,
            ),
        }),
{
    law_number_names_first(ss, from, 0, i);
    law_number_names_first(ss, to, 0, j);
}

/// A key that is a text stands in a path without its quotes; any other stands as it is shown.
pub proof fn law_text_key_is_bare(t: Seq<char>)
    ensures
        unquoted(seq!['"'] + t + seq!['"']) == t,
        t.len() > 0 && t[0] != '"' ==> unquoted(t) == t,
{
    let s = seq!['"'] + t + seq!['"'];
    assert(s[0] == '"' && s[s.len() - 1] == '"');
    assert(s.subrange(1, s.len() - 1) =~= t);
}

/// The walk goes group by group: a group adds the change from each of its snapshots to the next, in
/// order, and one of a single snapshot adds that.
pub proof fn law_walk_goes_group_by_group(gs: Seq<GroupView<Snapshot>>, n: nat)
    requires
        n < gs.len(),
        forall|i: int| 0 <= i <= n ==> readable(#[trigger] gs[i]),
        gs[n as int].items.len() > 0,
    ensures
        walked(gs, 0)->Ok_0.0.len() == 0,
        walked(gs, 0)->Ok_0.1.len() == 0,
        walked(gs, n) is Ok,
        walked(gs, n + 1) is Ok,
        walked(gs, n + 1)->Ok_0.0 == walked(gs, n)->Ok_0.0 + Seq::new(
            (gs[n as int].items.len() - 1) as nat,
            |j: int| change(gs[n as int], j),
        ),
        gs[n as int].items.len() == 1 ==> walked(gs, n + 1)->Ok_0.1 == walked(gs, n)->Ok_0.1 + seq![
            alone(gs[n as int]),
        ],
        gs[n as int].items.len() > 1 ==> walked(gs, n + 1)->Ok_0.1 == walked(gs, n)->Ok_0.1,
{
    let g = gs[n as int];
    law_walk_tells_all(gs, n, 0, 0);
    assert(readable(g));
    let (ts, is) = walked(gs, n)->Ok_0;
    lemma_changes(g, (g.items.len() - 1) as nat);
    let more = Seq::new((g.items.len() - 1) as nat, |j: int| change(g, j));
    if g.items.len() == 1 {
        assert(decoded(g.items[0].cbor@) is Ok);
        assert(ts + more =~= ts);
        assert(is.push(alone(g)) =~= is + seq![alone(g)]);
    }
}

} // verus!
