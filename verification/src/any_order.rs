//! Groups do not depend on the order in which their items came, where the
//! items of a group have numbers of their own.

use vstd::prelude::*;

use crate::diff::{grouped, walked, Snapshot};
use crate::groups::{
    by_number, each_by_number, law_put_keeps_order, lemma_rank2_chain, lemma_rank2_flip,
    lemma_spot, number_key, ordered, put_in, rank2, spot, GroupView, Numbered,
};
use crate::order::{in_order, law_sorted};
use crate::replay::{by_canister, reordered, EventRow};
use crate::text::Rank;

verus! {

// ---------- Sorting ----------

/// Each item has a smaller key than every later one.
spec fn strictly<A>(s: Seq<A>, key: spec_fn(A) -> int) -> bool {
    forall|i: int, j: int| 0 <= i < j < s.len() ==> key(#[trigger] s[i]) < key(#[trigger] s[j])
}

/// The same items in the order of keys that differ are the same sequence.
proof fn lemma_one_order<A>(s: Seq<A>, t: Seq<A>, key: spec_fn(A) -> int)
    requires
        strictly(s, key),
        in_order(t, key),
        s.to_multiset() == t.to_multiset(),
    ensures
        s == t,
    decreases s.len(),
{
    broadcast use vstd::seq_lib::group_to_multiset_ensures;

    assert(s.len() == s.to_multiset().len());
    assert(t.len() == t.to_multiset().len());
    if s.len() > 0 {
        let n = s.len() - 1;
        let x = s[n];
        let y = t[n];
        assert(s.contains(x) && t.contains(y));
        assert(s.to_multiset().count(y) > 0);
        assert(t.to_multiset().count(x) > 0);
        let i = choose|i: int| 0 <= i < s.len() && s[i] == y;
        let j = choose|j: int| 0 <= j < t.len() && t[j] == x;
        assert(key(t[j]) <= key(t[n]));
        assert(i == n);
        let s1 = s.remove(n);
        let t1 = t.remove(n);
        assert(s1 =~= s.subrange(0, n));
        assert(t1 =~= t.subrange(0, n));
        assert(s1.to_multiset() =~= s.to_multiset().remove(x));
        assert(t1.to_multiset() =~= t.to_multiset().remove(y));
        lemma_one_order(s1, t1, key);
        assert(s =~= s1.push(x));
        assert(t =~= t1.push(y));
    } else {
        assert(s =~= t);
    }
}

// ---------- Groups by names ----------

/// The first `n` items in groups by the names that `a` and `b` give.
pub open spec fn grouped_by<T>(
    es: Seq<T>,
    a: spec_fn(T) -> Seq<char>,
    b: spec_fn(T) -> Seq<char>,
    n: nat,
) -> Seq<GroupView<T>>
    decreases n,
{
    if n == 0 || n > es.len() {
        Seq::empty()
    } else {
        put_in(grouped_by(es, a, b, (n - 1) as nat), a(es[n - 1]), b(es[n - 1]), es[n - 1])
    }
}

/// No two items of the same names have the same number.
pub open spec fn told_apart<T: Numbered>(
    es: Seq<T>,
    a: spec_fn(T) -> Seq<char>,
    b: spec_fn(T) -> Seq<char>,
) -> bool {
    forall|i: int, j: int|
        0 <= i < j < es.len() && a(#[trigger] es[i]) == a(#[trigger] es[j]) && b(es[i]) == b(es[j])
            ==> es[i].number() != es[j].number()
}

/// The group has these names.
spec fn named<T>(g: GroupView<T>, a: Seq<char>, b: Seq<char>) -> bool {
    g.a == a && g.b == b
}

/// One of the groups has these names.
spec fn has_name<T>(gs: Seq<GroupView<T>>, a: Seq<char>, b: Seq<char>) -> bool {
    exists|k: int| 0 <= k < gs.len() && named(#[trigger] gs[k], a, b)
}

/// The group holds the items of its names, at least one, as often as `es` does.
#[verifier::opaque]
spec fn gathers<T>(
    g: GroupView<T>,
    es: Seq<T>,
    a: spec_fn(T) -> Seq<char>,
    b: spec_fn(T) -> Seq<char>,
) -> bool {
    g.items.len() > 0 && forall|x: T| #[trigger]
        g.items.to_multiset().count(x) == if named(g, a(x), b(x)) {
            es.to_multiset().count(x)
        } else {
            0
        }
}

/// Each group gathers its items, and each item has a group.
spec fn complete<T>(
    gs: Seq<GroupView<T>>,
    es: Seq<T>,
    a: spec_fn(T) -> Seq<char>,
    b: spec_fn(T) -> Seq<char>,
) -> bool {
    &&& forall|k: int| 0 <= k < gs.len() ==> gathers(#[trigger] gs[k], es, a, b)
    &&& forall|i: int| 0 <= i < es.len() ==> has_name(gs, a(#[trigger] es[i]), b(es[i]))
}

/// In groups in order no other group than the one at the spot has the names.
proof fn lemma_only_spot<T>(gs: Seq<GroupView<T>>, a: Seq<char>, b: Seq<char>, k: int)
    requires
        ordered(gs),
        0 <= k < gs.len(),
        k != spot(gs, a, b, 0) || !named(gs[k], a, b),
    ensures
        !named(gs[k], a, b),
{
    lemma_spot(gs, a, b, 0);
    let at = spot(gs, a, b, 0);
    lemma_rank2_flip(gs[k].a, gs[k].b, a, b);
    if at < k {
        lemma_rank2_flip(gs[at].a, gs[at].b, a, b);
        assert(rank2(gs[at].a, gs[at].b, gs[k].a, gs[k].b) == Rank::Before);
        if rank2(gs[at].a, gs[at].b, a, b) == Rank::After {
            lemma_rank2_chain(a, b, gs[at].a, gs[at].b, gs[k].a, gs[k].b);
            lemma_rank2_flip(a, b, gs[k].a, gs[k].b);
        }
    }
}

/// A group that an item does not go into gathers as before.
proof fn lemma_gathers_other<T>(
    g: GroupView<T>,
    es: Seq<T>,
    e: T,
    a: spec_fn(T) -> Seq<char>,
    b: spec_fn(T) -> Seq<char>,
)
    requires
        gathers(g, es, a, b),
        !named(g, a(e), b(e)),
    ensures
        gathers(g, es.push(e), a, b),
{
    broadcast use vstd::seq_lib::group_to_multiset_ensures;

    reveal(gathers);
    assert forall|x: T| #[trigger]
        g.items.to_multiset().count(x) == if named(g, a(x), b(x)) {
            es.push(e).to_multiset().count(x)
        } else {
            0
        } by {
        assert(es.push(e).to_multiset() =~= es.to_multiset().insert(e));
    }
}

/// The group that an item goes into gathers it too.
proof fn lemma_gathers_one<T>(
    g: GroupView<T>,
    es: Seq<T>,
    e: T,
    a: spec_fn(T) -> Seq<char>,
    b: spec_fn(T) -> Seq<char>,
)
    requires
        gathers(g, es, a, b),
        named(g, a(e), b(e)),
    ensures
        gathers(GroupView { a: g.a, b: g.b, items: g.items.push(e) }, es.push(e), a, b),
{
    broadcast use vstd::seq_lib::group_to_multiset_ensures;

    reveal(gathers);
    let h = GroupView { a: g.a, b: g.b, items: g.items.push(e) };
    assert forall|x: T| #[trigger]
        h.items.to_multiset().count(x) == if named(h, a(x), b(x)) {
            es.push(e).to_multiset().count(x)
        } else {
            0
        } by {
        assert(es.push(e).to_multiset() =~= es.to_multiset().insert(e));
        assert(h.items.to_multiset() =~= g.items.to_multiset().insert(e));
        assert(g.items.to_multiset().count(x) == if named(g, a(x), b(x)) {
            es.to_multiset().count(x)
        } else {
            0
        });
    }
}

/// A group that an item begins gathers it.
proof fn lemma_gathers_new<T>(
    gs: Seq<GroupView<T>>,
    es: Seq<T>,
    e: T,
    a: spec_fn(T) -> Seq<char>,
    b: spec_fn(T) -> Seq<char>,
)
    requires
        complete(gs, es, a, b),
        !has_name(gs, a(e), b(e)),
    ensures
        gathers(GroupView { a: a(e), b: b(e), items: seq![e] }, es.push(e), a, b),
{
    broadcast use vstd::seq_lib::group_to_multiset_ensures;

    reveal(gathers);
    let h = GroupView { a: a(e), b: b(e), items: seq![e] };
    assert(h.items =~= Seq::<T>::empty().push(e));
    assert forall|x: T| #[trigger]
        h.items.to_multiset().count(x) == if named(h, a(x), b(x)) {
            es.push(e).to_multiset().count(x)
        } else {
            0
        } by {
        assert(es.push(e).to_multiset() =~= es.to_multiset().insert(e));
        assert(h.items.to_multiset() =~= Seq::<T>::empty().to_multiset().insert(e));
        if named(h, a(x), b(x)) && es.contains(x) {
            let i = choose|i: int| 0 <= i < es.len() && es[i] == x;
            assert(has_name(gs, a(es[i]), b(es[i])));
        }
    }
}

/// Putting an item in leaves the groups complete.
proof fn lemma_put_complete<T>(
    gs: Seq<GroupView<T>>,
    es: Seq<T>,
    e: T,
    a: spec_fn(T) -> Seq<char>,
    b: spec_fn(T) -> Seq<char>,
)
    requires
        ordered(gs),
        complete(gs, es, a, b),
    ensures
        complete(put_in(gs, a(e), b(e), e), es.push(e), a, b),
{
    let at = spot(gs, a(e), b(e), 0);
    lemma_spot(gs, a(e), b(e), 0);
    let out = put_in(gs, a(e), b(e), e);
    let all = es.push(e);
    let met = at < gs.len() && named(gs[at], a(e), b(e));
    if !met {
        assert forall|k: int| 0 <= k < gs.len() implies !named(#[trigger] gs[k], a(e), b(e)) by {
            lemma_only_spot(gs, a(e), b(e), k);
        }
        lemma_gathers_new(gs, es, e, a, b);
    }
    assert forall|k: int| 0 <= k < out.len() implies gathers(#[trigger] out[k], all, a, b) by {
        if k == at {
            if met {
                assert(gathers(gs[at], es, a, b));
                lemma_gathers_one(gs[at], es, e, a, b);
            }
        } else {
            let old_k = if met || k < at {
                k
            } else {
                k - 1
            };
            assert(out[k] == gs[old_k]);
            assert(gathers(gs[old_k], es, a, b));
            lemma_only_spot(gs, a(e), b(e), old_k);
            lemma_gathers_other(gs[old_k], es, e, a, b);
        }
    }
    assert(named(out[at], a(e), b(e)));
    assert forall|i: int| 0 <= i < all.len() implies has_name(
        out,
        a(#[trigger] all[i]),
        b(all[i]),
    ) by {
        if i < es.len() {
            assert(all[i] == es[i]);
            let k = choose|k: int| 0 <= k < gs.len() && named(#[trigger] gs[k], a(es[i]), b(es[i]));
            let new_k = if met || k < at {
                k
            } else {
                k + 1
            };
            assert(named(out[new_k], a(es[i]), b(es[i])));
        }
    }
}

/// The groups of the first `n` items are in order and complete.
proof fn lemma_grouped_by<T>(
    es: Seq<T>,
    a: spec_fn(T) -> Seq<char>,
    b: spec_fn(T) -> Seq<char>,
    n: nat,
)
    requires
        n <= es.len(),
    ensures
        ordered(grouped_by(es, a, b, n)),
        complete(grouped_by(es, a, b, n), es.subrange(0, n as int), a, b),
    decreases n,
{
    if n > 0 {
        let m = (n - 1) as nat;
        lemma_grouped_by(es, a, b, m);
        let gs = grouped_by(es, a, b, m);
        let e = es[n - 1];
        law_put_keeps_order(gs, a(e), b(e), e);
        lemma_put_complete(gs, es.subrange(0, m as int), e, a, b);
        assert(es.subrange(0, n as int) =~= es.subrange(0, m as int).push(e));
    }
}

// ---------- Two orders ----------

/// Every name of `x` is one of `y`.
spec fn names_in<T>(x: Seq<GroupView<T>>, y: Seq<GroupView<T>>) -> bool {
    forall|k: int| 0 <= k < x.len() ==> has_name(y, (#[trigger] x[k]).a, x[k].b)
}

/// Where the last names are the same, the others are among the others.
proof fn lemma_other_names<T>(x: Seq<GroupView<T>>, y: Seq<GroupView<T>>)
    requires
        ordered(x),
        names_in(x, y),
        x.len() > 0,
        y.len() > 0,
        named(x.last(), y.last().a, y.last().b),
    ensures
        names_in(x.drop_last(), y.drop_last()),
{
    let x1 = x.drop_last();
    let y1 = y.drop_last();
    assert forall|k: int| 0 <= k < x1.len() implies has_name(y1, (#[trigger] x1[k]).a, x1[k].b) by {
        assert(x1[k] == x[k]);
        assert(has_name(y, x[k].a, x[k].b));
        let j = choose|j: int| 0 <= j < y.len() && named(#[trigger] y[j], x[k].a, x[k].b);
        let n = x.len() - 1;
        assert(rank2(x[k].a, x[k].b, x[n].a, x[n].b) == Rank::Before);
        lemma_rank2_flip(x[k].a, x[k].b, x[n].a, x[n].b);
        assert(j < y1.len());
        assert(named(y1[j], x[k].a, x[k].b));
    }
}

/// Groups in order with the same names have them at the same places.
proof fn lemma_same_names<T>(x: Seq<GroupView<T>>, y: Seq<GroupView<T>>)
    requires
        ordered(x),
        ordered(y),
        names_in(x, y),
        names_in(y, x),
    ensures
        x.len() == y.len(),
        forall|k: int| 0 <= k < x.len() ==> named(#[trigger] x[k], y[k].a, y[k].b),
    decreases x.len(),
{
    if x.len() == 0 {
        if y.len() > 0 {
            assert(has_name(x, y[0].a, y[0].b));
        }
    } else {
        let n = x.len() - 1;
        assert(has_name(y, x[n].a, x[n].b));
        let j = choose|j: int| 0 <= j < y.len() && named(#[trigger] y[j], x[n].a, x[n].b);
        let m = y.len() - 1;
        assert(has_name(x, y[m].a, y[m].b));
        let i = choose|i: int| 0 <= i < x.len() && named(#[trigger] x[i], y[m].a, y[m].b);
        lemma_rank2_flip(x[n].a, x[n].b, y[m].a, y[m].b);
        if j < m {
            assert(rank2(y[j].a, y[j].b, y[m].a, y[m].b) == Rank::Before);
        }
        if i < n {
            assert(rank2(x[i].a, x[i].b, x[n].a, x[n].b) == Rank::Before);
        }
        lemma_rank2_flip(y[m].a, y[m].b, x[n].a, x[n].b);
        assert(named(x[n], y[m].a, y[m].b));
        lemma_other_names(x, y);
        lemma_other_names(y, x);
        let x1 = x.drop_last();
        let y1 = y.drop_last();
        lemma_same_names(x1, y1);
        assert forall|k: int| 0 <= k < x.len() implies named(#[trigger] x[k], y[k].a, y[k].b) by {
            if k < n {
                assert(named(x1[k], y1[k].a, y1[k].b));
            }
        }
    }
}

/// Complete groups of the same items have the same names.
proof fn lemma_names_met<T>(
    x: Seq<GroupView<T>>,
    y: Seq<GroupView<T>>,
    es: Seq<T>,
    fs: Seq<T>,
    a: spec_fn(T) -> Seq<char>,
    b: spec_fn(T) -> Seq<char>,
)
    requires
        complete(x, es, a, b),
        complete(y, fs, a, b),
        es.to_multiset() == fs.to_multiset(),
    ensures
        names_in(x, y),
{
    broadcast use vstd::seq_lib::group_to_multiset_ensures;

    assert forall|k: int| 0 <= k < x.len() implies has_name(y, (#[trigger] x[k]).a, x[k].b) by {
        assert(gathers(x[k], es, a, b));
        reveal(gathers);
        let e = x[k].items[0];
        assert(x[k].items.contains(e));
        assert(x[k].items.to_multiset().count(e) > 0);
        assert(fs.to_multiset().count(e) > 0);
        assert(fs.contains(e));
        let i = choose|i: int| 0 <= i < fs.len() && fs[i] == e;
        assert(has_name(y, a(fs[i]), b(fs[i])));
    }
}

/// The items of a group, sorted, have numbers of their own.
proof fn lemma_strictly_sorted<T: Numbered>(
    g: GroupView<T>,
    es: Seq<T>,
    a: spec_fn(T) -> Seq<char>,
    b: spec_fn(T) -> Seq<char>,
)
    requires
        gathers(g, es, a, b),
        told_apart(es, a, b),
    ensures
        strictly(by_number(g.items), number_key::<T>()),
{
    broadcast use vstd::seq_lib::group_to_multiset_ensures;

    reveal(gathers);
    let key = number_key::<T>();
    let s = by_number(g.items);
    law_sorted(g.items, key, g.items.len());
    assert(g.items.subrange(0, g.items.len() as int) =~= g.items);
    assert(es.no_duplicates());
    es.lemma_multiset_has_no_duplicates();
    assert forall|x: T| s.to_multiset().contains(x) implies s.to_multiset().count(x) == 1 by {
        assert(g.items.to_multiset().count(x) > 0);
        assert(es.to_multiset().contains(x));
    }
    s.lemma_multiset_has_no_duplicates_conv();
    assert forall|i: int, j: int| 0 <= i < j < s.len() implies key(#[trigger] s[i]) < key(
        #[trigger] s[j],
    ) by {
        assert(key(s[i]) <= key(s[j]));
        assert(s.contains(s[i]) && s.contains(s[j]));
        assert(g.items.to_multiset().count(s[i]) > 0);
        assert(g.items.to_multiset().count(s[j]) > 0);
        assert(es.contains(s[i]) && es.contains(s[j]));
        let p = choose|p: int| 0 <= p < es.len() && es[p] == s[i];
        let q = choose|q: int| 0 <= q < es.len() && es[q] == s[j];
        assert(p != q);
        if p < q {
            assert(es[p].number() != es[q].number());
        } else {
            assert(es[q].number() != es[p].number());
        }
    }
}

/// Two groups of the same names and items are the same once they are sorted.
proof fn lemma_same_items<T: Numbered>(
    g: GroupView<T>,
    h: GroupView<T>,
    es: Seq<T>,
    fs: Seq<T>,
    a: spec_fn(T) -> Seq<char>,
    b: spec_fn(T) -> Seq<char>,
)
    requires
        gathers(g, es, a, b),
        gathers(h, fs, a, b),
        named(g, h.a, h.b),
        es.to_multiset() == fs.to_multiset(),
        told_apart(es, a, b),
    ensures
        by_number(g.items) == by_number(h.items),
{
    let key = number_key::<T>();
    lemma_strictly_sorted(g, es, a, b);
    law_sorted(g.items, key, g.items.len());
    law_sorted(h.items, key, h.items.len());
    assert(g.items.subrange(0, g.items.len() as int) =~= g.items);
    assert(h.items.subrange(0, h.items.len() as int) =~= h.items);
    assert(g.items.to_multiset() =~= h.items.to_multiset()) by {
        reveal(gathers);
    }
    lemma_one_order(by_number(g.items), by_number(h.items), key);
}

/// The groups of some items, each sorted by number, do not depend on the order in which the
/// items came, where no two of a group have the same number.
pub proof fn law_groups_ignore_order<T: Numbered>(
    es: Seq<T>,
    fs: Seq<T>,
    a: spec_fn(T) -> Seq<char>,
    b: spec_fn(T) -> Seq<char>,
)
    requires
        es.to_multiset() == fs.to_multiset(),
        told_apart(es, a, b),
    ensures
        each_by_number(grouped_by(es, a, b, es.len())) == each_by_number(
            grouped_by(fs, a, b, fs.len()),
        ),
{
    let x = grouped_by(es, a, b, es.len());
    let y = grouped_by(fs, a, b, fs.len());
    lemma_grouped_by(es, a, b, es.len());
    lemma_grouped_by(fs, a, b, fs.len());
    assert(es.subrange(0, es.len() as int) =~= es);
    assert(fs.subrange(0, fs.len() as int) =~= fs);
    lemma_names_met(x, y, es, fs, a, b);
    lemma_names_met(y, x, fs, es, a, b);
    lemma_same_names(x, y);
    assert forall|k: int| 0 <= k < x.len() implies each_by_number(x)[k] == each_by_number(
        y,
    )[k] by {
        assert(gathers(x[k], es, a, b));
        assert(gathers(y[k], fs, a, b));
        assert(named(x[k], y[k].a, y[k].b));
        lemma_same_items(x[k], y[k], es, fs, a, b);
    }
    assert(each_by_number(x) =~= each_by_number(y));
}

// ---------- Timelines and walks ----------

/// The canister of an event.
pub open spec fn canister_name() -> spec_fn(EventRow) -> Seq<char> {
    |e: EventRow| e.canister@
}

/// No second name.
pub open spec fn no_name() -> spec_fn(EventRow) -> Seq<char> {
    |e: EventRow| Seq::empty()
}

/// The canister of a snapshot.
pub open spec fn snapshot_canister() -> spec_fn(Snapshot) -> Seq<char> {
    |s: Snapshot| s.canister@
}

/// The key of a snapshot.
pub open spec fn snapshot_key() -> spec_fn(Snapshot) -> Seq<char> {
    |s: Snapshot| s.key@
}

proof fn lemma_by_canister_is(es: Seq<EventRow>, n: nat)
    ensures
        by_canister(es, n) == grouped_by(es, canister_name(), no_name(), n),
    decreases n,
{
    if 0 < n <= es.len() {
        lemma_by_canister_is(es, (n - 1) as nat);
    }
}

proof fn lemma_grouped_is(ss: Seq<Snapshot>, n: nat)
    ensures
        grouped(ss, n) == grouped_by(ss, snapshot_canister(), snapshot_key(), n),
    decreases n,
{
    if 0 < n <= ss.len() {
        lemma_grouped_is(ss, (n - 1) as nat);
    }
}

/// The timeline of a trace does not depend on the order in which its events are read, where no
/// two events of a canister have the same number.
pub proof fn law_timeline_ignores_order(es: Seq<EventRow>, fs: Seq<EventRow>)
    requires
        es.to_multiset() == fs.to_multiset(),
        forall|i: int, j: int|
            0 <= i < j < es.len() && (#[trigger] es[i]).canister@ == (#[trigger] es[j]).canister@
                ==> es[i].seq != es[j].seq,
    ensures
        reordered(es) == reordered(fs),
{
    lemma_by_canister_is(es, es.len());
    lemma_by_canister_is(fs, fs.len());
    law_groups_ignore_order(es, fs, canister_name(), no_name());
}

/// How state changes does not depend on the order in which the snapshots are read, where no two
/// snapshots of a canister and a key have the same number.
pub proof fn law_walk_ignores_order(ss: Seq<Snapshot>, ts: Seq<Snapshot>)
    requires
        ss.to_multiset() == ts.to_multiset(),
        forall|i: int, j: int|
            0 <= i < j < ss.len() && (#[trigger] ss[i]).canister@ == (#[trigger] ss[j]).canister@
                && ss[i].key@ == ss[j].key@ ==> ss[i].seq != ss[j].seq,
    ensures
        ({
            let gs = each_by_number(grouped(ss, ss.len()));
            let hs = each_by_number(grouped(ts, ts.len()));
            walked(gs, gs.len()) == walked(hs, hs.len())
        }),
{
    lemma_grouped_is(ss, ss.len());
    lemma_grouped_is(ts, ts.len());
    law_groups_ignore_order(ss, ts, snapshot_canister(), snapshot_key());
}

} // verus!
