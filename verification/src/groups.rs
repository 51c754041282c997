//! Items in groups that two texts name, the groups in the order of their
//! names, and the items of a group in the order of their numbers.

use vstd::prelude::*;
use vstd::multiset::Multiset;

use crate::order::{law_sorted, slot, sorted};
use crate::text::{lemma_rank_chain, lemma_rank_flip, lemma_rank_same, rank, rank_text, Rank};

verus! {

/// The items that go by the names `a` and `b`.
pub struct Group<T> {
    pub a: String,
    pub b: String,
    pub items: Vec<T>,
}

/// A group as a mathematical value.
pub struct GroupView<T> {
    pub a: Seq<char>,
    pub b: Seq<char>,
    pub items: Seq<T>,
}

impl<T> View for Group<T> {
    type V = GroupView<T>;

    open spec fn view(&self) -> GroupView<T> {
        GroupView { a: self.a@, b: self.b@, items: self.items@ }
    }
}

/// The views of a sequence of groups.
pub open spec fn groups_view<T>(v: Seq<Group<T>>) -> Seq<GroupView<T>> {
    Seq::new(v.len(), |i: int| v[i]@)
}

// ---------- Order of names ----------

/// Where the first pair of names stands to the second: by the first name, then by the second.
pub open spec fn rank2(a1: Seq<char>, b1: Seq<char>, a2: Seq<char>, b2: Seq<char>) -> Rank {
    match rank(a1, a2) {
        Rank::Same => rank(b1, b2),
        r => r,
    }
}

fn rank_pair(a1: &str, b1: &str, a2: &str, b2: &str) -> (r: Rank)
    ensures
        r == rank2(a1@, b1@, a2@, b2@),
{
    match rank_text(a1, a2) {
        Rank::Same => rank_text(b1, b2),
        r => r,
    }
}

/// The first group at or after `i` that does not come before the names `a` and `b`.
pub open spec fn spot<T>(gs: Seq<GroupView<T>>, a: Seq<char>, b: Seq<char>, i: int) -> int
    decreases gs.len() - i,
{
    if 0 <= i < gs.len() && rank2(gs[i].a, gs[i].b, a, b) == Rank::Before {
        spot(gs, a, b, i + 1)
    } else {
        i
    }
}

/// The groups with `item` in the group of `a` and `b`, behind what is there.
pub open spec fn put_in<T>(gs: Seq<GroupView<T>>, a: Seq<char>, b: Seq<char>, item: T) -> Seq<
    GroupView<T>,
> {
    let i = spot(gs, a, b, 0);
    if i < gs.len() && gs[i].a == a && gs[i].b == b {
        gs.update(i, GroupView { a, b, items: gs[i].items.push(item) })
    } else {
        gs.insert(i, GroupView { a, b, items: seq![item] })
    }
}

/// Put `item` into the group of `a` and `b`, behind what is there.
pub fn put<T>(gs: &mut Vec<Group<T>>, a: String, b: String, item: T)
    ensures
        groups_view(final(gs)@) == put_in(groups_view(old(gs)@), a@, b@, item),
{
    let ghost before = groups_view(gs@);
    let n: usize = gs.len();
    let mut i: usize = 0;
    while i < n
        invariant
            i <= n,
            n == gs@.len(),
            gs@ == old(gs)@,
            before == groups_view(gs@),
            spot(before, a@, b@, 0) == spot(before, a@, b@, i as int),
        decreases n - i,
    {
        let r = rank_pair(gs[i].a.as_str(), gs[i].b.as_str(), a.as_str(), b.as_str());
        assert(before[i as int] == gs@[i as int]@);
        match r {
            Rank::Before => {
                i += 1;
            },
            Rank::Same => {
                proof {
                    lemma_rank_same(before[i as int].a, a@);
                    lemma_rank_same(before[i as int].b, b@);
                }
                let mut g = gs.remove(i);
                let ghost items = g.items@;
                g.items.push(item);
                gs.insert(i, g);
                assert(groups_view(gs@) =~= put_in(before, a@, b@, item));
                return ;
            },
            Rank::After => {
                proof {
                    lemma_rank_same(before[i as int].a, a@);
                    lemma_rank_same(before[i as int].b, b@);
                }
                let mut items: Vec<T> = Vec::new();
                items.push(item);
                gs.insert(i, Group { a, b, items });
                assert(groups_view(gs@) =~= put_in(before, a@, b@, item));
                return ;
            },
        }
    }
    let mut items: Vec<T> = Vec::new();
    items.push(item);
    gs.push(Group { a, b, items });
    assert(groups_view(gs@) =~= put_in(before, a@, b@, item));
}

// ---------- What groups keep ----------

/// The groups are in the order of their names, and no two have the same.
pub open spec fn ordered<T>(gs: Seq<GroupView<T>>) -> bool {
    forall|i: int, j: int|
        0 <= i < j < gs.len() ==> rank2(
            (#[trigger] gs[i]).a,
            gs[i].b,
            (#[trigger] gs[j]).a,
            gs[j].b,
        ) == Rank::Before
}

/// All items of the first `n` groups.
pub open spec fn members<T>(gs: Seq<GroupView<T>>, n: nat) -> Multiset<T>
    decreases n,
{
    if n == 0 || n > gs.len() {
        Multiset::empty()
    } else {
        members(gs, (n - 1) as nat).add(gs[n - 1].items.to_multiset())
    }
}

/// All items of all groups.
pub open spec fn all_members<T>(gs: Seq<GroupView<T>>) -> Multiset<T> {
    members(gs, gs.len())
}

pub proof fn lemma_rank2_chain(
    a1: Seq<char>,
    b1: Seq<char>,
    a2: Seq<char>,
    b2: Seq<char>,
    a3: Seq<char>,
    b3: Seq<char>,
)
    requires
        rank2(a1, b1, a2, b2) == Rank::Before,
        rank2(a2, b2, a3, b3) == Rank::Before,
    ensures
        rank2(a1, b1, a3, b3) == Rank::Before,
{
    lemma_rank_same(a1, a2);
    lemma_rank_same(a2, a3);
    if rank(a1, a2) == Rank::Before && rank(a2, a3) == Rank::Before {
        lemma_rank_chain(a1, a2, a3);
    } else if a1 == a2 && a2 == a3 {
        lemma_rank_chain(b1, b2, b3);
    }
}

pub proof fn lemma_rank2_flip(a1: Seq<char>, b1: Seq<char>, a2: Seq<char>, b2: Seq<char>)
    ensures
        rank2(a1, b1, a2, b2) == Rank::After <==> rank2(a2, b2, a1, b1) == Rank::Before,
        rank2(a1, b1, a2, b2) == Rank::Same <==> a1 == a2 && b1 == b2,
{
    lemma_rank_flip(a1, a2);
    lemma_rank_flip(b1, b2);
    lemma_rank_same(a1, a2);
    lemma_rank_same(b1, b2);
    lemma_rank_same(a2, a1);
}

pub proof fn lemma_spot<T>(gs: Seq<GroupView<T>>, a: Seq<char>, b: Seq<char>, i: int)
    requires
        0 <= i <= gs.len(),
    ensures
        i <= spot(gs, a, b, i) <= gs.len(),
        forall|k: int|
            i <= k < spot(gs, a, b, i) ==> rank2(
                (#[trigger] gs[k]).a,
                gs[k].b,
                a,
                b,
            ) == Rank::Before,
        spot(gs, a, b, i) < gs.len() ==> rank2(
            gs[spot(gs, a, b, i)].a,
            gs[spot(gs, a, b, i)].b,
            a,
            b,
        ) != Rank::Before,
    decreases gs.len() - i,
{
    if i < gs.len() && rank2(gs[i].a, gs[i].b, a, b) == Rank::Before {
        lemma_spot(gs, a, b, i + 1);
    }
}

/// An item that is put into groups in order leaves them in order.
pub proof fn law_put_keeps_order<T>(gs: Seq<GroupView<T>>, a: Seq<char>, b: Seq<char>, item: T)
    requires
        ordered(gs),
    ensures
        ordered(put_in(gs, a, b, item)),
{
    let at = spot(gs, a, b, 0);
    lemma_spot(gs, a, b, 0);
    let out = put_in(gs, a, b, item);
    if at < gs.len() && gs[at].a == a && gs[at].b == b {
        assert forall|i: int, j: int| 0 <= i < j < out.len() implies rank2(
            (#[trigger] out[i]).a,
            out[i].b,
            (#[trigger] out[j]).a,
            out[j].b,
        ) == Rank::Before by {
            assert(out[i].a == gs[i].a && out[i].b == gs[i].b);
            assert(out[j].a == gs[j].a && out[j].b == gs[j].b);
        }
    } else {
        if at < gs.len() {
            lemma_rank2_flip(gs[at].a, gs[at].b, a, b);
        }
        assert forall|i: int, j: int| 0 <= i < j < out.len() implies rank2(
            (#[trigger] out[i]).a,
            out[i].b,
            (#[trigger] out[j]).a,
            out[j].b,
        ) == Rank::Before by {
            if j < at {
                assert(out[i] == gs[i] && out[j] == gs[j]);
            } else if j == at {
                assert(out[i] == gs[i]);
            } else if i < at {
                assert(out[i] == gs[i] && out[j] == gs[j - 1]);
            } else if i == at {
                assert(out[j] == gs[j - 1]);
                if j - 1 > at {
                    lemma_rank2_chain(
                        a,
                        b,
                        gs[at].a,
                        gs[at].b,
                        gs[j - 1].a,
                        gs[j - 1].b,
                    );
                }
            } else {
                assert(out[i] == gs[i - 1] && out[j] == gs[j - 1]);
            }
        }
    }
}

pub proof fn lemma_members_same<T>(x: Seq<GroupView<T>>, y: Seq<GroupView<T>>, n: nat)
    requires
        n <= x.len(),
        n <= y.len(),
        forall|i: int| 0 <= i < n ==> x[i].items == (#[trigger] y[i]).items,
    ensures
        members(x, n) == members(y, n),
    decreases n,
{
    if n > 0 {
        lemma_members_same(x, y, (n - 1) as nat);
        assert(x[n - 1].items == y[n - 1].items);
    }
}

/// Taking group `at` away takes its items away.
pub proof fn lemma_members_remove<T>(gs: Seq<GroupView<T>>, at: int, n: nat)
    requires
        0 <= at < n <= gs.len(),
    ensures
        members(gs, n) == members(gs.remove(at), (n - 1) as nat).add(gs[at].items.to_multiset()),
    decreases n,
{
    let rest = gs.remove(at);
    if n - 1 == at {
        assert forall|i: int| 0 <= i < n - 1 implies gs[i].items == (#[trigger] rest[i]).items by {
            assert(rest[i] == gs[i]);
        }
        lemma_members_same(gs, rest, (n - 1) as nat);
    } else {
        lemma_members_remove(gs, at, (n - 1) as nat);
        assert(rest[n - 2] == gs[n - 1]);
        assert(members(gs, n) =~= members(rest, (n - 1) as nat).add(
            gs[at].items.to_multiset(),
        ));
    }
}

/// Putting an item into the groups adds it and loses none.
pub proof fn law_put_adds<T>(gs: Seq<GroupView<T>>, a: Seq<char>, b: Seq<char>, item: T)
    ensures
        all_members(put_in(gs, a, b, item)) == all_members(gs).insert(item),
{
    broadcast use vstd::seq_lib::group_to_multiset_ensures;

    lemma_spot(gs, a, b, 0);
    let at = spot(gs, a, b, 0);
    let out = put_in(gs, a, b, item);
    lemma_members_remove(out, at, out.len());
    if at < gs.len() && gs[at].a == a && gs[at].b == b {
        lemma_members_remove(gs, at, gs.len());
        assert(out.remove(at) =~= gs.remove(at));
        assert(out[at].items.to_multiset() =~= gs[at].items.to_multiset().insert(item));
    } else {
        assert(out.remove(at) =~= gs);
        assert(out[at].items =~= Seq::<T>::empty().push(item));
        assert(out[at].items.to_multiset() =~= Multiset::empty().insert(item));
    }
    assert(all_members(out) =~= all_members(gs).insert(item));
}

// ---------- Order in a group ----------

/// What has a number.
pub trait Numbered {
    /// The number.
    spec fn number(&self) -> int;

    /// The number.
    fn seq_number(&self) -> (n: u64)
        ensures
            n == self.number(),
    ;
}

/// Items go by their numbers.
pub open spec fn number_key<T: Numbered>() -> spec_fn(T) -> int {
    |x: T| x.number()
}

/// The items by their numbers; those with the same number keep their order.
pub open spec fn by_number<T: Numbered>(items: Seq<T>) -> Seq<T> {
    sorted(items, number_key::<T>(), items.len())
}

/// The items by their numbers; those with the same number keep their order.
pub fn sort_by_number<T: Numbered>(items: Vec<T>) -> (out: Vec<T>)
    ensures
        out@ == by_number(items@),
{
    let ghost all = items@;
    let ghost key = number_key::<T>();
    let mut rest = items;
    let mut out: Vec<T> = Vec::new();
    let ghost mut done: nat = 0;
    assert(all.subrange(0, all.len() as int) =~= all);
    while rest.len() > 0
        invariant
            key == number_key::<T>(),
            done + rest@.len() == all.len(),
            rest@ == all.subrange(done as int, all.len() as int),
            out@ == sorted(all, key, done),
        decreases rest@.len(),
    {
        let x = rest.remove(0);
        assert(x == all[done as int]);
        let ghost before = out@;
        let number = x.seq_number();
        let mut n: usize = out.len();
        while n > 0 && out[n - 1].seq_number() > number
            invariant
                n <= out@.len(),
                key == number_key::<T>(),
                before == out@,
                number == x.number(),
                slot(before, key, number as int, before.len() as int) == slot(
                    before,
                    key,
                    number as int,
                    n as int,
                ),
            decreases n,
        {
            n -= 1;
        }
        out.insert(n, x);
        proof {
            done = done + 1;
        }
        assert(rest@ =~= all.subrange(done as int, all.len() as int));
    }
    out
}

/// The groups with the items of each by their numbers.
pub open spec fn each_by_number<T: Numbered>(gs: Seq<GroupView<T>>) -> Seq<GroupView<T>> {
    Seq::new(
        gs.len(),
        |i: int| GroupView { a: gs[i].a, b: gs[i].b, items: by_number(gs[i].items) },
    )
}

/// The groups with the items of each by their numbers.
pub fn sort_each<T: Numbered>(gs: Vec<Group<T>>) -> (out: Vec<Group<T>>)
    ensures
        groups_view(out@) == each_by_number(groups_view(gs@)),
{
    let ghost all = groups_view(gs@);
    let ghost n = gs@.len();
    let mut rest = gs;
    let mut out: Vec<Group<T>> = Vec::new();
    assert(all.subrange(0, all.len() as int) =~= all);
    while rest.len() > 0
        invariant
            n == all.len(),
            out@.len() + rest@.len() == n,
            groups_view(rest@) == all.subrange(out@.len() as int, n as int),
            groups_view(out@) == each_by_number(all).subrange(0, out@.len() as int),
        decreases rest@.len(),
    {
        let ghost before = groups_view(out@);
        let ghost left = groups_view(rest@);
        let ghost k = out@.len() as int;
        assert(left[0] == all[k]);
        assert(left[0] == rest@[0]@);
        let g = rest.remove(0);
        let items = sort_by_number(g.items);
        out.push(Group { a: g.a, b: g.b, items });
        assert(groups_view(out@) =~= before.push(each_by_number(all)[k]));
        assert(each_by_number(all).subrange(0, k + 1) =~= each_by_number(all).subrange(
            0,
            k,
        ).push(each_by_number(all)[k]));
        assert(groups_view(rest@) =~= left.subrange(1, left.len() as int));
        assert(groups_view(rest@) =~= all.subrange(k + 1, n as int));
    }
    assert(groups_view(out@) =~= each_by_number(all));
    out
}

/// Sorting in the groups loses none.
pub proof fn law_sorting_keeps_members<T: Numbered>(gs: Seq<GroupView<T>>, n: nat)
    requires
        n <= gs.len(),
    ensures
        members(each_by_number(gs), n) == members(gs, n),
    decreases n,
{
    if n > 0 {
        law_sorting_keeps_members(gs, (n - 1) as nat);
        let items = gs[n - 1].items;
        law_sorted(items, number_key::<T>(), items.len());
        assert(items.subrange(0, items.len() as int) =~= items);
    }
}

} // verus!
