//! Sorting by a key, so that what has the same key keeps its order.

use vstd::prelude::*;

verus! {

/// Where an item with key `k` goes among the first `n` of `es`: behind all whose key is no
/// greater.
pub open spec fn slot<A>(es: Seq<A>, key: spec_fn(A) -> int, k: int, n: int) -> int
    decreases n,
{
    if 0 < n <= es.len() && key(es[n - 1]) > k {
        slot(es, key, k, n - 1)
    } else {
        n
    }
}

/// The first `n` of `es` in the order of their keys; those with the same key keep their order.
pub open spec fn sorted<A>(es: Seq<A>, key: spec_fn(A) -> int, n: nat) -> Seq<A>
    decreases n,
{
    if n == 0 || n > es.len() {
        Seq::empty()
    } else {
        let t = sorted(es, key, (n - 1) as nat);
        t.insert(slot(t, key, key(es[n - 1]), t.len() as int), es[n - 1])
    }
}

/// No item of `es` has a greater key than a later one.
pub open spec fn in_order<A>(es: Seq<A>, key: spec_fn(A) -> int) -> bool {
    forall|i: int, j: int|
        0 <= i <= j < es.len() ==> key(#[trigger] es[i]) <= key(#[trigger] es[j])
}

pub proof fn lemma_slot<A>(es: Seq<A>, key: spec_fn(A) -> int, k: int, n: int)
    requires
        0 <= n <= es.len(),
    ensures
        0 <= slot(es, key, k, n) <= n,
        forall|i: int| slot(es, key, k, n) <= i < n ==> key(#[trigger] es[i]) > k,
        slot(es, key, k, n) > 0 ==> key(es[slot(es, key, k, n) - 1]) <= k,
    decreases n,
{
    if 0 < n && key(es[n - 1]) > k {
        lemma_slot(es, key, k, n - 1);
    }
}

proof fn lemma_insert_multiset<A>(t: Seq<A>, k: int, e: A)
    requires
        0 <= k <= t.len(),
    ensures
        t.insert(k, e).to_multiset() == t.to_multiset().insert(e),
{
    broadcast use vstd::seq_lib::group_to_multiset_ensures;

    let u = t.insert(k, e);
    assert(u.remove(k) =~= t);
    assert(u[k] == e);
    assert(u.remove(k).to_multiset() =~= u.to_multiset().remove(u[k]));
    assert(u.to_multiset() =~= t.to_multiset().insert(e));
}

/// Sorting puts the items in the order of their keys and loses none.
pub proof fn law_sorted<A>(es: Seq<A>, key: spec_fn(A) -> int, n: nat)
    requires
        n <= es.len(),
    ensures
        in_order(sorted(es, key, n), key),
        sorted(es, key, n).len() == n,
        sorted(es, key, n).to_multiset() == es.subrange(0, n as int).to_multiset(),
    decreases n,
{
    broadcast use vstd::seq_lib::group_to_multiset_ensures;

    if n == 0 {
        assert(es.subrange(0, 0) =~= Seq::<A>::empty());
    } else {
        let m = (n - 1) as nat;
        law_sorted(es, key, m);
        let t = sorted(es, key, m);
        let e = es[n - 1];
        let k = slot(t, key, key(e), t.len() as int);
        lemma_slot(t, key, key(e), t.len() as int);
        let u = t.insert(k, e);
        assert forall|i: int, j: int| 0 <= i <= j < u.len() implies key(u[i]) <= key(u[j]) by {
            if i < k {
                assert(u[i] == t[i]);
                assert(key(t[i]) <= key(t[k - 1]));
            }
            if j > k {
                assert(u[j] == t[j - 1]);
            }
            if j < k {
                assert(u[j] == t[j]);
            }
            if i > k {
                assert(u[i] == t[i - 1]);
            }
        }
        assert(es.subrange(0, n as int) =~= es.subrange(0, m as int).push(e));
        lemma_insert_multiset(t, k, e);
    }
}

/// What sorting gives out went in.
pub proof fn law_sorted_has<A>(es: Seq<A>, key: spec_fn(A) -> int)
    ensures
        forall|k: int|
            0 <= k < sorted(es, key, es.len()).len() ==> es.contains(
                #[trigger] sorted(es, key, es.len())[k],
            ),
{
    broadcast use vstd::seq_lib::group_to_multiset_ensures;

    law_sorted(es, key, es.len());
    assert(es.subrange(0, es.len() as int) =~= es);
    let out = sorted(es, key, es.len());
    assert forall|k: int| 0 <= k < out.len() implies es.contains(#[trigger] out[k]) by {
        assert(out.contains(out[k]));
        assert(out.to_multiset().count(out[k]) > 0);
    }
}

/// At most one item is such.
pub open spec fn at_most_one<A>(es: Seq<A>, p: spec_fn(A) -> bool) -> bool {
    forall|i: int, j: int| 0 <= i < j < es.len() ==> !(p(#[trigger] es[i]) && p(#[trigger] es[j]))
}

/// Where at most one of the first `n` items is such, at most one is when they are sorted.
pub proof fn lemma_sorted_one<A>(es: Seq<A>, key: spec_fn(A) -> int, p: spec_fn(A) -> bool, n: nat)
    requires
        n <= es.len(),
        at_most_one(es, p),
    ensures
        at_most_one(sorted(es, key, n), p),
        (forall|i: int| 0 <= i < n ==> !p(#[trigger] es[i])) ==> forall|i: int|
            0 <= i < sorted(es, key, n).len() ==> !p(#[trigger] sorted(es, key, n)[i]),
    decreases n,
{
    if n > 0 {
        let m = (n - 1) as nat;
        let e = es[n - 1];
        let t = sorted(es, key, m);
        let at = slot(t, key, key(e), t.len() as int);
        let u = t.insert(at, e);
        lemma_sorted_one(es, key, p, m);
        lemma_slot(t, key, key(e), t.len() as int);
        if p(e) {
            assert forall|i: int| 0 <= i < m implies !p(#[trigger] es[i]) by {
                assert(!(p(es[i]) && p(es[n - 1])));
            }
        }
        assert forall|i: int, j: int| 0 <= i < j < u.len() implies !(p(#[trigger] u[i]) && p(
            #[trigger] u[j],
        )) by {
            if i < at {
                assert(u[i] == t[i]);
            } else if i > at {
                assert(u[i] == t[i - 1]);
            }
            if j < at {
                assert(u[j] == t[j]);
            } else if j > at {
                assert(u[j] == t[j - 1]);
            }
        }
        if forall|i: int| 0 <= i < n ==> !p(#[trigger] es[i]) {
            assert forall|i: int| 0 <= i < u.len() implies !p(#[trigger] u[i]) by {
                if i < at {
                    assert(u[i] == t[i]);
                } else if i > at {
                    assert(u[i] == t[i - 1]);
                }
            }
        }
    }
}

/// The items with key `k`, in order.
pub open spec fn with_key<A>(es: Seq<A>, key: spec_fn(A) -> int, k: int) -> Seq<A> {
    es.filter(|a: A| key(a) == k)
}

pub proof fn lemma_with_key_add<A>(a: Seq<A>, b: Seq<A>, key: spec_fn(A) -> int, k: int)
    ensures
        with_key(a + b, key, k) == with_key(a, key, k) + with_key(b, key, k),
{
    Seq::filter_distributes_over_add(a, b, |x: A| key(x) == k);
}

proof fn lemma_with_key_none<A>(a: Seq<A>, key: spec_fn(A) -> int, k: int)
    requires
        forall|i: int| 0 <= i < a.len() ==> key(#[trigger] a[i]) != k,
    ensures
        with_key(a, key, k) == Seq::<A>::empty(),
    decreases a.len(),
{
    reveal(Seq::filter);
    if a.len() > 0 {
        assert(key(a[a.len() - 1]) != k);
        lemma_with_key_none(a.drop_last(), key, k);
    }
}

pub proof fn lemma_with_key_one<A>(e: A, key: spec_fn(A) -> int)
    ensures
        with_key(seq![e], key, key(e)) == seq![e],
{
    reveal_with_fuel(Seq::filter, 2);
    assert(seq![e].drop_last() =~= Seq::<A>::empty());
    assert(with_key(seq![e], key, key(e)) =~= seq![e]);
}

/// Items with the same key come out in the order in which they went in.
pub proof fn law_sorted_stable<A>(es: Seq<A>, key: spec_fn(A) -> int, n: nat, k: int)
    requires
        n <= es.len(),
    ensures
        with_key(sorted(es, key, n), key, k) == with_key(es.subrange(0, n as int), key, k),
    decreases n,
{
    if n == 0 {
        assert(es.subrange(0, 0) =~= Seq::<A>::empty());
    } else {
        let m = (n - 1) as nat;
        law_sorted(es, key, m);
        law_sorted_stable(es, key, m, k);
        let t = sorted(es, key, m);
        let e = es[n - 1];
        let one = seq![e];
        let at = slot(t, key, key(e), t.len() as int);
        lemma_slot(t, key, key(e), t.len() as int);
        let lo = t.subrange(0, at);
        let hi = t.subrange(at, t.len() as int);
        assert(t.insert(at, e) =~= lo + one + hi);
        assert(t =~= lo + hi);
        assert(es.subrange(0, n as int) =~= es.subrange(0, m as int) + one);
        lemma_with_key_add(lo + one, hi, key, k);
        lemma_with_key_add(lo, one, key, k);
        lemma_with_key_add(lo, hi, key, k);
        lemma_with_key_add(es.subrange(0, m as int), one, key, k);
        if key(e) == k {
            lemma_with_key_none(hi, key, k);
            assert(with_key(sorted(es, key, n), key, k) =~= with_key(t, key, k) + with_key(
                one,
                key,
                k,
            ));
        } else {
            lemma_with_key_none(one, key, k);
            assert(with_key(sorted(es, key, n), key, k) =~= with_key(t, key, k));
            assert(with_key(es.subrange(0, n as int), key, k) =~= with_key(
                es.subrange(0, m as int),
                key,
                k,
            ));
        }
    }
}

} // verus!
