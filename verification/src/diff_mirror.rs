//! Differences read backwards.

use vstd::prelude::*;

use crate::diff::{
    array_differences, differences, entry, key_spot, keys_of, part_of, table_differences, unquoted,
    with_key, with_keys, DeltaView,
};
use crate::text::{dec, lemma_rank_chain, lemma_rank_flip, lemma_rank_same, rank, Rank};
use crate::value::{shown, Datum, DatumKind, Pair};

verus! {

/// A difference seen from the other value.
pub open spec fn mirrored(d: DeltaView) -> DeltaView {
    match d {
        DeltaView::Added { path, value } => DeltaView::Removed { path, value },
        DeltaView::Removed { path, value } => DeltaView::Added { path, value },
        DeltaView::Changed { path, from, to } => DeltaView::Changed { path, from: to, to: from },
    }
}

/// Differences seen from the other value, in the same order.
pub open spec fn all_mirrored(ds: Seq<DeltaView>) -> Seq<DeltaView> {
    Seq::new(ds.len(), |i: int| mirrored(ds[i]))
}

proof fn lemma_mirrored_add(a: Seq<DeltaView>, b: Seq<DeltaView>)
    ensures
        all_mirrored(a + b) == all_mirrored(a) + all_mirrored(b),
{
    assert(all_mirrored(a + b) =~= all_mirrored(a) + all_mirrored(b));
}

// ---------- The keys ----------

/// The keys are in order, each once.
pub open spec fn ascending(keys: Seq<Seq<char>>) -> bool {
    forall|i: int, j: int|
        0 <= i < j < keys.len() ==> rank(#[trigger] keys[i], #[trigger] keys[j]) == Rank::Before
}

proof fn lemma_key_spot(keys: Seq<Seq<char>>, k: Seq<char>, i: int)
    requires
        0 <= i <= keys.len(),
    ensures
        i <= key_spot(keys, k, i) <= keys.len(),
        forall|x: int|
            i <= x < key_spot(keys, k, i) ==> rank(#[trigger] keys[x], k) == Rank::Before,
        key_spot(keys, k, i) < keys.len() ==> rank(keys[key_spot(keys, k, i)], k) != Rank::Before,
    decreases keys.len() - i,
{
    if i < keys.len() && rank(keys[i], k) == Rank::Before {
        lemma_key_spot(keys, k, i + 1);
    }
}

proof fn lemma_with_key(keys: Seq<Seq<char>>, k: Seq<char>)
    requires
        ascending(keys),
    ensures
        ascending(with_key(keys, k)),
        forall|x: Seq<char>|
            #[trigger] with_key(keys, k).contains(x) <==> keys.contains(x) || x == k,
{
    lemma_key_spot(keys, k, 0);
    let at = key_spot(keys, k, 0);
    let out = with_key(keys, k);
    if at < keys.len() && keys[at] == k {
        assert(keys.contains(k));
    } else {
        if at < keys.len() {
            lemma_rank_same(keys[at], k);
            lemma_rank_flip(keys[at], k);
        }
        assert forall|i: int, j: int| 0 <= i < j < out.len() implies rank(
            #[trigger] out[i],
            #[trigger] out[j],
        ) == Rank::Before by {
            if j < at {
                assert(out[i] == keys[i] && out[j] == keys[j]);
            } else if j == at {
                assert(out[i] == keys[i]);
            } else if i < at {
                assert(out[i] == keys[i] && out[j] == keys[j - 1]);
            } else if i == at {
                assert(out[j] == keys[j - 1]);
                if j - 1 > at {
                    assert(rank(keys[at], keys[j - 1]) == Rank::Before);
                    lemma_rank_chain(k, keys[at], keys[j - 1]);
                }
            } else {
                assert(out[i] == keys[i - 1] && out[j] == keys[j - 1]);
            }
        }
        assert forall|x: Seq<char>| #[trigger] out.contains(x) <==> keys.contains(x) || x == k by {
            if keys.contains(x) {
                let i = choose|i: int| 0 <= i < keys.len() && keys[i] == x;
                assert(out[if i < at {
                    i
                } else {
                    i + 1
                }] == x);
            }
            if x == k {
                assert(out[at] == x);
            }
            if out.contains(x) {
                let i = choose|i: int| 0 <= i < out.len() && out[i] == x;
                if i < at {
                    assert(keys[i] == x);
                } else if i > at {
                    assert(keys[i - 1] == x);
                }
            }
        }
    }
}

/// One of the first `n` entries has the key `k` as text.
spec fn has_key(pairs: Seq<Pair>, n: nat, k: Seq<char>) -> bool {
    exists|i: int| 0 <= i < n && shown((#[trigger] pairs[i]).key, 8) == k
}

proof fn lemma_with_keys(keys: Seq<Seq<char>>, pairs: Seq<Pair>, n: nat)
    requires
        ascending(keys),
        n <= pairs.len(),
    ensures
        ascending(with_keys(keys, pairs, n)),
        forall|x: Seq<char>|
            #[trigger] with_keys(keys, pairs, n).contains(x) <==> keys.contains(x) || has_key(
                pairs,
                n,
                x,
            ),
    decreases n,
{
    if n > 0 {
        let m = (n - 1) as nat;
        lemma_with_keys(keys, pairs, m);
        let before = with_keys(keys, pairs, m);
        let k = shown(pairs[n - 1].key, 8);
        lemma_with_key(before, k);
        let out = with_keys(keys, pairs, n);
        assert forall|x: Seq<char>| #[trigger] out.contains(x) <==> keys.contains(x) || has_key(
            pairs,
            n,
            x,
        ) by {
            assert(out.contains(x) <==> before.contains(x) || x == k);
            if has_key(pairs, m, x) {
                let i = choose|i: int| 0 <= i < m && shown((#[trigger] pairs[i]).key, 8) == x;
                assert(shown(pairs[i].key, 8) == x);
            }
            if has_key(pairs, n, x) && x != k {
                let i = choose|i: int| 0 <= i < n && shown((#[trigger] pairs[i]).key, 8) == x;
                assert(i < m);
            }
        }
    }
}

/// The keys of two maps are compared in order, each once, and no key of either is left out.
pub proof fn law_keys_come_once(a: Seq<Pair>, b: Seq<Pair>)
    ensures
        ascending(keys_of(a, b)),
        forall|i: int|
            0 <= i < a.len() ==> keys_of(a, b).contains(shown((#[trigger] a[i]).key, 8)),
        forall|i: int|
            0 <= i < b.len() ==> keys_of(a, b).contains(shown((#[trigger] b[i]).key, 8)),
{
    let none = Seq::<Seq<char>>::empty();
    lemma_with_keys(none, a, a.len());
    lemma_with_keys(with_keys(none, a, a.len()), b, b.len());
    assert forall|i: int| 0 <= i < a.len() implies keys_of(a, b).contains(
        shown((#[trigger] a[i]).key, 8),
    ) by {
        assert(has_key(a, a.len(), shown(a[i].key, 8)));
    }
    assert forall|i: int| 0 <= i < b.len() implies keys_of(a, b).contains(
        shown((#[trigger] b[i]).key, 8),
    ) by {
        assert(has_key(b, b.len(), shown(b[i].key, 8)));
    }
}

/// Two sequences in order with the same keys are the same.
proof fn lemma_same_keys(x: Seq<Seq<char>>, y: Seq<Seq<char>>)
    requires
        ascending(x),
        ascending(y),
        forall|k: Seq<char>| #[trigger] x.contains(k) <==> y.contains(k),
    ensures
        x == y,
    decreases x.len(),
{
    if x.len() == 0 {
        if y.len() > 0 {
            assert(y.contains(y[0]));
            assert(x.contains(y[0]));
        }
        assert(x =~= y);
    } else {
        let a = x[x.len() - 1];
        assert(x.contains(a));
        assert(y.contains(a));
        assert(y.len() > 0);
        let b = y[y.len() - 1];
        assert(y.contains(b));
        assert(x.contains(b));
        assert(a == b) by {
            let i = choose|i: int| 0 <= i < y.len() && y[i] == a;
            let j = choose|j: int| 0 <= j < x.len() && x[j] == b;
            if i < y.len() - 1 && j < x.len() - 1 {
                assert(rank(a, b) == Rank::Before);
                assert(rank(b, a) == Rank::Before);
                lemma_rank_flip(a, b);
            }
        }
        let p = x.drop_last();
        let q = y.drop_last();
        assert forall|k: Seq<char>| #[trigger] p.contains(k) <==> q.contains(k) by {
            lemma_without_last(x, k);
            lemma_without_last(y, k);
        }
        assert forall|i: int, j: int| 0 <= i < j < p.len() implies rank(
            #[trigger] p[i],
            #[trigger] p[j],
        ) == Rank::Before by {
            assert(p[i] == x[i] && p[j] == x[j]);
        }
        assert forall|i: int, j: int| 0 <= i < j < q.len() implies rank(
            #[trigger] q[i],
            #[trigger] q[j],
        ) == Rank::Before by {
            assert(q[i] == y[i] && q[j] == y[j]);
        }
        lemma_same_keys(p, q);
        assert(x =~= p.push(a));
        assert(y =~= q.push(b));
    }
}

proof fn lemma_without_last(x: Seq<Seq<char>>, k: Seq<char>)
    requires
        ascending(x),
        x.len() > 0,
    ensures
        x.drop_last().contains(k) <==> x.contains(k) && k != x[x.len() - 1],
{
    let p = x.drop_last();
    if p.contains(k) {
        let i = choose|i: int| 0 <= i < p.len() && p[i] == k;
        assert(x[i] == k);
        assert(rank(x[i], x[x.len() - 1]) == Rank::Before);
        lemma_rank_same(x[i], x[x.len() - 1]);
    }
    if x.contains(k) && k != x[x.len() - 1] {
        let i = choose|i: int| 0 <= i < x.len() && x[i] == k;
        assert(p[i] == k);
    }
}

proof fn lemma_keys_either_way(a: Seq<Pair>, b: Seq<Pair>)
    ensures
        keys_of(a, b) == keys_of(b, a),
{
    let none = Seq::<Seq<char>>::empty();
    lemma_with_keys(none, a, a.len());
    lemma_with_keys(with_keys(none, a, a.len()), b, b.len());
    lemma_with_keys(none, b, b.len());
    lemma_with_keys(with_keys(none, b, b.len()), a, a.len());
    assert forall|k: Seq<char>| #[trigger] keys_of(a, b).contains(k) <==> keys_of(b, a).contains(
        k,
    ) by {
        assert(with_keys(none, a, a.len()).contains(k) <==> has_key(a, a.len(), k));
        assert(with_keys(none, b, b.len()).contains(k) <==> has_key(b, b.len(), k));
    }
    lemma_same_keys(keys_of(a, b), keys_of(b, a));
}

proof fn lemma_entry_in(x: Seq<Pair>, k: Seq<char>, n: nat)
    requires
        n <= x.len(),
    ensures
        entry(x, k, n) matches Some(i) ==> 0 <= i < n,
    decreases n,
{
    if n > 0 {
        lemma_entry_in(x, k, (n - 1) as nat);
    }
}

// ---------- The differences ----------

/// The differences from the second value to the first are those from the first to the second,
/// with what was added removed, what was removed added, and each change turned round.
pub proof fn law_differences_mirror(path: Seq<char>, a: Datum, b: Datum)
    ensures
        differences(path, b, a) == all_mirrored(differences(path, a, b)),
    decreases a, 0nat,
{
    match (a.kind, b.kind) {
        (DatumKind::Table(x), DatumKind::Table(y)) => {
            lemma_keys_either_way(x@, y@);
            let keys = keys_of(x@, y@);
            lemma_tables_mirror(path, x@, y@, keys, keys.len());
        },
        (DatumKind::Array(x), DatumKind::Array(y)) => {
            let n = if x@.len() >= y@.len() {
                x@.len()
            } else {
                y@.len()
            };
            lemma_arrays_mirror(path, x@, y@, n);
        },
        _ => {
            assert(differences(path, b, a) =~= all_mirrored(differences(path, a, b)));
        },
    }
}

proof fn lemma_tables_mirror(
    path: Seq<char>,
    x: Seq<Pair>,
    y: Seq<Pair>,
    keys: Seq<Seq<char>>,
    n: nat,
)
    ensures
        table_differences(path, y, x, keys, n) == all_mirrored(
            table_differences(path, x, y, keys, n),
        ),
    decreases x, n,
{
    let there = table_differences(path, x, y, keys, n);
    let back = table_differences(path, y, x, keys, n);
    if n == 0 || n > keys.len() {
        assert(back =~= all_mirrored(there));
    } else {
        let m = (n - 1) as nat;
        let k = keys[n - 1];
        let child = part_of(path, unquoted(k));
        lemma_tables_mirror(path, x, y, keys, m);
        lemma_entry_in(x, k, x.len());
        lemma_entry_in(y, k, y.len());
        let done = table_differences(path, x, y, keys, m);
        match (entry(x, k, x.len()), entry(y, k, y.len())) {
            (Some(i), Some(j)) => {
                law_differences_mirror(child, x[i].value, y[j].value);
                lemma_mirrored_add(done, differences(child, x[i].value, y[j].value));
            },
            (Some(i), None) => {
                let one = seq![DeltaView::Removed { path: child, value: shown(x[i].value, 8) }];
                lemma_mirrored_add(done, one);
                assert(back =~= all_mirrored(done) + all_mirrored(one));
            },
            (None, Some(j)) => {
                let one = seq![DeltaView::Added { path: child, value: shown(y[j].value, 8) }];
                lemma_mirrored_add(done, one);
                assert(back =~= all_mirrored(done) + all_mirrored(one));
            },
            (None, None) => {
                assert(back =~= all_mirrored(there));
            },
        }
    }
}

proof fn lemma_arrays_mirror(path: Seq<char>, x: Seq<Datum>, y: Seq<Datum>, n: nat)
    ensures
        array_differences(path, y, x, n) == all_mirrored(array_differences(path, x, y, n)),
    decreases x, n,
{
    let there = array_differences(path, x, y, n);
    let back = array_differences(path, y, x, n);
    if n == 0 {
        assert(back =~= all_mirrored(there));
    } else {
        let m = (n - 1) as nat;
        let i = n - 1;
        let child = part_of(path, dec(m));
        lemma_arrays_mirror(path, x, y, m);
        let done = array_differences(path, x, y, m);
        if i < x.len() && i < y.len() {
            law_differences_mirror(child, x[i], y[i]);
            lemma_mirrored_add(done, differences(child, x[i], y[i]));
        } else if i < x.len() {
            let one = seq![DeltaView::Removed { path: child, value: shown(x[i], 8) }];
            lemma_mirrored_add(done, one);
            assert(back =~= all_mirrored(done) + all_mirrored(one));
        } else if i < y.len() {
            let one = seq![DeltaView::Added { path: child, value: shown(y[i], 8) }];
            lemma_mirrored_add(done, one);
            assert(back =~= all_mirrored(done) + all_mirrored(one));
        } else {
            assert(back =~= all_mirrored(there));
        }
    }
}

} // verus!
