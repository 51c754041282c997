//! What the differences between two values tell of the values.

use vstd::prelude::*;

use crate::diff::{
    array_differences, differences, entry, keys_of, table_differences, unquoted, DeltaView,
};
use crate::diff_mirror::law_keys_come_once;
use crate::text::{dec, hex, joined};
use crate::value::{shown, shown_items, shown_pair, shown_pairs, Datum, DatumKind, Pair};

verus! {

// ---------- Values that are not both maps or both arrays ----------

/// Two values that are neither both maps nor both arrays differ where their encodings do, and only
/// there, whatever their kinds. They then differ as a whole: the one text became the other.
pub proof fn law_unlike_values_changed(path: Seq<char>, a: Datum, b: Datum)
    requires
        !(a.kind is Table && b.kind is Table),
        !(a.kind is Array && b.kind is Array),
    ensures
        a.encoded is None || b.encoded is None || a.encoded->0@ != b.encoded->0@ ==> differences(
            path,
            a,
            b,
        ) == seq![
            DeltaView::Changed {
                path: if path.len() == 0 {
                    "/"@
                } else {
                    path
                },
                from: shown(a, 8),
                to: shown(b, 8),
            },
        ],
        a.encoded is Some && b.encoded is Some && a.encoded->0@ == b.encoded->0@ ==> differences(
            path,
            a,
            b,
        ).len() == 0,
{
}

// ---------- Maps ----------

/// No later entry of the map has the key of entry `i`, as text.
pub open spec fn is_last(x: Seq<Pair>, i: int) -> bool {
    0 <= i < x.len() && forall|k: int|
        i < k < x.len() ==> shown((#[trigger] x[k]).key, 8) != shown(x[i].key, 8)
}

proof fn lemma_entry_is_last(x: Seq<Pair>, i: int, n: nat)
    requires
        is_last(x, i),
        i < n <= x.len(),
    ensures
        entry(x, shown(x[i].key, 8), n) == Some(i),
    decreases n,
{
    if i < n - 1 {
        assert(shown(x[n - 1].key, 8) != shown(x[i].key, 8));
        lemma_entry_is_last(x, i, (n - 1) as nat);
    }
}

proof fn lemma_entry_found(x: Seq<Pair>, k: Seq<char>, n: nat)
    requires
        n <= x.len(),
    ensures
        match entry(x, k, n) {
            Some(i) => 0 <= i < n && shown(x[i].key, 8) == k && forall|j: int|
                i < j < n ==> shown((#[trigger] x[j]).key, 8) != k,
            None => forall|j: int| 0 <= j < n ==> shown((#[trigger] x[j]).key, 8) != k,
        },
    decreases n,
{
    if n > 0 && shown(x[n - 1].key, 8) != k {
        lemma_entry_found(x, k, (n - 1) as nat);
    }
}

/// What two maps have under one key.
spec fn key_differences(path: Seq<char>, x: Seq<Pair>, y: Seq<Pair>, k: Seq<char>) -> Seq<
    DeltaView,
> {
    let child = path + "/"@ + unquoted(k);
    match (entry(x, k, x.len()), entry(y, k, y.len())) {
        (Some(i), Some(j)) => differences(child, x[i].value, y[j].value),
        (Some(i), None) => seq![DeltaView::Removed { path: child, value: shown(x[i].value, 8) }],
        (None, Some(j)) => seq![DeltaView::Added { path: child, value: shown(y[j].value, 8) }],
        (None, None) => Seq::empty(),
    }
}

proof fn lemma_table_step(
    path: Seq<char>,
    x: Seq<Pair>,
    y: Seq<Pair>,
    keys: Seq<Seq<char>>,
    n: nat,
)
    requires
        0 < n <= keys.len(),
    ensures
        table_differences(path, x, y, keys, n) == table_differences(
            path,
            x,
            y,
            keys,
            (n - 1) as nat,
        ) + key_differences(path, x, y, keys[n - 1]),
{
    lemma_entry_found(x, keys[n - 1], x.len());
}

proof fn lemma_table_has(
    path: Seq<char>,
    x: Seq<Pair>,
    y: Seq<Pair>,
    keys: Seq<Seq<char>>,
    n: nat,
    m: int,
    d: DeltaView,
)
    requires
        0 <= m < n <= keys.len(),
        key_differences(path, x, y, keys[m]).contains(d),
    ensures
        table_differences(path, x, y, keys, n).contains(d),
    decreases n,
{
    lemma_table_step(path, x, y, keys, n);
    let before = table_differences(path, x, y, keys, (n - 1) as nat);
    let own = key_differences(path, x, y, keys[n - 1]);
    if m < n - 1 {
        lemma_table_has(path, x, y, keys, (n - 1) as nat, m, d);
        let i = choose|i: int| 0 <= i < before.len() && before[i] == d;
        assert((before + own)[i] == d);
    } else {
        let i = choose|i: int| 0 <= i < own.len() && own[i] == d;
        assert((before + own)[before.len() + i] == d);
    }
}

proof fn lemma_table_only(
    path: Seq<char>,
    x: Seq<Pair>,
    y: Seq<Pair>,
    keys: Seq<Seq<char>>,
    n: nat,
    d: DeltaView,
) -> (m: int)
    requires
        n <= keys.len(),
        table_differences(path, x, y, keys, n).contains(d),
    ensures
        0 <= m < n,
        key_differences(path, x, y, keys[m]).contains(d),
    decreases n,
{
    lemma_table_step(path, x, y, keys, n);
    let before = table_differences(path, x, y, keys, (n - 1) as nat);
    let own = key_differences(path, x, y, keys[n - 1]);
    let i = choose|i: int| 0 <= i < (before + own).len() && (before + own)[i] == d;
    if i < before.len() {
        assert(before[i] == d);
        lemma_table_only(path, x, y, keys, (n - 1) as nat, d)
    } else {
        assert(own[i - before.len()] == d);
        n - 1
    }
}

/// What two maps have under the same key is compared: whatever differs there is told of the maps,
/// below the key.
pub proof fn law_values_of_a_key_are_compared(
    path: Seq<char>,
    a: Datum,
    b: Datum,
    x: Vec<Pair>,
    y: Vec<Pair>,
    i: int,
    j: int,
    d: DeltaView,
)
    requires
        a.kind == DatumKind::Table(x),
        b.kind == DatumKind::Table(y),
        is_last(x@, i),
        is_last(y@, j),
        shown(x@[i].key, 8) == shown(y@[j].key, 8),
        differences(
            path + "/"@ + unquoted(shown(x@[i].key, 8)),
            x@[i].value,
            y@[j].value,
        ).contains(d),
    ensures
        differences(path, a, b).contains(d),
{
    let k = shown(x@[i].key, 8);
    let keys = keys_of(x@, y@);
    law_keys_come_once(x@, y@);
    lemma_entry_is_last(x@, i, x@.len());
    lemma_entry_is_last(y@, j, y@.len());
    assert(keys.contains(shown(x@[i].key, 8)));
    let m = choose|m: int| 0 <= m < keys.len() && keys[m] == k;
    lemma_table_has(path, x@, y@, keys, keys.len(), m, d);
}

/// What only the first map has a key for was removed.
pub proof fn law_missing_key_is_removed(
    path: Seq<char>,
    a: Datum,
    b: Datum,
    x: Vec<Pair>,
    y: Vec<Pair>,
    i: int,
)
    requires
        a.kind == DatumKind::Table(x),
        b.kind == DatumKind::Table(y),
        is_last(x@, i),
        forall|j: int| 0 <= j < y@.len() ==> shown((#[trigger] y@[j]).key, 8) != shown(x@[i].key, 8),
    ensures
        differences(path, a, b).contains(
            DeltaView::Removed {
                path: path + "/"@ + unquoted(shown(x@[i].key, 8)),
                value: shown(x@[i].value, 8),
            },
        ),
{
    let k = shown(x@[i].key, 8);
    let keys = keys_of(x@, y@);
    law_keys_come_once(x@, y@);
    lemma_entry_is_last(x@, i, x@.len());
    lemma_entry_found(y@, k, y@.len());
    assert(keys.contains(shown(x@[i].key, 8)));
    let m = choose|m: int| 0 <= m < keys.len() && keys[m] == k;
    let own = key_differences(path, x@, y@, k);
    assert(own[0] == own[0]);
    lemma_table_has(path, x@, y@, keys, keys.len(), m, own[0]);
}

/// What only the second map has a key for was added.
pub proof fn law_new_key_is_added(
    path: Seq<char>,
    a: Datum,
    b: Datum,
    x: Vec<Pair>,
    y: Vec<Pair>,
    j: int,
)
    requires
        a.kind == DatumKind::Table(x),
        b.kind == DatumKind::Table(y),
        is_last(y@, j),
        forall|i: int| 0 <= i < x@.len() ==> shown((#[trigger] x@[i]).key, 8) != shown(y@[j].key, 8),
    ensures
        differences(path, a, b).contains(
            DeltaView::Added {
                path: path + "/"@ + unquoted(shown(y@[j].key, 8)),
                value: shown(y@[j].value, 8),
            },
        ),
{
    let k = shown(y@[j].key, 8);
    let keys = keys_of(x@, y@);
    law_keys_come_once(x@, y@);
    lemma_entry_is_last(y@, j, y@.len());
    lemma_entry_found(x@, k, x@.len());
    assert(keys.contains(shown(y@[j].key, 8)));
    let m = choose|m: int| 0 <= m < keys.len() && keys[m] == k;
    let own = key_differences(path, x@, y@, k);
    assert(own[0] == own[0]);
    lemma_table_has(path, x@, y@, keys, keys.len(), m, own[0]);
}

/// Where a difference of two maps comes from.
pub enum Origin {
    Both(int, int),
    OnlyFirst(int),
    OnlySecond(int),
}

/// Nothing else is told of two maps: each difference comes from a key that both have, or that only
/// one of them has.
pub proof fn law_map_differences_have_an_origin(
    path: Seq<char>,
    a: Datum,
    b: Datum,
    x: Vec<Pair>,
    y: Vec<Pair>,
    d: DeltaView,
) -> (o: Origin)
    requires
        a.kind == DatumKind::Table(x),
        b.kind == DatumKind::Table(y),
        differences(path, a, b).contains(d),
    ensures
        match o {
            Origin::Both(i, j) => is_last(x@, i) && is_last(y@, j) && shown(x@[i].key, 8) == shown(
                y@[j].key,
                8,
            ) && differences(
                path + "/"@ + unquoted(shown(x@[i].key, 8)),
                x@[i].value,
                y@[j].value,
            ).contains(d),
            Origin::OnlyFirst(i) => is_last(x@, i) && d == (DeltaView::Removed {
                path: path + "/"@ + unquoted(shown(x@[i].key, 8)),
                value: shown(x@[i].value, 8),
            }) && forall|j: int|
                0 <= j < y@.len() ==> shown((#[trigger] y@[j]).key, 8) != shown(x@[i].key, 8),
            Origin::OnlySecond(j) => is_last(y@, j) && d == (DeltaView::Added {
                path: path + "/"@ + unquoted(shown(y@[j].key, 8)),
                value: shown(y@[j].value, 8),
            }) && forall|i: int|
                0 <= i < x@.len() ==> shown((#[trigger] x@[i]).key, 8) != shown(y@[j].key, 8),
        },
{
    let keys = keys_of(x@, y@);
    let m = lemma_table_only(path, x@, y@, keys, keys.len(), d);
    let k = keys[m];
    lemma_entry_found(x@, k, x@.len());
    lemma_entry_found(y@, k, y@.len());
    match (entry(x@, k, x@.len()), entry(y@, k, y@.len())) {
        (Some(i), Some(j)) => Origin::Both(i, j),
        (Some(i), None) => Origin::OnlyFirst(i),
        (None, Some(j)) => Origin::OnlySecond(j),
        (None, None) => Origin::OnlyFirst(0),
    }
}

// ---------- Arrays ----------

spec fn item_differences(path: Seq<char>, x: Seq<Datum>, y: Seq<Datum>, i: int) -> Seq<DeltaView> {
    let child = path + "/"@ + dec(i as nat);
    if i < x.len() && i < y.len() {
        differences(child, x[i], y[i])
    } else if i < x.len() {
        seq![DeltaView::Removed { path: child, value: shown(x[i], 8) }]
    } else if i < y.len() {
        seq![DeltaView::Added { path: child, value: shown(y[i], 8) }]
    } else {
        Seq::empty()
    }
}

proof fn lemma_array_has(
    path: Seq<char>,
    x: Seq<Datum>,
    y: Seq<Datum>,
    n: nat,
    m: int,
    d: DeltaView,
)
    requires
        0 <= m < n,
        item_differences(path, x, y, m).contains(d),
    ensures
        array_differences(path, x, y, n).contains(d),
    decreases n,
{
    let before = array_differences(path, x, y, (n - 1) as nat);
    let own = item_differences(path, x, y, n - 1);
    assert(array_differences(path, x, y, n) == before + own);
    if m < n - 1 {
        lemma_array_has(path, x, y, (n - 1) as nat, m, d);
        let i = choose|i: int| 0 <= i < before.len() && before[i] == d;
        assert((before + own)[i] == d);
    } else {
        let i = choose|i: int| 0 <= i < own.len() && own[i] == d;
        assert((before + own)[before.len() + i] == d);
    }
}

proof fn lemma_array_only(
    path: Seq<char>,
    x: Seq<Datum>,
    y: Seq<Datum>,
    n: nat,
    d: DeltaView,
) -> (m: int)
    requires
        array_differences(path, x, y, n).contains(d),
    ensures
        0 <= m < n,
        item_differences(path, x, y, m).contains(d),
    decreases n,
{
    let before = array_differences(path, x, y, (n - 1) as nat);
    let own = item_differences(path, x, y, n - 1);
    assert(array_differences(path, x, y, n) == before + own);
    let i = choose|i: int| 0 <= i < (before + own).len() && (before + own)[i] == d;
    if i < before.len() {
        assert(before[i] == d);
        lemma_array_only(path, x, y, (n - 1) as nat, d)
    } else {
        assert(own[i - before.len()] == d);
        n - 1
    }
}

/// Arrays are compared item by item: what differs between two items is told of the arrays, below
/// the place of the items; an item that only one array has was removed or added there.
pub proof fn law_items_are_compared(
    path: Seq<char>,
    a: Datum,
    b: Datum,
    x: Vec<Datum>,
    y: Vec<Datum>,
    i: int,
    d: DeltaView,
)
    requires
        a.kind == DatumKind::Array(x),
        b.kind == DatumKind::Array(y),
        0 <= i,
        i < x@.len() || i < y@.len(),
        i < x@.len() && i < y@.len() ==> differences(
            path + "/"@ + dec(i as nat),
            x@[i],
            y@[i],
        ).contains(d),
        i >= y@.len() ==> d == (DeltaView::Removed {
            path: path + "/"@ + dec(i as nat),
            value: shown(x@[i], 8),
        }),
        i >= x@.len() ==> d == (DeltaView::Added {
            path: path + "/"@ + dec(i as nat),
            value: shown(y@[i], 8),
        }),
    ensures
        differences(path, a, b).contains(d),
{
    let own = item_differences(path, x@, y@, i);
    if i >= y@.len() || i >= x@.len() {
        assert(own[0] == d);
    }
    lemma_array_has(
        path,
        x@,
        y@,
        if x@.len() >= y@.len() {
            x@.len()
        } else {
            y@.len()
        },
        i,
        d,
    );
}

/// Nothing else is told of two arrays.
pub proof fn law_array_differences_have_an_origin(
    path: Seq<char>,
    a: Datum,
    b: Datum,
    x: Vec<Datum>,
    y: Vec<Datum>,
    d: DeltaView,
) -> (i: int)
    requires
        a.kind == DatumKind::Array(x),
        b.kind == DatumKind::Array(y),
        differences(path, a, b).contains(d),
    ensures
        0 <= i,
        i < x@.len() || i < y@.len(),
        i < x@.len() && i < y@.len() ==> differences(
            path + "/"@ + dec(i as nat),
            x@[i],
            y@[i],
        ).contains(d),
        i >= y@.len() ==> d == (DeltaView::Removed {
            path: path + "/"@ + dec(i as nat),
            value: shown(x@[i], 8),
        }),
        i >= x@.len() ==> d == (DeltaView::Added {
            path: path + "/"@ + dec(i as nat),
            value: shown(y@[i], 8),
        }),
{
    lemma_array_only(
        path,
        x@,
        y@,
        if x@.len() >= y@.len() {
            x@.len()
        } else {
            y@.len()
        },
        d,
    )
}

// ---------- Equal values ----------

/// The values are equal part by part: maps have the same keys with equal values, arrays are as
/// long and have equal items, and all else has the same encoding.
pub open spec fn equal_parts(a: Datum, b: Datum) -> bool
    decreases a,
{
    match (a.kind, b.kind) {
        (DatumKind::Table(x), DatumKind::Table(y)) => {
            &&& forall|i: int|
                0 <= i < x@.len() && #[trigger] is_last(x@, i) ==> exists|j: int|
                    #[trigger] is_last(y@, j) && shown(x@[i].key, 8) == shown(y@[j].key, 8)
                        && equal_parts(x@[i].value, y@[j].value)
            &&& forall|j: int|
                #[trigger] is_last(y@, j) ==> exists|i: int|
                    #[trigger] is_last(x@, i) && shown(x@[i].key, 8) == shown(y@[j].key, 8)
        },
        (DatumKind::Array(x), DatumKind::Array(y)) => {
            x@.len() == y@.len() && forall|i: int|
                0 <= i < x@.len() ==> equal_parts(#[trigger] x@[i], y@[i])
        },
        _ => a.encoded is Some && b.encoded is Some && a.encoded->0@ == b.encoded->0@,
    }
}

/// Where nothing differs, the values are equal part by part.
pub proof fn law_no_difference_means_equal(path: Seq<char>, a: Datum, b: Datum)
    requires
        differences(path, a, b).len() == 0,
    ensures
        equal_parts(a, b),
    decreases a,
{
    match (a.kind, b.kind) {
        (DatumKind::Table(x), DatumKind::Table(y)) => {
            assert forall|i: int| 0 <= i < x@.len() && #[trigger] is_last(x@, i) implies exists|
                j: int,
            |
                #[trigger] is_last(y@, j) && shown(x@[i].key, 8) == shown(y@[j].key, 8)
                    && equal_parts(x@[i].value, y@[j].value) by {
                let k = shown(x@[i].key, 8);
                lemma_entry_found(y@, k, y@.len());
                match entry(y@, k, y@.len()) {
                    Some(j) => {
                        let child = path + "/"@ + unquoted(k);
                        let ds = differences(child, x@[i].value, y@[j].value);
                        assert(is_last(y@, j));
                        if ds.len() > 0 {
                            assert(ds.contains(ds[0]));
                            law_values_of_a_key_are_compared(path, a, b, x, y, i, j, ds[0]);
                        }
                        law_no_difference_means_equal(child, x@[i].value, y@[j].value);
                    },
                    None => {
                        law_missing_key_is_removed(path, a, b, x, y, i);
                    },
                }
            }
            assert forall|j: int| #[trigger] is_last(y@, j) implies exists|i: int|
                #[trigger] is_last(x@, i) && shown(x@[i].key, 8) == shown(y@[j].key, 8) by {
                let k = shown(y@[j].key, 8);
                lemma_entry_found(x@, k, x@.len());
                match entry(x@, k, x@.len()) {
                    Some(i) => {
                        assert(is_last(x@, i));
                    },
                    None => {
                        law_new_key_is_added(path, a, b, x, y, j);
                    },
                }
            }
        },
        (DatumKind::Array(x), DatumKind::Array(y)) => {
            if x@.len() > y@.len() {
                let i = y@.len() as int;
                law_items_are_compared(
                    path,
                    a,
                    b,
                    x,
                    y,
                    i,
                    DeltaView::Removed {
                        path: path + "/"@ + dec(i as nat),
                        value: shown(x@[i], 8),
                    },
                );
            } else if x@.len() < y@.len() {
                let i = x@.len() as int;
                law_items_are_compared(
                    path,
                    a,
                    b,
                    x,
                    y,
                    i,
                    DeltaView::Added { path: path + "/"@ + dec(i as nat), value: shown(y@[i], 8) },
                );
            }
            assert forall|i: int| 0 <= i < x@.len() implies equal_parts(
                #[trigger] x@[i],
                y@[i],
            ) by {
                let child = path + "/"@ + dec(i as nat);
                let ds = differences(child, x@[i], y@[i]);
                if ds.len() > 0 {
                    assert(ds.contains(ds[0]));
                    law_items_are_compared(path, a, b, x, y, i, ds[0]);
                }
                law_no_difference_means_equal(child, x@[i], y@[i]);
            }
        },
        _ => {
            law_unlike_values_changed(path, a, b);
        },
    }
}

/// Values that are equal part by part do not differ.
pub proof fn law_equal_values_do_not_differ(path: Seq<char>, a: Datum, b: Datum)
    requires
        equal_parts(a, b),
    ensures
        differences(path, a, b).len() == 0,
    decreases a,
{
    let ds = differences(path, a, b);
    if ds.len() > 0 {
        let d = ds[0];
        assert(ds.contains(d));
        match (a.kind, b.kind) {
            (DatumKind::Table(x), DatumKind::Table(y)) => {
                match law_map_differences_have_an_origin(path, a, b, x, y, d) {
                    Origin::Both(i, j) => {
                        let z = choose|z: int|
                            #[trigger] is_last(y@, z) && shown(x@[i].key, 8) == shown(y@[z].key, 8)
                                && equal_parts(x@[i].value, y@[z].value);
                        assert(z == j) by {
                            if z < j {
                                assert(shown(y@[j].key, 8) != shown(y@[z].key, 8));
                            } else if j < z {
                                assert(shown(y@[z].key, 8) != shown(y@[j].key, 8));
                            }
                        }
                        law_equal_values_do_not_differ(
                            path + "/"@ + unquoted(shown(x@[i].key, 8)),
                            x@[i].value,
                            y@[j].value,
                        );
                    },
                    Origin::OnlyFirst(i) => {
                        assert(is_last(x@, i));
                    },
                    Origin::OnlySecond(j) => {
                        assert(is_last(y@, j));
                    },
                }
            },
            (DatumKind::Array(x), DatumKind::Array(y)) => {
                let i = law_array_differences_have_an_origin(path, a, b, x, y, d);
                law_equal_values_do_not_differ(path + "/"@ + dec(i as nat), x@[i], y@[i]);
            },
            _ => {
                law_unlike_values_changed(path, a, b);
            },
        }
    }
}

// ---------- Values as text ----------

/// The text of a value that holds no others, and of one with a tag.
pub proof fn law_text_of_plain_values(v: Datum, cap: nat)
    ensures
        v.kind matches DatumKind::Bool(b) ==> shown(v, cap) == if b {
            "true"@
        } else {
            "false"@
        },
        v.kind is Null ==> shown(v, cap) == "null"@,
        v.kind matches DatumKind::Text(t) ==> shown(v, cap) == seq!['"'] + t@ + seq!['"'],
        v.kind matches DatumKind::Text(t) ==> unquoted(shown(v, cap)) == t@,
        v.kind matches DatumKind::Float(t) ==> shown(v, cap) == t@,
        v.kind matches DatumKind::Integer(n) ==> shown(v, cap) == if n < 0 {
            seq!['-'] + dec((-n) as nat)
        } else {
            dec(n as nat)
        },
        v.kind matches DatumKind::Tagged(inner) ==> shown(v, cap) == shown(*inner, cap),
{
    reveal_strlit("\"");
    reveal_strlit("-");
    assert("\""@ =~= seq!['"']);
    assert("-"@ =~= seq!['-']);
    if let DatumKind::Text(t) = v.kind {
        assert(unquoted(shown(v, cap)) =~= t@);
    }
}

proof fn lemma_items_joined(x: Seq<Datum>, n: nat, cap: nat)
    requires
        n <= x.len(),
    ensures
        shown_items(x, n, cap) == joined(
            Seq::new(x.len(), |i: int| shown(x[i], cap)),
            ", "@,
            n,
        ),
    decreases n,
{
    if n > 1 {
        lemma_items_joined(x, (n - 1) as nat, cap);
    }
}

proof fn lemma_pairs_joined(x: Seq<Pair>, n: nat, cap: nat)
    requires
        n <= x.len(),
    ensures
        shown_pairs(x, n, cap) == joined(
            Seq::new(
                x.len(),
                |i: int| shown(x[i].key, cap) + ": "@ + shown(x[i].value, cap),
            ),
            ", "@,
            n,
        ),
    decreases n,
{
    if n > 0 {
        let p = x[n - 1];
        assert(shown_pair(p, cap) == shown(p.key, cap) + ": "@ + shown(p.value, cap));
        lemma_pairs_joined(x, (n - 1) as nat, cap);
    }
}

/// The text of an array holds the texts of its items in order, and that of a map those of its keys
/// and values, with the punctuation between them.
pub proof fn law_text_of_containers(v: Datum, cap: nat)
    ensures
        v.kind matches DatumKind::Array(x) ==> shown(v, cap) == seq!['['] + joined(
            Seq::new(x@.len(), |i: int| shown(x@[i], cap)),
            ", "@,
            x@.len(),
        ) + seq![']'],
        v.kind matches DatumKind::Table(x) ==> shown(v, cap) == seq!['{'] + joined(
            Seq::new(
                x@.len(),
                |i: int| shown(x@[i].key, cap) + ": "@ + shown(x@[i].value, cap),
            ),
            ", "@,
            x@.len(),
        ) + seq!['}'],
{
    reveal_strlit("[");
    reveal_strlit("]");
    reveal_strlit("{");
    reveal_strlit("}");
    assert("["@ =~= seq!['[']);
    assert("]"@ =~= seq![']']);
    assert("{"@ =~= seq!['{']);
    assert("}"@ =~= seq!['}']);
    match v.kind {
        DatumKind::Array(x) => {
            lemma_items_joined(x@, x@.len(), cap);
        },
        DatumKind::Table(x) => {
            lemma_pairs_joined(x@, x@.len(), cap);
        },
        _ => {},
    }
}

/// The text of bytes holds two hexadecimal digits for each of the first `cap` of them, and a mark
/// where there are more.
pub proof fn law_text_of_bytes(v: Datum, cap: nat, b: Vec<u8>, i: int)
    requires
        v.kind == DatumKind::Bytes(b),
        0 <= i < b@.len(),
        i < cap,
    ensures
        ({
            let t = shown(v, cap);
            let n = if b@.len() <= cap {
                b@.len()
            } else {
                cap
            };
            &&& t.len() == 2 * n + 3 + if b@.len() > cap {
                1int
            } else {
                0
            }
            &&& t[0] == 'b' && t[1] == '"' && t.last() == '"'
            &&& b@.len() > cap ==> t[t.len() - 2] == '\u{2026}'
            &&& t[2 + 2 * i] == "0123456789abcdef"@[b@[i] as int / 16]
            &&& t[3 + 2 * i] == "0123456789abcdef"@[b@[i] as int % 16]
        }),
{
    reveal_strlit("b\"");
    reveal_strlit("\"");
    reveal_strlit("\u{2026}");
    let n = if b@.len() <= cap {
        b@.len()
    } else {
        cap
    };
    lemma_hex(b@, n, i);
}

proof fn lemma_hex(b: Seq<u8>, n: nat, i: int)
    requires
        0 <= i < n <= b.len(),
    ensures
        hex(b, n).len() == 2 * n,
        hex(b, n)[2 * i] == "0123456789abcdef"@[b[i] as int / 16],
        hex(b, n)[2 * i + 1] == "0123456789abcdef"@[b[i] as int % 16],
    decreases n,
{
    reveal_strlit("0123456789abcdef");
    lemma_hex_len(b, (n - 1) as nat);
    if i < n - 1 {
        lemma_hex(b, (n - 1) as nat, i);
    }
}

proof fn lemma_hex_len(b: Seq<u8>, n: nat)
    requires
        n <= b.len(),
    ensures
        hex(b, n).len() == 2 * n,
    decreases n,
{
    if n > 0 {
        lemma_hex_len(b, (n - 1) as nat);
    }
}

// ---------- Order ----------

/// The differences of two maps are told key by key, in the order of the keys, those of each once:
/// `told` holds those of the first `n` keys.
pub proof fn law_map_differences_come_by_key(
    path: Seq<char>,
    a: Datum,
    b: Datum,
    x: Vec<Pair>,
    y: Vec<Pair>,
    n: nat,
    i: int,
    j: int,
)
    requires
        a.kind == DatumKind::Table(x),
        b.kind == DatumKind::Table(y),
        n < keys_of(x@, y@).len(),
    ensures
        ({
            let keys = keys_of(x@, y@);
            let k = keys[n as int];
            let told = table_differences(path, x@, y@, keys, n);
            let next = table_differences(path, x@, y@, keys, n + 1);
            let at = path + "/"@ + unquoted(k);
            let in_x = is_last(x@, i) && shown(x@[i].key, 8) == k;
            let in_y = is_last(y@, j) && shown(y@[j].key, 8) == k;
            let not_x = forall|m: int| 0 <= m < x@.len() ==> shown((#[trigger] x@[m]).key, 8) != k;
            let not_y = forall|m: int| 0 <= m < y@.len() ==> shown((#[trigger] y@[m]).key, 8) != k;
            &&& table_differences(path, x@, y@, keys, 0).len() == 0
            &&& differences(path, a, b) == table_differences(path, x@, y@, keys, keys.len())
            &&& in_x && in_y ==> next == told + differences(at, x@[i].value, y@[j].value)
            &&& in_x && not_y ==> next == told + seq![
                DeltaView::Removed { path: at, value: shown(x@[i].value, 8) },
            ]
            &&& not_x && in_y ==> next == told + seq![
                DeltaView::Added { path: at, value: shown(y@[j].value, 8) },
            ]
        }),
{
    let keys = keys_of(x@, y@);
    let k = keys[n as int];
    lemma_table_step(path, x@, y@, keys, n + 1);
    if is_last(x@, i) && shown(x@[i].key, 8) == k {
        lemma_entry_is_last(x@, i, x@.len());
    }
    if is_last(y@, j) && shown(y@[j].key, 8) == k {
        lemma_entry_is_last(y@, j, y@.len());
    }
    lemma_entry_found(x@, k, x@.len());
    lemma_entry_found(y@, k, y@.len());
}

proof fn lemma_array_front(
    path: Seq<char>,
    x: Seq<Datum>,
    y: Seq<Datum>,
    u: Seq<Datum>,
    v: Seq<Datum>,
    n: nat,
)
    requires
        n <= x.len(),
        n <= y.len(),
        n <= u.len(),
        n <= v.len(),
        forall|i: int| 0 <= i < n ==> x[i] == #[trigger] u[i],
        forall|i: int| 0 <= i < n ==> y[i] == #[trigger] v[i],
    ensures
        array_differences(path, x, y, n) == array_differences(path, u, v, n),
    decreases n,
{
    if n > 0 {
        assert(x[n - 1] == u[n - 1] && y[n - 1] == v[n - 1]);
        lemma_array_front(path, x, y, u, v, (n - 1) as nat);
    }
}

/// The differences of two arrays of the same length are those of the arrays without their last
/// items, and behind them those of the last items.
pub proof fn law_array_differences_come_by_item(
    path: Seq<char>,
    a: Datum,
    b: Datum,
    c: Datum,
    d: Datum,
    x: Vec<Datum>,
    y: Vec<Datum>,
    u: Vec<Datum>,
    v: Vec<Datum>,
)
    requires
        a.kind == DatumKind::Array(x),
        b.kind == DatumKind::Array(y),
        c.kind == DatumKind::Array(u),
        d.kind == DatumKind::Array(v),
        x@.len() == y@.len() > 0,
        u@ == x@.drop_last(),
        v@ == y@.drop_last(),
    ensures
        differences(path, a, b) == differences(path, c, d) + differences(
            path + "/"@ + dec((x@.len() - 1) as nat),
            x@.last(),
            y@.last(),
        ),
{
    let n = (x@.len() - 1) as nat;
    assert forall|i: int| 0 <= i < n implies x@[i] == #[trigger] u@[i] by {}
    assert forall|i: int| 0 <= i < n implies y@[i] == #[trigger] v@[i] by {}
    lemma_array_front(path, x@, y@, u@, v@, n);
}

} // verus!
