//! How recorded state changes from snapshot to snapshot.

use vstd::prelude::*;
use vstd::string::*;

use crate::groups::{
    all_members, each_by_number, groups_view, law_put_adds, law_put_keeps_order,
    law_sorting_keeps_members, ordered, put, put_in, sort_each, Group, GroupView, Numbered,
};
use crate::text::{
    chars_of, dec, decimal, rank, rank_text, lemma_rank_same, same_text, slice, string_of, texts,
    Rank,
};
use crate::value::{
    decode, decoded, encodes, items_encode, same_value, show, shown, values_encode, values_equal,
    Datum, DatumKind, Pair,
};

verus! {

/// What the user asked for.
pub struct Options {
    pub store: String,
    pub trace: String,
    /// Only this canister.
    pub canister: Option<String>,
    /// Only this key.
    pub key: Option<String>,
    /// The numbers of two snapshots to compare, which takes a canister and a key.
    pub from: Option<u64>,
    pub to: Option<u64>,
    pub json: bool,
}

/// A difference between two values.
#[derive(Debug)]
pub enum Delta {
    Added { path: String, value: String },
    Removed { path: String, value: String },
    Changed { path: String, from: String, to: String },
}

/// A difference as a mathematical value.
pub enum DeltaView {
    Added { path: Seq<char>, value: Seq<char> },
    Removed { path: Seq<char>, value: Seq<char> },
    Changed { path: Seq<char>, from: Seq<char>, to: Seq<char> },
}

impl View for Delta {
    type V = DeltaView;

    open spec fn view(&self) -> DeltaView {
        match *self {
            Delta::Added { path, value } => DeltaView::Added { path: path@, value: value@ },
            Delta::Removed { path, value } => DeltaView::Removed { path: path@, value: value@ },
            Delta::Changed { path, from, to } => DeltaView::Changed {
                path: path@,
                from: from@,
                to: to@,
            },
        }
    }
}

/// The views of a sequence of differences.
pub open spec fn deltas_view(v: Seq<Delta>) -> Seq<DeltaView> {
    Seq::new(v.len(), |i: int| v[i]@)
}

/// How the state under a key of a canister changed from one snapshot to the next.
#[derive(Debug)]
pub struct Transition {
    pub canister: String,
    pub key: String,
    pub from_seq: u64,
    pub to_seq: u64,
    pub deltas: Vec<Delta>,
}

/// A transition as a mathematical value.
pub struct TransitionView {
    pub canister: Seq<char>,
    pub key: Seq<char>,
    pub from_seq: u64,
    pub to_seq: u64,
    pub deltas: Seq<DeltaView>,
}

impl View for Transition {
    type V = TransitionView;

    open spec fn view(&self) -> TransitionView {
        TransitionView {
            canister: self.canister@,
            key: self.key@,
            from_seq: self.from_seq,
            to_seq: self.to_seq,
            deltas: deltas_view(self.deltas@),
        }
    }
}

/// The views of a sequence of transitions.
pub open spec fn transitions_view(v: Seq<Transition>) -> Seq<TransitionView> {
    Seq::new(v.len(), |i: int| v[i]@)
}

/// The only snapshot under a key of a canister.
#[derive(Debug)]
pub struct Initial {
    pub canister: String,
    pub key: String,
    pub seq: u64,
    pub value: String,
}

/// An only snapshot as a mathematical value.
pub struct InitialView {
    pub canister: Seq<char>,
    pub key: Seq<char>,
    pub seq: u64,
    pub value: Seq<char>,
}

impl View for Initial {
    type V = InitialView;

    open spec fn view(&self) -> InitialView {
        InitialView {
            canister: self.canister@,
            key: self.key@,
            seq: self.seq,
            value: self.value@,
        }
    }
}

/// The views of a sequence of only snapshots.
pub open spec fn initials_view(v: Seq<Initial>) -> Seq<InitialView> {
    Seq::new(v.len(), |i: int| v[i]@)
}

/// A snapshot of the state under a key of a canister.
#[derive(Debug)]
pub struct Snapshot {
    pub canister: String,
    pub seq: u64,
    pub key: String,
    pub cbor: Vec<u8>,
}

impl Numbered for Snapshot {
    open spec fn number(&self) -> int {
        self.seq as int
    }

    fn seq_number(&self) -> (n: u64) {
        self.seq
    }
}

// ---------- Values ----------

/// A value as text.
pub fn format_value(v: &Datum) -> (r: String)
    ensures
        r@ == shown(*v, 8),
{
    show(v, 8)
}

/// `s` without the quotes around it, where it has them.
pub open spec fn unquoted(s: Seq<char>) -> Seq<char> {
    if s.len() >= 2 && s[0] == '"' && s[s.len() - 1] == '"' {
        s.subrange(1, s.len() - 1)
    } else {
        s
    }
}

/// `s` without the quotes around it, where it has them.
pub fn strip_quotes(s: &str) -> (r: String)
    ensures
        r@ == unquoted(s@),
{
    let chars = chars_of(s);
    let n: usize = chars.len();
    if n >= 2 && chars[0] == '"' && chars[n - 1] == '"' {
        string_of(slice(chars.as_slice(), 1, n - 1))
    } else {
        String::from_str(s)
    }
}

// ---------- The keys of two maps ----------

/// Where `k` goes among the keys from `i` on: at the first that does not come before it.
pub open spec fn key_spot(keys: Seq<Seq<char>>, k: Seq<char>, i: int) -> int
    decreases keys.len() - i,
{
    if 0 <= i < keys.len() && rank(keys[i], k) == Rank::Before {
        key_spot(keys, k, i + 1)
    } else {
        i
    }
}

/// The keys with `k`, in order, each once.
pub open spec fn with_key(keys: Seq<Seq<char>>, k: Seq<char>) -> Seq<Seq<char>> {
    let i = key_spot(keys, k, 0);
    if i < keys.len() && keys[i] == k {
        keys
    } else {
        keys.insert(i, k)
    }
}

/// The keys with those of the first `n` entries, as text.
pub open spec fn with_keys(keys: Seq<Seq<char>>, pairs: Seq<Pair>, n: nat) -> Seq<Seq<char>>
    decreases n,
{
    if n == 0 || n > pairs.len() {
        keys
    } else {
        with_key(with_keys(keys, pairs, (n - 1) as nat), shown(pairs[n - 1].key, 8))
    }
}

/// The keys of two maps, as text, in order, each once.
pub open spec fn keys_of(a: Seq<Pair>, b: Seq<Pair>) -> Seq<Seq<char>> {
    with_keys(with_keys(Seq::empty(), a, a.len()), b, b.len())
}

/// The last of the first `n` entries whose key is `k` as text.
pub open spec fn entry(pairs: Seq<Pair>, k: Seq<char>, n: nat) -> Option<int>
    decreases n,
{
    if n == 0 || n > pairs.len() {
        None
    } else if shown(pairs[n - 1].key, 8) == k {
        Some(n - 1)
    } else {
        entry(pairs, k, (n - 1) as nat)
    }
}

fn add_key(keys: &mut Vec<String>, k: String)
    ensures
        texts(final(keys)@) == with_key(texts(old(keys)@), k@),
{
    let ghost before = texts(keys@);
    let n: usize = keys.len();
    let mut i: usize = 0;
    while i < n
        invariant
            i <= n,
            n == keys@.len(),
            keys@ == old(keys)@,
            before == texts(keys@),
            key_spot(before, k@, 0) == key_spot(before, k@, i as int),
        decreases n - i,
    {
        assert(before[i as int] == keys@[i as int]@);
        match rank_text(keys[i].as_str(), k.as_str()) {
            Rank::Before => {
                i += 1;
            },
            Rank::Same => {
                proof {
                    lemma_rank_same(before[i as int], k@);
                }
                return ;
            },
            Rank::After => {
                proof {
                    lemma_rank_same(before[i as int], k@);
                }
                keys.insert(i, k);
                assert(texts(keys@) =~= with_key(before, k@));
                return ;
            },
        }
    }
    keys.push(k);
    assert(texts(keys@) =~= with_key(before, k@));
}

fn add_keys(keys: &mut Vec<String>, pairs: &Vec<Pair>)
    ensures
        texts(final(keys)@) == with_keys(texts(old(keys)@), pairs@, pairs@.len()),
{
    let ghost start = texts(keys@);
    let mut i: usize = 0;
    while i < pairs.len()
        invariant
            i <= pairs@.len(),
            texts(keys@) == with_keys(start, pairs@, i as nat),
        decreases pairs@.len() - i,
    {
        add_key(keys, format_value(&pairs[i].key));
        i += 1;
    }
}

fn find_entry(pairs: &Vec<Pair>, k: &str) -> (r: Option<usize>)
    ensures
        match r {
            Some(i) => entry(pairs@, k@, pairs@.len()) == Some(i as int) && i < pairs@.len(),
            None => entry(pairs@, k@, pairs@.len()) is None,
        },
{
    let mut i: usize = pairs.len();
    while i > 0
        invariant
            i <= pairs@.len(),
            entry(pairs@, k@, pairs@.len()) == entry(pairs@, k@, i as nat),
        decreases i,
    {
        i -= 1;
        if same_text(format_value(&pairs[i].key).as_str(), k) {
            return Some(i);
        }
    }
    None
}

// ---------- Differences ----------

/// The path of a part of what stands at `path`.
pub open spec fn part_of(path: Seq<char>, part: Seq<char>) -> Seq<char> {
    path + "/"@ + part
}

/// The differences between two values at `path`. Maps are compared key by key, arrays item by
/// item, and all else by its encoding.
pub open spec fn differences(path: Seq<char>, a: Datum, b: Datum) -> Seq<DeltaView>
    decreases a, 0nat,
{
    match (a.kind, b.kind) {
        (DatumKind::Table(x), DatumKind::Table(y)) => table_differences(
            path,
            x@,
            y@,
            keys_of(x@, y@),
            keys_of(x@, y@).len(),
        ),
        (DatumKind::Array(x), DatumKind::Array(y)) => array_differences(
            path,
            x@,
            y@,
            if x@.len() >= y@.len() {
                x@.len()
            } else {
                y@.len()
            },
        ),
        _ => if same_value(a, b) {
            Seq::empty()
        } else {
            seq![
                DeltaView::Changed {
                    path: if path.len() == 0 {
                        "/"@
                    } else {
                        path
                    },
                    from: shown(a, 8),
                    to: shown(b, 8),
                },
            ]
        },
    }
}

/// The differences of two maps under the first `n` of `keys`.
pub open spec fn table_differences(
    path: Seq<char>,
    x: Seq<Pair>,
    y: Seq<Pair>,
    keys: Seq<Seq<char>>,
    n: nat,
) -> Seq<DeltaView>
    decreases x, n,
{
    if n == 0 || n > keys.len() {
        Seq::empty()
    } else {
        let k = keys[n - 1];
        let child = part_of(path, unquoted(k));
        table_differences(path, x, y, keys, (n - 1) as nat) + match (
            entry(x, k, x.len()),
            entry(y, k, y.len()),
        ) {
            (Some(i), Some(j)) => if 0 <= i < x.len() {
                differences(child, x[i].value, y[j].value)
            } else {
                Seq::empty()
            },
            (Some(i), None) => seq![
                DeltaView::Removed { path: child, value: shown(x[i].value, 8) },
            ],
            (None, Some(j)) => seq![
                DeltaView::Added { path: child, value: shown(y[j].value, 8) },
            ],
            (None, None) => Seq::empty(),
        }
    }
}

/// The differences of two arrays among the first `n` items.
pub open spec fn array_differences(path: Seq<char>, x: Seq<Datum>, y: Seq<Datum>, n: nat) -> Seq<
    DeltaView,
>
    decreases x, n,
{
    if n == 0 {
        Seq::empty()
    } else {
        let i = n - 1;
        let child = part_of(path, dec(i as nat));
        array_differences(path, x, y, (n - 1) as nat) + if i < x.len() && i < y.len() {
            differences(child, x[i], y[i])
        } else if i < x.len() {
            seq![DeltaView::Removed { path: child, value: shown(x[i], 8) }]
        } else if i < y.len() {
            seq![DeltaView::Added { path: child, value: shown(y[i], 8) }]
        } else {
            Seq::empty()
        }
    }
}

fn push_delta(out: &mut Vec<Delta>, d: Delta)
    ensures
        deltas_view(final(out)@) == deltas_view(old(out)@) + seq![d@],
{
    let ghost before = deltas_view(out@);
    out.push(d);
    assert(deltas_view(out@) =~= before + seq![d@]);
}

fn make_part(path: &str, part: &str) -> (r: String)
    ensures
        r@ == part_of(path@, part@),
{
    let mut out = String::from_str(path);
    out.append("/");
    out.append(part);
    out
}

fn diff_rec(path: &str, a: &Datum, b: &Datum, out: &mut Vec<Delta>)
    ensures
        deltas_view(final(out)@) == deltas_view(old(out)@) + differences(path@, *a, *b),
    decreases *a, 0nat,
{
    let ghost start = deltas_view(out@);
    match (&a.kind, &b.kind) {
        (DatumKind::Table(x), DatumKind::Table(y)) => {
            diff_tables(path, x, y, out);
        },
        (DatumKind::Array(x), DatumKind::Array(y)) => {
            diff_arrays(path, x, y, out);
        },
        _ => {
            if !values_equal(a, b) {
                let at = if chars_of(path).len() == 0 {
                    String::from_str("/")
                } else {
                    String::from_str(path)
                };
                push_delta(
                    out,
                    Delta::Changed { path: at, from: format_value(a), to: format_value(b) },
                );
            }
        },
    }
    assert(deltas_view(out@) =~= start + differences(path@, *a, *b));
}

fn diff_tables(path: &str, x: &Vec<Pair>, y: &Vec<Pair>, out: &mut Vec<Delta>)
    ensures
        deltas_view(final(out)@) == deltas_view(old(out)@) + table_differences(
            path@,
            x@,
            y@,
            keys_of(x@, y@),
            keys_of(x@, y@).len(),
        ),
    decreases *x, keys_of(x@, y@).len() + 1,
{
    let ghost start = deltas_view(out@);
    let mut keys: Vec<String> = Vec::new();
    assert(texts(keys@) =~= Seq::<Seq<char>>::empty());
    add_keys(&mut keys, x);
    add_keys(&mut keys, y);
    let ghost all = keys_of(x@, y@);
    assert(start + table_differences(path@, x@, y@, all, 0) =~= start);
    let mut i: usize = 0;
    while i < keys.len()
        invariant
            i <= keys@.len(),
            all == texts(keys@),
            all == keys_of(x@, y@),
            deltas_view(out@) == start + table_differences(path@, x@, y@, all, i as nat),
        decreases keys@.len() - i,
    {
        assert(all[i as int] == keys@[i as int]@);
        let child = make_part(path, strip_quotes(keys[i].as_str()).as_str());
        match (find_entry(x, keys[i].as_str()), find_entry(y, keys[i].as_str())) {
            (Some(p), Some(q)) => {
                diff_rec(child.as_str(), &x[p].value, &y[q].value, out);
            },
            (Some(p), None) => {
                push_delta(
                    out,
                    Delta::Removed { path: child, value: format_value(&x[p].value) },
                );
            },
            (None, Some(q)) => {
                push_delta(out, Delta::Added { path: child, value: format_value(&y[q].value) });
            },
            (None, None) => {},
        }
        i += 1;
        assert(deltas_view(out@) =~= start + table_differences(path@, x@, y@, all, i as nat));
    }
}

fn diff_arrays(path: &str, x: &Vec<Datum>, y: &Vec<Datum>, out: &mut Vec<Delta>)
    ensures
        deltas_view(final(out)@) == deltas_view(old(out)@) + array_differences(
            path@,
            x@,
            y@,
            if x@.len() >= y@.len() {
                x@.len()
            } else {
                y@.len()
            },
        ),
    decreases *x, x@.len() + y@.len() + 1,
{
    let ghost start = deltas_view(out@);
    let n: usize = if x.len() >= y.len() {
        x.len()
    } else {
        y.len()
    };
    assert(start + array_differences(path@, x@, y@, 0) =~= start);
    let mut i: usize = 0;
    while i < n
        invariant
            i <= n,
            n == x@.len() || n == y@.len(),
            deltas_view(out@) == start + array_differences(path@, x@, y@, i as nat),
        decreases n - i,
    {
        let child = make_part(path, decimal(i as u128).as_str());
        if i < x.len() && i < y.len() {
            diff_rec(child.as_str(), &x[i], &y[i], out);
        } else if i < x.len() {
            push_delta(out, Delta::Removed { path: child, value: format_value(&x[i]) });
        } else if i < y.len() {
            push_delta(out, Delta::Added { path: child, value: format_value(&y[i]) });
        }
        i += 1;
        assert(deltas_view(out@) =~= start + array_differences(path@, x@, y@, i as nat));
    }
}

/// The differences between two values.
pub fn diff_values(a: &Datum, b: &Datum) -> (out: Vec<Delta>)
    ensures
        deltas_view(out@) == differences(Seq::empty(), *a, *b),
{
    let mut out: Vec<Delta> = Vec::new();
    proof {
        reveal_strlit("");
        assert(""@ =~= Seq::<char>::empty());
    }
    diff_rec("", a, b, &mut out);
    assert(deltas_view(out@) =~= differences(Seq::empty(), *a, *b));
    out
}

proof fn lemma_value_encodes(x: Seq<Pair>, n: nat, i: int)
    requires
        values_encode(x, n),
        0 <= i < n <= x.len(),
    ensures
        encodes(x[i].value),
    decreases n,
{
    if i < n - 1 {
        lemma_value_encodes(x, (n - 1) as nat, i);
    }
}

proof fn lemma_item_encodes(x: Seq<Datum>, n: nat, i: int)
    requires
        items_encode(x, n),
        0 <= i < n <= x.len(),
    ensures
        encodes(x[i]),
    decreases n,
{
    if i < n - 1 {
        lemma_item_encodes(x, (n - 1) as nat, i);
    }
}

proof fn lemma_entry(x: Seq<Pair>, k: Seq<char>, n: nat)
    requires
        n <= x.len(),
    ensures
        entry(x, k, n) matches Some(i) ==> 0 <= i < n,
    decreases n,
{
    if n > 0 {
        lemma_entry(x, k, (n - 1) as nat);
    }
}

/// A value does not differ from itself.
pub proof fn law_no_difference_to_itself(path: Seq<char>, a: Datum)
    requires
        encodes(a),
    ensures
        differences(path, a, a) == Seq::<DeltaView>::empty(),
    decreases a, 0nat,
{
    match a.kind {
        DatumKind::Table(x) => {
            lemma_same_tables(path, x@, keys_of(x@, x@), keys_of(x@, x@).len());
        },
        DatumKind::Array(x) => {
            lemma_same_arrays(path, x@, x@.len());
        },
        _ => {},
    }
}

proof fn lemma_same_tables(path: Seq<char>, x: Seq<Pair>, keys: Seq<Seq<char>>, n: nat)
    requires
        values_encode(x, x.len()),
        n <= keys.len(),
    ensures
        table_differences(path, x, x, keys, n) == Seq::<DeltaView>::empty(),
    decreases x, n,
{
    if n > 0 {
        lemma_same_tables(path, x, keys, (n - 1) as nat);
        let k = keys[n - 1];
        lemma_entry(x, k, x.len());
        if let Some(i) = entry(x, k, x.len()) {
            lemma_value_encodes(x, x.len(), i);
            law_no_difference_to_itself(part_of(path, unquoted(k)), x[i].value);
        }
        assert(table_differences(path, x, x, keys, n) =~= Seq::<DeltaView>::empty());
    }
}

proof fn lemma_same_arrays(path: Seq<char>, x: Seq<Datum>, n: nat)
    requires
        items_encode(x, x.len()),
        n <= x.len(),
    ensures
        array_differences(path, x, x, n) == Seq::<DeltaView>::empty(),
    decreases x, n,
{
    if n > 0 {
        lemma_same_arrays(path, x, (n - 1) as nat);
        lemma_item_encodes(x, x.len(), n - 1);
        law_no_difference_to_itself(part_of(path, dec((n - 1) as nat)), x[n - 1]);
        assert(array_differences(path, x, x, n) =~= Seq::<DeltaView>::empty());
    }
}

// ---------- Snapshots ----------

/// The snapshot is of the canister and the key that are asked for, as far as they are.
pub open spec fn is_wanted(s: Snapshot, canister: Option<Seq<char>>, key: Option<Seq<char>>) -> bool {
    (canister matches Some(c) ==> s.canister@ == c) && (key matches Some(k) ==> s.key@ == k)
}

/// Those of the first `n` snapshots that are wanted.
pub open spec fn wanted(
    ss: Seq<Snapshot>,
    canister: Option<Seq<char>>,
    key: Option<Seq<char>>,
    n: nat,
) -> Seq<Snapshot>
    decreases n,
{
    if n == 0 || n > ss.len() {
        Seq::empty()
    } else {
        let before = wanted(ss, canister, key, (n - 1) as nat);
        if is_wanted(ss[n - 1], canister, key) {
            before.push(ss[n - 1])
        } else {
            before
        }
    }
}

/// The view of an optional string slice.
pub open spec fn opt_view(s: Option<&str>) -> Option<Seq<char>> {
    match s {
        Some(t) => Some(t@),
        None => None,
    }
}

/// The snapshots of the canister and the key that are asked for, as far as they are.
pub fn select(snapshots: Vec<Snapshot>, canister: Option<&str>, key: Option<&str>) -> (out: Vec<
    Snapshot,
>)
    ensures
        out@ == wanted(snapshots@, opt_view(canister), opt_view(key), snapshots@.len()),
{
    let ghost all = snapshots@;
    let ghost c = opt_view(canister);
    let ghost k = opt_view(key);
    let ghost mut done: nat = 0;
    let mut rest = snapshots;
    let mut out: Vec<Snapshot> = Vec::new();
    assert(all.subrange(0, all.len() as int) =~= all);
    while rest.len() > 0
        invariant
            c == opt_view(canister),
            k == opt_view(key),
            done + rest@.len() == all.len(),
            rest@ == all.subrange(done as int, all.len() as int),
            out@ == wanted(all, c, k, done),
        decreases rest@.len(),
    {
        let s = rest.remove(0);
        assert(s == all[done as int]);
        let in_canister = match canister {
            Some(c) => same_text(s.canister.as_str(), c),
            None => true,
        };
        let in_key = match key {
            Some(k) => same_text(s.key.as_str(), k),
            None => true,
        };
        if in_canister && in_key {
            out.push(s);
        }
        proof {
            done = done + 1;
        }
        assert(rest@ =~= all.subrange(done as int, all.len() as int));
    }
    out
}

/// The first `n` snapshots by canister and key.
pub open spec fn grouped(ss: Seq<Snapshot>, n: nat) -> Seq<GroupView<Snapshot>>
    decreases n,
{
    if n == 0 || n > ss.len() {
        Seq::empty()
    } else {
        put_in(grouped(ss, (n - 1) as nat), ss[n - 1].canister@, ss[n - 1].key@, ss[n - 1])
    }
}

/// The snapshots by canister and key, those of a group by their numbers.
pub fn group_by_ck(snapshots: Vec<Snapshot>) -> (out: Vec<Group<Snapshot>>)
    ensures
        groups_view(out@) == each_by_number(grouped(snapshots@, snapshots@.len())),
{
    let ghost all = snapshots@;
    let ghost mut done: nat = 0;
    let mut rest = snapshots;
    let mut gs: Vec<Group<Snapshot>> = Vec::new();
    assert(all.subrange(0, all.len() as int) =~= all);
    assert(groups_view(gs@) =~= Seq::<GroupView<Snapshot>>::empty());
    while rest.len() > 0
        invariant
            done + rest@.len() == all.len(),
            rest@ == all.subrange(done as int, all.len() as int),
            groups_view(gs@) == grouped(all, done),
        decreases rest@.len(),
    {
        let s = rest.remove(0);
        assert(s == all[done as int]);
        put(&mut gs, s.canister.clone(), s.key.clone(), s);
        proof {
            done = done + 1;
        }
        assert(rest@ =~= all.subrange(done as int, all.len() as int));
    }
    sort_each(gs)
}

/// The groups are in the order of canister and key, each once, and hold every snapshot.
pub proof fn law_grouping_loses_nothing(ss: Seq<Snapshot>, n: nat)
    requires
        n <= ss.len(),
    ensures
        ordered(grouped(ss, n)),
        all_members(grouped(ss, n)) == ss.subrange(0, n as int).to_multiset(),
        all_members(each_by_number(grouped(ss, n))) == ss.subrange(0, n as int).to_multiset(),
    decreases n,
{
    broadcast use vstd::seq_lib::group_to_multiset_ensures;

    if n == 0 {
        assert(ss.subrange(0, 0) =~= Seq::<Snapshot>::empty());
        assert(all_members(grouped(ss, 0)) =~= ss.subrange(0, 0).to_multiset());
    } else {
        let m = (n - 1) as nat;
        law_grouping_loses_nothing(ss, m);
        let s = ss[n - 1];
        law_put_keeps_order(grouped(ss, m), s.canister@, s.key@, s);
        law_put_adds(grouped(ss, m), s.canister@, s.key@, s);
        assert(ss.subrange(0, n as int) =~= ss.subrange(0, m as int).push(s));
    }
    law_sorting_keeps_members(grouped(ss, n), grouped(ss, n).len());
}

// ---------- The walk ----------

/// The transition from snapshot `a` to snapshot `b`, whose values are `x` and `y`.
pub open spec fn transition(
    canister: Seq<char>,
    key: Seq<char>,
    a: Snapshot,
    b: Snapshot,
    x: Datum,
    y: Datum,
) -> TransitionView {
    TransitionView {
        canister,
        key,
        from_seq: a.seq,
        to_seq: b.seq,
        deltas: differences(Seq::empty(), x, y),
    }
}

/// The transitions over the first `n` pairs of neighbours in a group; the error of the first
/// snapshot that cannot be read.
pub open spec fn transitions(g: GroupView<Snapshot>, n: nat) -> Result<
    Seq<TransitionView>,
    Seq<char>,
>
    decreases n,
{
    if n == 0 || n >= g.items.len() {
        Ok(Seq::empty())
    } else {
        match transitions(g, (n - 1) as nat) {
            Ok(before) => match decoded(g.items[n - 1].cbor@) {
                Ok(x) => match decoded(g.items[n as int].cbor@) {
                    Ok(y) => Ok(
                        before.push(
                            transition(g.a, g.b, g.items[n - 1], g.items[n as int], x, y),
                        ),
                    ),
                    Err(e) => Err(e),
                },
                Err(e) => Err(e),
            },
            Err(e) => Err(e),
        }
    }
}

/// What the walk over the first `n` groups gives: all transitions, and the only snapshot of each
/// group of one; the error of the first snapshot that cannot be read.
pub open spec fn walked(gs: Seq<GroupView<Snapshot>>, n: nat) -> Result<
    (Seq<TransitionView>, Seq<InitialView>),
    Seq<char>,
>
    decreases n,
{
    if n == 0 || n > gs.len() {
        Ok((Seq::empty(), Seq::empty()))
    } else {
        let g = gs[n - 1];
        match walked(gs, (n - 1) as nat) {
            Ok((ts, is)) => if g.items.len() == 1 {
                match decoded(g.items[0].cbor@) {
                    Ok(v) => Ok(
                        (
                            ts,
                            is.push(
                                InitialView {
                                    canister: g.a,
                                    key: g.b,
                                    seq: g.items[0].seq,
                                    value: shown(v, 8),
                                },
                            ),
                        ),
                    ),
                    Err(e) => Err(e),
                }
            } else if g.items.len() == 0 {
                Ok((ts, is))
            } else {
                match transitions(g, (g.items.len() - 1) as nat) {
                    Ok(more) => Ok((ts + more, is)),
                    Err(e) => Err(e),
                }
            },
            Err(e) => Err(e),
        }
    }
}

/// The transition from snapshot `a` to snapshot `b`, whose values are `x` and `y`.
pub fn make_transition(
    canister: &str,
    key: &str,
    a: &Snapshot,
    b: &Snapshot,
    x: &Datum,
    y: &Datum,
) -> (t: Transition)
    ensures
        t@ == transition(canister@, key@, *a, *b, *x, *y),
{
    Transition {
        canister: String::from_str(canister),
        key: String::from_str(key),
        from_seq: a.seq,
        to_seq: b.seq,
        deltas: diff_values(x, y),
    }
}

/// Every snapshot of the group holds a value, and every part of it has an encoding.
pub open spec fn all_read(g: GroupView<Snapshot>) -> bool {
    forall|j: int|
        0 <= j < g.items.len() ==> (decoded((#[trigger] g.items[j]).cbor@) matches Ok(v) && encodes(
            v,
        ))
}

/// Between neighbours of the same bytes, nothing differs.
pub proof fn law_repeated_snapshot_changes_nothing(g: GroupView<Snapshot>, n: nat)
    requires
        all_read(g),
        0 < n < g.items.len(),
        g.items[n - 1].cbor@ == g.items[n as int].cbor@,
    ensures
        transitions(g, n) matches Ok(ts) && ts.len() == n && ts[n - 1].deltas.len() == 0,
{
    lemma_transitions_len(g, n);
    assert(decoded(g.items[n as int].cbor@) matches Ok(v) && encodes(v));
    let v = decoded(g.items[n as int].cbor@)->Ok_0;
    law_no_difference_to_itself(Seq::empty(), v);
}

proof fn lemma_transitions_len(g: GroupView<Snapshot>, n: nat)
    requires
        all_read(g),
        n < g.items.len(),
    ensures
        transitions(g, n) matches Ok(ts) && ts.len() == n,
    decreases n,
{
    if n > 0 {
        lemma_transitions_len(g, (n - 1) as nat);
        assert(decoded(g.items[n - 1].cbor@) matches Ok(v) && encodes(v));
        assert(decoded(g.items[n as int].cbor@) matches Ok(v) && encodes(v));
    }
}

fn walk_group(g: &Group<Snapshot>) -> (r: Result<Vec<Transition>, String>)
    requires
        g.items@.len() > 0,
    ensures
        match r {
            Ok(ts) => transitions(g@, (g.items@.len() - 1) as nat) == Ok::<
                Seq<TransitionView>,
                Seq<char>,
            >(transitions_view(ts@)),
            Err(e) => transitions(g@, (g.items@.len() - 1) as nat) == Err::<
                Seq<TransitionView>,
                Seq<char>,
            >(e@),
        },
        r is Ok && g.items@.len() > 1 ==> all_read(g@),
{
    let n: usize = g.items.len() - 1;
    let mut out: Vec<Transition> = Vec::new();
    assert(transitions_view(out@) =~= Seq::<TransitionView>::empty());
    let mut i: usize = 0;
    while i < n
        invariant
            i <= n,
            n + 1 == g.items@.len(),
            forall|j: int|
                0 <= j <= i && i > 0 ==> (decoded((#[trigger] g.items@[j]).cbor@) matches Ok(v)
                    && encodes(v)),
            transitions(g@, i as nat) == Ok::<Seq<TransitionView>, Seq<char>>(
                transitions_view(out@),
            ),
        decreases n - i,
    {
        let ghost before = transitions_view(out@);
        let a = &g.items[i];
        let b = &g.items[i + 1];
        let x = match decode(a.cbor.as_slice()) {
            Ok(x) => x,
            Err(e) => {
                proof {
                    lemma_transitions_fail(g@, (i + 1) as nat, n as nat);
                }
                return Err(e);
            },
        };
        let y = match decode(b.cbor.as_slice()) {
            Ok(y) => y,
            Err(e) => {
                proof {
                    lemma_transitions_fail(g@, (i + 1) as nat, n as nat);
                }
                return Err(e);
            },
        };
        let t = make_transition(g.a.as_str(), g.b.as_str(), a, b, &x, &y);
        let ghost found = t@;
        out.push(t);
        assert(transitions_view(out@) =~= before.push(found));
        i += 1;
    }
    Ok(out)
}

proof fn lemma_transitions_fail(g: GroupView<Snapshot>, k: nat, n: nat)
    requires
        k <= n < g.items.len(),
        transitions(g, k) is Err,
    ensures
        transitions(g, n) == transitions(g, k),
    decreases n,
{
    if k < n {
        lemma_transitions_fail(g, k, (n - 1) as nat);
    }
}

proof fn lemma_walk_fails(gs: Seq<GroupView<Snapshot>>, k: nat, n: nat)
    requires
        k <= n <= gs.len(),
        walked(gs, k) is Err,
    ensures
        walked(gs, n) == walked(gs, k),
    decreases n,
{
    if k < n {
        lemma_walk_fails(gs, k, (n - 1) as nat);
    }
}

/// Walk over all groups.
pub fn build_walk(grouped: &Vec<Group<Snapshot>>) -> (r: Result<
    (Vec<Transition>, Vec<Initial>),
    String,
>)
    ensures
        match r {
            Ok((ts, is)) => walked(groups_view(grouped@), grouped@.len()) == Ok::<
                (Seq<TransitionView>, Seq<InitialView>),
                Seq<char>,
            >((transitions_view(ts@), initials_view(is@))),
            Err(e) => walked(groups_view(grouped@), grouped@.len()) == Err::<
                (Seq<TransitionView>, Seq<InitialView>),
                Seq<char>,
            >(e@),
        },
        r is Ok ==> forall|k: int|
            0 <= k < grouped@.len() ==> all_read(#[trigger] groups_view(grouped@)[k]),
{
    let ghost all = groups_view(grouped@);
    let mut ts: Vec<Transition> = Vec::new();
    let mut is: Vec<Initial> = Vec::new();
    assert(transitions_view(ts@) =~= Seq::<TransitionView>::empty());
    assert(initials_view(is@) =~= Seq::<InitialView>::empty());
    let mut i: usize = 0;
    while i < grouped.len()
        invariant
            i <= grouped@.len(),
            all == groups_view(grouped@),
            walked(all, i as nat) == Ok::<(Seq<TransitionView>, Seq<InitialView>), Seq<char>>(
                (transitions_view(ts@), initials_view(is@)),
            ),
            forall|k: int| 0 <= k < i ==> all_read(#[trigger] all[k]),
        decreases grouped@.len() - i,
    {
        let ghost old_ts = transitions_view(ts@);
        let ghost old_is = initials_view(is@);
        let g = &grouped[i];
        assert(all[i as int] == g@);
        if g.items.len() == 1 {
            match decode(g.items[0].cbor.as_slice()) {
                Ok(v) => {
                    let first = Initial {
                        canister: g.a.clone(),
                        key: g.b.clone(),
                        seq: g.items[0].seq,
                        value: format_value(&v),
                    };
                    let ghost found = first@;
                    is.push(first);
                    assert(initials_view(is@) =~= old_is.push(found));
                },
                Err(e) => {
                    proof {
                        lemma_walk_fails(all, (i + 1) as nat, grouped@.len());
                    }
                    return Err(e);
                },
            }
        } else if g.items.len() > 1 {
            match walk_group(g) {
                Ok(mut more) => {
                    let ghost found = transitions_view(more@);
                    ts.append(&mut more);
                    assert(transitions_view(ts@) =~= old_ts + found);
                },
                Err(e) => {
                    proof {
                        lemma_walk_fails(all, (i + 1) as nat, grouped@.len());
                    }
                    return Err(e);
                },
            }
        }
        i += 1;
    }
    Ok((ts, is))
}

/// Group the snapshots and walk over the groups.
pub fn walk(snapshots: Vec<Snapshot>) -> (r: Result<(Vec<Transition>, Vec<Initial>), String>)
    ensures
        ({
            let gs = each_by_number(grouped(snapshots@, snapshots@.len()));
            match r {
                Ok((ts, is)) => walked(gs, gs.len()) == Ok::<
                    (Seq<TransitionView>, Seq<InitialView>),
                    Seq<char>,
                >((transitions_view(ts@), initials_view(is@))),
                Err(e) => walked(gs, gs.len()) == Err::<
                    (Seq<TransitionView>, Seq<InitialView>),
                    Seq<char>,
                >(e@),
            }
        }),
        ({
            let gs = each_by_number(grouped(snapshots@, snapshots@.len()));
            r is Ok ==> forall|k: int| 0 <= k < gs.len() ==> all_read(#[trigger] gs[k])
        }),
{
    let gs = group_by_ck(snapshots);
    build_walk(&gs)
}

// ---------- A pair ----------

/// Why two snapshots cannot be compared.
#[derive(Debug)]
pub enum PairError {
    /// `to` was given without `from`.
    FromMissing,
    /// `from` was given without `to`.
    ToMissing,
    /// A pair was asked for without a canister and a key.
    ScopeMissing,
    /// There is no snapshot of that number.
    NoSnapshot(u64),
    /// A snapshot cannot be read.
    Unreadable(String),
}

impl PairError {
    /// The error in words.
    pub open spec fn text(self) -> Seq<char> {
        match self {
            PairError::FromMissing => "--from required when --to is set"@,
            PairError::ToMissing => "--to required when --from is set"@,
            PairError::ScopeMissing => {
                "--from/--to requires --canister and --key to disambiguate the snapshot pair"@
            },
            PairError::NoSnapshot(n) => "no snapshot with seq="@ + dec(n as nat)
                + " for that canister+key"@,
            PairError::Unreadable(m) => "decode CBOR snapshot: "@ + m@,
        }
    }

    /// The error in words.
    pub fn message(&self) -> (r: String)
        ensures
            r@ == self.text(),
    {
        match self {
            PairError::FromMissing => String::from_str("--from required when --to is set"),
            PairError::ToMissing => String::from_str("--to required when --from is set"),
            PairError::ScopeMissing => String::from_str(
                "--from/--to requires --canister and --key to disambiguate the snapshot pair",
            ),
            PairError::NoSnapshot(n) => {
                let mut out = String::from_str("no snapshot with seq=");
                out.append(decimal(*n as u128).as_str());
                out.append(" for that canister+key");
                out
            },
            PairError::Unreadable(m) => {
                let mut out = String::from_str("decode CBOR snapshot: ");
                out.append(m.as_str());
                out
            },
        }
    }
}

/// The pair that is asked for; none where all transitions are.
pub open spec fn asked_pair(o: Options) -> Result<Option<(u64, u64)>, PairError> {
    match (o.from, o.to) {
        (None, None) => Ok(None),
        (Some(a), Some(b)) => if o.canister is None || o.key is None {
            Err(PairError::ScopeMissing)
        } else {
            Ok(Some((a, b)))
        },
        (None, Some(_)) => Err(PairError::FromMissing),
        (Some(_), None) => Err(PairError::ToMissing),
    }
}

/// The pair that is asked for; none where all transitions are.
pub fn pair_of(o: &Options) -> (r: Result<Option<(u64, u64)>, PairError>)
    ensures
        r == asked_pair(*o),
{
    match (o.from, o.to) {
        (None, None) => Ok(None),
        (Some(a), Some(b)) => if o.canister.is_none() || o.key.is_none() {
            Err(PairError::ScopeMissing)
        } else {
            Ok(Some((a, b)))
        },
        (None, Some(_)) => Err(PairError::FromMissing),
        (Some(_), None) => Err(PairError::ToMissing),
    }
}

/// The first snapshot at or after `i` with the number `n`.
pub open spec fn numbered(ss: Seq<Snapshot>, n: u64, i: int) -> Option<Snapshot>
    decreases ss.len() - i,
{
    if i < 0 || i >= ss.len() {
        None
    } else if ss[i].seq == n {
        Some(ss[i])
    } else {
        numbered(ss, n, i + 1)
    }
}

fn find_numbered(ss: &Vec<Snapshot>, n: u64) -> (r: Option<&Snapshot>)
    ensures
        match r {
            Some(s) => numbered(ss@, n, 0) == Some(*s),
            None => numbered(ss@, n, 0) is None,
        },
{
    let mut i: usize = 0;
    while i < ss.len()
        invariant
            i <= ss@.len(),
            numbered(ss@, n, 0) == numbered(ss@, n, i as int),
        decreases ss@.len() - i,
    {
        if ss[i].seq == n {
            return Some(&ss[i]);
        }
        i += 1;
    }
    None
}

/// `r` is what comparing the snapshots numbered `from` and `to` gives.
pub open spec fn is_comparison(
    r: Result<Transition, PairError>,
    ss: Seq<Snapshot>,
    from: u64,
    to: u64,
) -> bool {
    match (numbered(ss, from, 0), numbered(ss, to, 0)) {
        (None, _) => r matches Err(PairError::NoSnapshot(n)) && n == from,
        (Some(_), None) => r matches Err(PairError::NoSnapshot(n)) && n == to,
        (Some(a), Some(b)) => match (decoded(a.cbor@), decoded(b.cbor@)) {
            (Err(e), _) => r matches Err(PairError::Unreadable(m)) && m@ == e,
            (Ok(_), Err(e)) => r matches Err(PairError::Unreadable(m)) && m@ == e,
            (Ok(x), Ok(y)) => r matches Ok(t) && t@ == transition(
                a.canister@,
                a.key@,
                a,
                b,
                x,
                y,
            ),
        },
    }
}

/// Compare the snapshots numbered `from` and `to`. Those of the same bytes do not differ.
pub fn compare_pair(snapshots: &Vec<Snapshot>, from: u64, to: u64) -> (r: Result<
    Transition,
    PairError,
>)
    ensures
        is_comparison(r, snapshots@, from, to),
        match (numbered(snapshots@, from, 0), numbered(snapshots@, to, 0), r) {
            (Some(a), Some(b), Ok(t)) => a.cbor@ == b.cbor@ ==> t@.deltas.len() == 0,
            _ => true,
        },
{
    let a = match find_numbered(snapshots, from) {
        Some(a) => a,
        None => {
            return Err(PairError::NoSnapshot(from));
        },
    };
    let b = match find_numbered(snapshots, to) {
        Some(b) => b,
        None => {
            return Err(PairError::NoSnapshot(to));
        },
    };
    let x = match decode(a.cbor.as_slice()) {
        Ok(x) => x,
        Err(e) => {
            return Err(PairError::Unreadable(e));
        },
    };
    let y = match decode(b.cbor.as_slice()) {
        Ok(y) => y,
        Err(e) => {
            return Err(PairError::Unreadable(e));
        },
    };
    proof {
        if a.cbor@ == b.cbor@ {
            law_no_difference_to_itself(Seq::empty(), x);
        }
    }
    Ok(make_transition(a.canister.as_str(), a.key.as_str(), a, b, &x, &y))
}

} // verus!
