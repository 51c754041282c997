//! Recorded state and how it changes.

use ciborium::value::Value;
use ic_debug::diff::{
    build_walk, compare_pair, diff_values, format_value, group_by_ck, pair_of, select,
    strip_quotes, walk, Delta, Options, PairError, Snapshot,
};
use ic_debug::diff_view::{render_walk, show_transition};
use ic_debug::value::{decode, show, values_equal, Datum, DatumKind};

fn bytes(v: &Value) -> Vec<u8> {
    let mut out = Vec::new();
    ciborium::into_writer(v, &mut out).expect("encode");
    out
}

fn datum(v: &Value) -> Datum {
    decode(&bytes(v)).expect("decode")
}

fn text(s: &str) -> Value {
    Value::Text(s.to_string())
}

fn num(n: i64) -> Value {
    Value::Integer(n.into())
}

fn table(entries: Vec<(Value, Value)>) -> Value {
    Value::Map(entries)
}

fn changes(a: &Value, b: &Value) -> Vec<String> {
    diff_values(&datum(a), &datum(b))
        .into_iter()
        .map(|d| match d {
            Delta::Added { path, value } => format!("+ {path} {value}"),
            Delta::Removed { path, value } => format!("- {path} {value}"),
            Delta::Changed { path, from, to } => format!("~ {path} {from} {to}"),
        })
        .collect()
}

#[test]
fn values_are_shown() {
    let shown = |v: Value| format_value(&datum(&v));
    assert_eq!(shown(num(-7)), "-7");
    assert_eq!(shown(Value::Integer(u64::MAX.into())), "18446744073709551615");
    assert_eq!(shown(Value::Float(1.5)), "1.5");
    assert_eq!(shown(text("hi")), "\"hi\"");
    assert_eq!(shown(Value::Bool(true)), "true");
    assert_eq!(shown(Value::Bool(false)), "false");
    assert_eq!(shown(Value::Null), "null");
    assert_eq!(shown(Value::Tag(24, Box::new(num(3)))), "3");
    assert_eq!(shown(Value::Array(vec![num(1), text("a")])), "[1, \"a\"]");
    assert_eq!(shown(Value::Array(vec![])), "[]");
    assert_eq!(shown(table(vec![(text("a"), num(1)), (num(2), Value::Null)])), "{\"a\": 1, 2: null}");
    assert_eq!(shown(Value::Bytes(vec![1, 2, 3, 4, 5, 6, 7, 8])), "b\"0102030405060708\"");
    assert_eq!(shown(Value::Bytes(vec![1, 2, 3, 4, 5, 6, 7, 8, 9])), "b\"0102030405060708…\"");
    assert_eq!(show(&datum(&Value::Bytes(vec![1, 2, 3, 4, 5])), 4), "b\"01020304…\"");
}

#[test]
fn unreadable_bytes_are_refused() {
    assert!(decode(&[0x18]).is_err());
    assert!(decode(&[]).is_err());
}

#[test]
fn values_are_equal_by_their_encoding() {
    assert!(values_equal(&datum(&num(1)), &datum(&num(1))));
    assert!(!values_equal(&datum(&num(1)), &datum(&num(2))));
    assert!(!values_equal(&datum(&num(1)), &datum(&Value::Tag(24, Box::new(num(1))))));
    let unwritten = Datum { kind: DatumKind::Null, encoded: None };
    assert!(!values_equal(&unwritten, &unwritten));
}

#[test]
fn quotes_are_taken_off() {
    assert_eq!(strip_quotes("\"a\""), "a");
    assert_eq!(strip_quotes("\"\""), "");
    assert_eq!(strip_quotes("\""), "\"");
    assert_eq!(strip_quotes("a\""), "a\"");
    assert_eq!(strip_quotes("7"), "7");
}

#[test]
fn fields_are_compared_by_name() {
    let a = table(vec![
        (text("b"), num(1)),
        (text("a"), table(vec![(text("x"), num(1))])),
        (text("gone"), Value::Null),
        (num(7), text("old")),
    ]);
    let b = table(vec![
        (num(7), text("new")),
        (text("a"), table(vec![(text("x"), num(2)), (text("y"), num(3))])),
        (text("b"), num(1)),
        (text("c"), Value::Array(vec![])),
    ]);
    assert_eq!(
        changes(&a, &b),
        vec!["~ /a/x 1 2", "+ /a/y 3", "+ /c []", "- /gone null", "~ /7 \"old\" \"new\""]
    );
}

#[test]
fn items_are_compared_by_place() {
    let a = Value::Array(vec![num(1), num(2), num(3)]);
    let b = Value::Array(vec![num(1), num(9)]);
    assert_eq!(changes(&a, &b), vec!["~ /1 2 9", "- /2 3"]);
    assert_eq!(changes(&b, &a), vec!["~ /1 9 2", "+ /2 3"]);
}

#[test]
fn whole_values_are_compared_at_the_root() {
    assert_eq!(changes(&num(1), &text("1")), vec!["~ / 1 \"1\""]);
    assert_eq!(changes(&num(1), &Value::Array(vec![])), vec!["~ / 1 []"]);
    assert!(changes(&num(1), &num(1)).is_empty());
}

#[test]
fn last_of_two_like_keys_counts() {
    let a = table(vec![(text("k"), num(1)), (text("k"), num(2))]);
    let b = table(vec![(text("k"), num(2))]);
    assert!(changes(&a, &b).is_empty());
}

#[test]
fn differences_turn_round() {
    let a = table(vec![(text("a"), num(1)), (text("b"), num(2))]);
    let b = table(vec![(text("b"), num(3)), (text("c"), num(4))]);
    assert_eq!(changes(&a, &b), vec!["- /a 1", "~ /b 2 3", "+ /c 4"]);
    assert_eq!(changes(&b, &a), vec!["+ /a 1", "~ /b 3 2", "- /c 4"]);
}

fn snap(canister: &str, key: &str, seq: u64, v: &Value) -> Snapshot {
    Snapshot { canister: canister.to_string(), key: key.to_string(), seq, cbor: bytes(v) }
}

fn history() -> Vec<Snapshot> {
    vec![
        snap("b-1", "k", 4, &num(4)),
        snap("a-1", "k", 5, &table(vec![(text("n"), num(2))])),
        snap("a-1", "k", 2, &table(vec![(text("n"), num(1))])),
        snap("a-1", "k", 9, &table(vec![(text("n"), num(2))])),
        snap("a-1", "j", 1, &text("x")),
    ]
}

#[test]
fn snapshots_are_grouped_and_ordered() {
    let gs = group_by_ck(history());
    let seen: Vec<(&str, &str, Vec<u64>)> = gs
        .iter()
        .map(|g| (g.a.as_str(), g.b.as_str(), g.items.iter().map(|s| s.seq).collect()))
        .collect();
    assert_eq!(
        seen,
        vec![("a-1", "j", vec![1]), ("a-1", "k", vec![2, 5, 9]), ("b-1", "k", vec![4])]
    );
}

#[test]
fn walk_gives_each_step_and_each_single_snapshot() {
    let (ts, is) = walk(history()).expect("walk");
    let steps: Vec<(&str, &str, u64, u64, usize)> = ts
        .iter()
        .map(|t| (t.canister.as_str(), t.key.as_str(), t.from_seq, t.to_seq, t.deltas.len()))
        .collect();
    assert_eq!(steps, vec![("a-1", "k", 2, 5, 1), ("a-1", "k", 5, 9, 0)]);
    let single: Vec<(&str, &str, u64, &str)> = is
        .iter()
        .map(|i| (i.canister.as_str(), i.key.as_str(), i.seq, i.value.as_str()))
        .collect();
    assert_eq!(single, vec![("a-1", "j", 1, "\"x\""), ("b-1", "k", 4, "4")]);
}

#[test]
fn walk_fails_on_an_unreadable_snapshot() {
    let mut ss = history();
    ss[0].cbor = vec![0x18];
    assert!(walk(ss).is_err());
}

#[test]
fn walk_is_rendered() {
    let gs = group_by_ck(history());
    let (ts, is) = build_walk(&gs).expect("walk");
    assert_eq!(
        render_walk("t", &gs, &ts, &is),
        "═══ state transitions in trace t ═══\n  3 snapshot group(s) · 2 transition(s) · 2 \
         single-snapshot(s)\n\n[a] j  (1 snapshot(s))\n  · initial @ seq=1: \"x\"\n\n[a] k  (3 \
         snapshot(s))\n  seq 2 → 5:\n    ~ /n: 1 → 2\n  seq 5 → 9: (no structural change)\n\n[b] k  \
         (1 snapshot(s))\n  · initial @ seq=4: 4\n\n"
    );
}

#[test]
fn transition_lists_what_came_and_went() {
    let ss = vec![
        snap("a", "k", 1, &table(vec![(text("x"), num(1))])),
        snap("a", "k", 2, &table(vec![(text("y"), num(1))])),
    ];
    let t = compare_pair(&ss, 1, 2).expect("compare");
    assert_eq!(show_transition(&t), "  seq 1 → 2:\n    - /x = 1\n    + /y = 1\n");
}

#[test]
fn snapshots_are_selected() {
    let seqs = |c: Option<&str>, k: Option<&str>| -> Vec<u64> {
        select(history(), c, k).iter().map(|s| s.seq).collect()
    };
    assert_eq!(seqs(None, None), vec![4, 5, 2, 9, 1]);
    assert_eq!(seqs(Some("a-1"), None), vec![5, 2, 9, 1]);
    assert_eq!(seqs(None, Some("k")), vec![4, 5, 2, 9]);
    assert_eq!(seqs(Some("a-1"), Some("j")), vec![1]);
    assert!(seqs(Some("a"), None).is_empty());
}

fn options(from: Option<u64>, to: Option<u64>, scoped: bool) -> Options {
    Options {
        store: "s".to_string(),
        trace: "t".to_string(),
        canister: if scoped { Some("a".to_string()) } else { None },
        key: Some("k".to_string()),
        from,
        to,
        json: false,
    }
}

#[test]
fn pair_needs_both_ends_and_a_scope() {
    assert!(matches!(pair_of(&options(None, None, false)), Ok(None)));
    assert!(matches!(pair_of(&options(Some(1), Some(2), true)), Ok(Some((1, 2)))));
    let message = |o: Options| pair_of(&o).unwrap_err().message();
    assert_eq!(message(options(None, Some(2), true)), "--from required when --to is set");
    assert_eq!(message(options(Some(1), None, false)), "--to required when --from is set");
    assert_eq!(
        message(options(Some(1), Some(2), false)),
        "--from/--to requires --canister and --key to disambiguate the snapshot pair"
    );
}

#[test]
fn pair_is_compared() {
    let mut ss = select(history(), Some("a-1"), Some("k"));
    let t = compare_pair(&ss, 9, 2).expect("compare");
    assert_eq!((t.from_seq, t.to_seq, t.deltas.len()), (9, 2, 1));
    assert_eq!((t.canister.as_str(), t.key.as_str()), ("a-1", "k"));
    let e = compare_pair(&ss, 9, 3).unwrap_err();
    assert_eq!(e.message(), "no snapshot with seq=3 for that canister+key");
    assert!(matches!(compare_pair(&ss, 8, 3), Err(PairError::NoSnapshot(8))));
    ss[0].cbor = vec![0x18];
    let e = compare_pair(&ss, 5, 2).unwrap_err();
    assert!(matches!(e, PairError::Unreadable(_)));
    assert!(e.message().starts_with("decode CBOR snapshot"));
}

#[test]
fn order_of_snapshots_does_not_matter() {
    let mut turned = history();
    turned.reverse();
    let (ts, is) = walk(history()).expect("walk");
    let (us, js) = walk(turned).expect("walk");
    assert_eq!(format!("{ts:?}"), format!("{us:?}"));
    assert_eq!(format!("{is:?}"), format!("{js:?}"));
}

#[test]
fn snapshots_of_the_same_bytes_do_not_differ() {
    let v = table(vec![
        (text("a"), Value::Tag(7, Box::new(Value::Array(vec![num(1), Value::Null])))),
        (num(2), Value::Float(f64::NAN)),
        (text("b"), Value::Array(vec![table(vec![(text("c"), Value::Bytes(vec![1, 2]))])])),
        (text("d"), Value::Integer(u64::MAX.into())),
    ]);
    assert!(changes(&v, &v).is_empty());
    let snapshot = |seq: u64| Snapshot {
        canister: "a".to_string(),
        key: "k".to_string(),
        seq,
        cbor: bytes(&v),
    };
    let ss = vec![snapshot(1), snapshot(2)];
    assert!(compare_pair(&ss, 1, 2).expect("compare").deltas.is_empty());
    let (ts, initials) = walk(ss).expect("walk");
    assert_eq!((ts.len(), initials.len()), (1, 0));
    assert!(ts[0].deltas.is_empty());
}
