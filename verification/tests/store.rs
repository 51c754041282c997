//! What the store keeps of an event, and the names of canisters.

use ic_debug::event::{Event, EventKind, TraceId};
use ic_debug::names::{accept_name, add_file, add_mapping, after_delete, list_names, NameTable};
use ic_debug::store::{decompose, place_columns, read_row, RawRow, RowError};

fn columns(k: EventKind) -> (String, Vec<Option<String>>) {
    let c = decompose(&k);
    (c.kind.to_string(), vec![c.method, c.caller, c.target, c.reject, c.snapshot_key])
}

fn some(s: &str) -> Option<String> {
    Some(s.to_string())
}

#[test]
fn each_kind_has_its_columns() {
    assert_eq!(
        columns(EventKind::IngressEntered {
            method: "m".to_string(),
            caller: "c".to_string(),
            args_hash: vec![1],
        }),
        ("ingress_entered".to_string(), vec![some("m"), some("c"), None, None, None])
    );
    assert_eq!(
        columns(EventKind::MethodEntered {
            method: "m".to_string(),
            caller: "c".to_string(),
            args: vec![],
        }),
        ("method_entered".to_string(), vec![some("m"), some("c"), None, None, None])
    );
    assert_eq!(
        columns(EventKind::MethodExited { reject: some("r") }),
        ("method_exited".to_string(), vec![None, None, None, some("r"), None])
    );
    assert_eq!(
        columns(EventKind::CallSpawned {
            target: "t".to_string(),
            method: "m".to_string(),
            args_hash: vec![],
        }),
        ("call_spawned".to_string(), vec![some("m"), None, some("t"), None, None])
    );
    assert_eq!(
        columns(EventKind::CallReturned { reject: None }),
        ("call_returned".to_string(), vec![None, None, None, None, None])
    );
    assert_eq!(
        columns(EventKind::StateSnapshot { key: "k".to_string(), cbor: vec![0] }),
        ("state_snapshot".to_string(), vec![None, None, None, None, some("k")])
    );
    assert_eq!(
        columns(EventKind::TimerFired { label: "l".to_string() }),
        ("timer_fired".to_string(), vec![some("l"), None, None, None, None])
    );
    assert_eq!(
        columns(EventKind::Note { label: "l".to_string() }),
        ("note".to_string(), vec![some("l"), None, None, None, None])
    );
}

fn event(seq: u64, canister: Option<&str>) -> Event {
    Event {
        trace_id: TraceId { bytes: [0xab; 16] },
        seq,
        parent_seq: Some(u64::MAX),
        span_id: 3,
        ts_nanos: u128::MAX,
        canister: canister.map(|c| c.to_string()),
        kind: EventKind::Note { label: "n".to_string() },
    }
}

#[test]
fn place_is_kept_in_columns() {
    let p = place_columns(&event(7, Some("c")));
    assert_eq!(p.trace_id, "abababab-abab-abab-abab-abababababab");
    assert_eq!(p.canister, "c");
    assert_eq!((p.seq, p.parent_seq, p.span_id), (7, Some(-1), 3));
    assert_eq!(p.ts_nanos, "340282366920938463463374607431768211455");
    assert_eq!(place_columns(&event(7, None)).canister, "");
    assert_eq!(place_columns(&event(1 << 63, None)).seq, i64::MIN);
}

fn raw(ts: &str, recv: Option<&str>) -> RawRow {
    RawRow {
        canister: "c".to_string(),
        seq: -1,
        parent_seq: Some(-2),
        span_id: 5,
        ts_nanos: ts.to_string(),
        recv_nanos: recv.map(|s| s.to_string()),
    }
}

fn fired() -> EventKind {
    EventKind::TimerFired { label: "x".to_string() }
}

#[test]
fn row_is_read_back() {
    let r = read_row(raw("12", Some("+34")), fired()).expect("row");
    assert_eq!((r.idx, r.canister.as_str()), (0, "c"));
    assert_eq!((r.seq, r.parent_seq, r.span_id), (u64::MAX, Some(u64::MAX - 1), 5));
    assert_eq!((r.ts_nanos, r.recv_nanos), (12, Some(34)));
    assert!(matches!(r.kind, EventKind::TimerFired { label } if label == "x"));
    assert_eq!(read_row(raw("0", None), fired()).expect("row").recv_nanos, None);
}

#[test]
fn row_with_a_bad_time_is_refused() {
    for ts in ["", "x", "-1", "+", "1 ", "340282366920938463463374607431768211456"] {
        match read_row(raw(ts, None), fired()) {
            Err(RowError::Time(t)) => assert_eq!(t, ts),
            r => panic!("{r:?}"),
        }
    }
    match read_row(raw("1", Some("later")), fired()) {
        Err(RowError::ReceiptTime(t)) => assert_eq!(t, "later"),
        r => panic!("{r:?}"),
    }
}

#[test]
fn what_is_written_is_read_back() {
    for seq in [0, 1, u64::MAX / 2, u64::MAX / 2 + 1, u64::MAX] {
        let p = place_columns(&event(seq, Some("c")));
        let r = read_row(
            RawRow {
                canister: p.canister,
                seq: p.seq,
                parent_seq: p.parent_seq,
                span_id: p.span_id,
                ts_nanos: p.ts_nanos,
                recv_nanos: None,
            },
            fired(),
        )
        .expect("row");
        assert_eq!((r.seq, r.parent_seq, r.ts_nanos), (seq, Some(u64::MAX), u128::MAX));
    }
}

fn table(entries: &[(&str, &str)]) -> NameTable {
    let mut t = NameTable::new();
    for (p, n) in entries {
        t.set(p.to_string(), n.to_string());
    }
    t
}

#[test]
fn first_file_to_name_a_principal_wins() {
    let mut t = NameTable::new();
    add_file(&mut t, vec![("wallet".to_string(), "p2".to_string()), ("a".to_string(), "p1".to_string())]);
    add_file(&mut t, vec![("other".to_string(), "p2".to_string()), ("c".to_string(), "p3".to_string())]);
    assert_eq!(t.len(), 3);
    assert_eq!(t.get("p2").map(|s| s.as_str()), Some("wallet"));
    assert_eq!(t.get("p9"), None);
    let entries: Vec<(&String, &String)> = (0..t.len()).map(|i| t.entry(i)).collect();
    assert_eq!(entries[0], (&"p1".to_string(), &"a".to_string()));
    assert_eq!(entries[2], (&"p3".to_string(), &"c".to_string()));
}

#[test]
fn mapping_files_are_read() {
    let mut t = NameTable::new();
    assert_eq!(add_mapping(&mut t, r#"{"wallet": "p2", "a": "p1", "again": "p1"}"#), Ok(()));
    assert_eq!(t.len(), 2);
    assert_eq!(t.get("p1").map(|s| s.as_str()), Some("a"));
    assert_eq!(t.get("p2").map(|s| s.as_str()), Some("wallet"));
    assert_eq!(add_mapping(&mut t, r#"{"b": "p3", "other": "p2"}"#), Ok(()));
    assert_eq!(t.get("p2").map(|s| s.as_str()), Some("wallet"));
    assert_eq!(t.get("p3").map(|s| s.as_str()), Some("b"));
    assert!(add_mapping(&mut t, r#"{"c": 1}"#).is_err());
    assert!(add_mapping(&mut t, "[]").is_err());
    assert_eq!(
        add_mapping(&mut t, ""),
        Err("EOF while parsing a value at line 1 column 0".to_string())
    );
    assert_eq!(t.len(), 3);
}

#[test]
fn later_name_replaces_an_earlier_one() {
    let t = table(&[("p", "old"), ("p", "new")]);
    assert_eq!(t.len(), 1);
    assert_eq!(t.get("p").map(|s| s.as_str()), Some("new"));
}

#[test]
fn override_comes_before_the_defaults() {
    let overrides = table(&[("p3", "mine"), ("p9", "pasted")]);
    let defaults = table(&[("p3", "three"), ("p1", "one")]);
    let rows: Vec<(String, String, &str, Option<String>)> = list_names(&overrides, &defaults)
        .into_iter()
        .map(|r| (r.principal, r.name, r.source.as_str(), r.default_name))
        .collect();
    assert_eq!(
        rows,
        vec![
            ("p3".to_string(), "mine".to_string(), "override", some("three")),
            ("p9".to_string(), "pasted".to_string(), "override", None),
            ("p1".to_string(), "one".to_string(), "default", some("one")),
        ]
    );
}

#[test]
fn name_is_trimmed_and_must_not_be_empty() {
    assert_eq!(accept_name("  a b \n"), some("a b"));
    assert_eq!(accept_name(" \t"), None);
    assert_eq!(accept_name(""), None);
}

#[test]
fn default_is_left_after_a_delete() {
    let defaults = table(&[("p", "d")]);
    assert_eq!(after_delete(&defaults, "p"), (some("d"), "default"));
    assert_eq!(after_delete(&defaults, "q"), (None, "none"));
}
