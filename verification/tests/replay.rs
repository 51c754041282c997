//! A trace read back and told as one story.

use ic_debug::event::EventKind;
use ic_debug::replay::{reorder_causal, summarize, timeline, EventRow, TraceSummary};
use ic_debug::replay_view::{quits, show_event, show_footer, show_header, show_kind};

fn row(canister: &str, seq: u64, parent_seq: Option<u64>, ts: u128, kind: EventKind) -> EventRow {
    EventRow {
        idx: 0,
        canister: canister.to_string(),
        seq,
        parent_seq,
        span_id: 1,
        ts_nanos: ts,
        recv_nanos: None,
        kind,
    }
}

fn note(label: &str) -> EventKind {
    EventKind::Note { label: label.to_string() }
}

fn call(target: &str) -> EventKind {
    EventKind::CallSpawned {
        target: target.to_string(),
        method: "m".to_string(),
        args_hash: vec![0xde, 0xad, 0xbe, 0xef, 0x01],
    }
}

fn enter(method: &str, args: &[(&str, &str)]) -> EventKind {
    EventKind::MethodEntered {
        method: method.to_string(),
        caller: "aaaaa-aa".to_string(),
        args: args.iter().map(|(n, v)| (n.to_string(), v.to_string())).collect(),
    }
}

fn order(rows: &[EventRow]) -> Vec<(&str, u64)> {
    rows.iter().map(|e| (e.canister.as_str(), e.seq)).collect()
}

#[test]
fn events_of_a_callee_stand_behind_the_call() {
    let out = reorder_causal(vec![
        row("b", 0, Some(1), 5, note("in")),
        row("a", 2, Some(1), 5, note("after")),
        row("a", 0, None, 5, note("start")),
        row("b", 1, Some(0), 5, note("out")),
        row("a", 1, Some(0), 5, call("b")),
    ]);
    assert_eq!(order(&out), vec![("a", 0), ("a", 1), ("b", 0), ("b", 1), ("a", 2)]);
}

#[test]
fn calls_are_followed_in_depth() {
    let out = reorder_causal(vec![
        row("a", 0, Some(0), 1, call("b")),
        row("a", 1, Some(0), 1, note("end")),
        row("b", 0, Some(9), 1, call("c")),
        row("b", 1, Some(0), 1, note("end")),
        row("c", 0, Some(9), 1, call("a")),
    ]);
    assert_eq!(order(&out), vec![("a", 0), ("b", 0), ("c", 0), ("b", 1), ("a", 1)]);
}

#[test]
fn each_entry_stands_behind_its_own_call() {
    let exit = || EventKind::MethodExited { reject: None };
    let back = || EventKind::CallReturned { reject: None };
    let out = reorder_causal(vec![
        row("a", 0, None, 1, enter("m", &[])),
        row("a", 1, Some(0), 1, call("b")),
        row("a", 2, Some(1), 1, back()),
        row("a", 3, Some(2), 1, call("b")),
        row("a", 4, Some(3), 1, back()),
        row("a", 5, Some(4), 1, exit()),
        row("b", 0, Some(1), 1, enter("m", &[])),
        row("b", 1, Some(0), 1, exit()),
        row("b", 2, Some(3), 1, enter("m", &[])),
        row("b", 3, Some(2), 1, exit()),
    ]);
    assert_eq!(
        order(&out),
        vec![
            ("a", 0),
            ("a", 1),
            ("b", 0),
            ("b", 1),
            ("a", 2),
            ("a", 3),
            ("b", 2),
            ("b", 3),
            ("a", 4),
            ("a", 5)
        ]
    );
}

#[test]
fn canister_without_entries_is_told_at_the_first_call() {
    let out = reorder_causal(vec![
        row("a", 0, None, 1, call("b")),
        row("a", 1, Some(0), 1, call("b")),
        row("b", 0, Some(1), 1, note("first")),
        row("b", 1, Some(2), 1, note("second")),
    ]);
    assert_eq!(order(&out), vec![("a", 0), ("b", 0), ("b", 1), ("a", 1)]);
}

#[test]
fn canister_keeps_its_order_where_entries_and_calls_cross() {
    let out = reorder_causal(vec![
        row("a", 0, None, 1, call("b")),
        row("a", 1, Some(0), 1, call("b")),
        row("b", 0, Some(1), 1, enter("second", &[])),
        row("b", 1, Some(0), 1, note("second")),
        row("b", 2, Some(0), 1, enter("first", &[])),
        row("b", 3, Some(2), 1, note("first")),
    ]);
    assert_eq!(
        order(&out),
        vec![("a", 0), ("b", 0), ("b", 1), ("b", 2), ("b", 3), ("a", 1)]
    );
}

#[test]
fn call_back_into_the_first_canister_is_told_where_it_is_made() {
    let exit = || EventKind::MethodExited { reject: None };
    let out = reorder_causal(vec![
        row("a", 0, None, 1, enter("m", &[])),
        row("a", 1, Some(0), 1, call("b")),
        row("a", 2, Some(1), 1, enter("n", &[])),
        row("a", 3, Some(2), 1, exit()),
        row("a", 4, Some(3), 1, EventKind::CallReturned { reject: None }),
        row("a", 5, Some(4), 1, exit()),
        row("b", 0, Some(1), 1, enter("m", &[])),
        row("b", 1, Some(0), 1, call("a")),
        row("b", 2, Some(1), 1, exit()),
    ]);
    assert_eq!(
        order(&out),
        vec![
            ("a", 0),
            ("a", 1),
            ("b", 0),
            ("b", 1),
            ("a", 2),
            ("a", 3),
            ("b", 2),
            ("a", 4),
            ("a", 5)
        ]
    );
}

#[test]
fn call_back_that_was_told_is_not_told_again() {
    let exit = || EventKind::MethodExited { reject: None };
    let out = reorder_causal(vec![
        row("a", 0, None, 1, enter("m", &[])),
        row("a", 1, Some(0), 1, exit()),
        row("a", 2, Some(1), 1, enter("back", &[])),
        row("a", 3, Some(2), 1, exit()),
        row("a", 4, None, 1, enter("m", &[])),
        row("a", 5, Some(4), 1, call("b")),
        row("a", 6, Some(5), 1, exit()),
        row("b", 0, Some(5), 1, enter("m", &[])),
        row("b", 1, Some(0), 1, call("a")),
        row("b", 2, Some(1), 1, exit()),
    ]);
    assert_eq!(
        order(&out),
        vec![
            ("a", 0),
            ("a", 1),
            ("a", 2),
            ("a", 3),
            ("a", 4),
            ("a", 5),
            ("b", 0),
            ("b", 1),
            ("b", 2),
            ("a", 6)
        ]
    );
}

#[test]
fn numbers_of_a_canister_ascend() {
    let exit = || EventKind::MethodExited { reject: None };
    let out = reorder_causal(vec![
        row("a", 3, Some(2), 1, exit()),
        row("a", 2, Some(1), 1, exit()),
        row("a", 1, Some(0), 1, enter("n", &[])),
        row("a", 0, Some(0), 1, enter("m", &[])),
    ]);
    assert_eq!(order(&out), vec![("a", 0), ("a", 1), ("a", 2), ("a", 3)]);
    let ingress = EventKind::IngressEntered {
        method: "m".to_string(),
        caller: "c".to_string(),
        args_hash: vec![],
    };
    let out = reorder_causal(vec![
        row("a", 0, Some(0), 1, ingress),
        row("a", 1, Some(0), 1, enter("m", &[])),
        row("a", 2, Some(1), 1, exit()),
        row("a", 3, Some(2), 1, note("late")),
    ]);
    assert_eq!(order(&out), vec![("a", 0), ("a", 1), ("a", 2), ("a", 3)]);
}

#[test]
fn pending_events_come_before_the_entry() {
    let exit = || EventKind::MethodExited { reject: None };
    let out = reorder_causal(vec![
        row("a", 0, None, 1, enter("m", &[])),
        row("a", 1, Some(0), 1, call("b")),
        row("a", 2, Some(1), 1, call("b")),
        row("a", 3, Some(2), 1, exit()),
        row("b", 0, Some(1), 1, enter("m", &[])),
        row("b", 1, Some(0), 1, exit()),
        row("b", 2, Some(1), 1, note("between")),
        row("b", 3, Some(2), 1, enter("m", &[])),
        row("b", 4, Some(3), 1, exit()),
        row("b", 5, Some(4), 1, note("after")),
    ]);
    assert_eq!(
        order(&out),
        vec![
            ("a", 0),
            ("a", 1),
            ("b", 0),
            ("b", 1),
            ("a", 2),
            ("b", 2),
            ("b", 3),
            ("b", 4),
            ("a", 3),
            ("b", 5)
        ]
    );
}

#[test]
fn entries_without_a_link_are_told_call_by_call() {
    let out = reorder_causal(vec![
        row("a", 1, None, 1, call("b")),
        row("a", 2, Some(1), 1, call("b")),
        row("a", 3, Some(2), 1, call("b")),
        row("b", 0, Some(0), 1, enter("m", &[])),
        row("b", 1, Some(0), 1, note("one")),
        row("b", 2, Some(0), 1, enter("m", &[])),
        row("b", 3, Some(3), 1, enter("linked", &[])),
    ]);
    assert_eq!(
        order(&out),
        vec![("a", 1), ("b", 0), ("b", 1), ("a", 2), ("b", 2), ("a", 3), ("b", 3)]
    );
}

#[test]
fn canisters_that_nobody_called_come_last() {
    let out = reorder_causal(vec![
        row("z", 3, Some(7), 1, note("z3")),
        row("z", 2, Some(7), 1, note("z2")),
        row("y", 0, Some(7), 1, note("y")),
        row("m", 0, None, 1, note("m")),
    ]);
    assert_eq!(order(&out), vec![("m", 0), ("y", 0), ("z", 2), ("z", 3)]);
}

#[test]
fn without_a_root_time_decides() {
    let out = reorder_causal(vec![
        row("b", 0, Some(3), 1, note("")),
        row("a", 1, Some(3), 2, note("")),
        row("a", 0, Some(3), 2, note("")),
        row("c", 0, Some(3), 2, note("")),
    ]);
    assert_eq!(order(&out), vec![("b", 0), ("a", 0), ("a", 1), ("c", 0)]);
}

#[test]
fn places_are_counted_from_one() {
    let out = timeline(vec![row("a", 1, None, 1, note("")), row("a", 0, None, 1, note(""))]);
    assert_eq!(order(&out), vec![("a", 0), ("a", 1)]);
    assert_eq!(out.iter().map(|e| e.idx).collect::<Vec<_>>(), vec![1, 2]);
    assert!(timeline(Vec::new()).is_empty());
}

fn sample() -> Vec<EventRow> {
    timeline(vec![
        row("aaa-1", 0, None, 1_000, enter("pay", &[("n", "5"), ("to", "x")])),
        row("aaa-1", 1, Some(0), 2_000, call("bbbbbb-2")),
        row("aaa-1", 2, Some(1), 9_500, EventKind::CallReturned { reject: Some("no".to_string()) }),
        row("aaa-1", 3, Some(2), 12_345_999, EventKind::MethodExited { reject: None }),
        row("bbbbbb-2", 0, Some(1), 3_000, note("here")),
    ])
}

#[test]
fn summary_counts() {
    let events = sample();
    let s = summarize("t", 77, "demo".to_string(), &events);
    assert_eq!(s.trace_id, "t");
    assert_eq!((s.started_at, s.label.as_str()), (77, "demo"));
    assert_eq!(s.event_count, 5);
    assert_eq!(s.canisters, vec!["aaa-1", "bbbbbb-2"]);
    assert_eq!(s.duration_nanos, 12_344_999);
    assert_eq!((s.call_spawned, s.rejects), (1, 1));
    let none = summarize("t", 0, String::new(), &Vec::new());
    assert_eq!((none.event_count, none.duration_nanos, none.canisters.len()), (0, 0, 0));
}

#[test]
fn rejected_exit_counts_as_reject() {
    let events = timeline(vec![
        row("a", 0, None, 1, EventKind::MethodExited { reject: Some("x".to_string()) }),
        row("a", 1, None, 1, EventKind::CallReturned { reject: None }),
    ]);
    assert_eq!(summarize("t", 0, String::new(), &events).rejects, 1);
}

#[test]
fn timeline_lines_are_shown() {
    let events = sample();
    let lines: Vec<String> = (0..events.len()).map(|i| show_event(&events, i, true)).collect();
    assert_eq!(
        lines,
        vec![
            "#001 +     0µs [aaa  ] seq=0       ▶ ENTER   pay(n=5, to=x)  caller=aaaaa",
            "#002 +     1µs [aaa  ] seq=1  ←0   │ → CALL    m on bbbbbb  args_hash=deadbeef…",
            "#003 +     2µs [bbbbbb] seq=0  ←1   · NOTE    here",
            "#004 +     8µs [aaa  ] seq=2  ←1   │ ✗ RET     reject=no",
            "#005 + 12344µs [aaa  ] seq=3  ←2   ◀ EXIT",
        ]
    );
}

#[test]
fn exit_without_entry_stays_at_the_margin() {
    let events = timeline(vec![
        row("a", 0, None, 0, EventKind::MethodExited { reject: None }),
        row("a", 1, None, 0, note("n")),
    ]);
    assert!(show_event(&events, 0, true).ends_with("   ◀ EXIT"));
    assert!(show_event(&events, 1, true).ends_with("   · NOTE    n"));
}

#[test]
fn every_kind_is_shown() {
    let text = |k: EventKind| show_kind(&k, true);
    assert_eq!(
        text(EventKind::IngressEntered {
            method: "m".to_string(),
            caller: "abc-def".to_string(),
            args_hash: vec![],
        }),
        "▶ INGRESS m  caller=abc"
    );
    assert_eq!(text(enter("m", &[])), "▶ ENTER   m  caller=aaaaa");
    assert_eq!(
        text(EventKind::MethodExited { reject: Some("r".to_string()) }),
        "✗ EXIT    reject=r"
    );
    assert_eq!(text(EventKind::CallReturned { reject: None }), "← RET     ok");
    assert_eq!(text(EventKind::TimerFired { label: "t".to_string() }), "⏰ TIMER  t");
    assert_eq!(
        text(EventKind::CallSpawned {
            target: "x".to_string(),
            method: "m".to_string(),
            args_hash: vec![1, 2, 3, 4],
        }),
        "→ CALL    m on x  args_hash=01020304"
    );
}

#[test]
fn state_is_shown_decoded_or_by_size() {
    let good = EventKind::StateSnapshot { key: "k".to_string(), cbor: vec![0x18, 0x2a] };
    assert_eq!(show_kind(&good, true), "• STATE   k = 42");
    assert_eq!(show_kind(&good, false), "• STATE   k  (2 bytes cbor)");
    let bad = EventKind::StateSnapshot { key: "k".to_string(), cbor: vec![0x18] };
    assert_eq!(show_kind(&bad, true), "• STATE   k  (1 bytes cbor, undecodable)");
}

fn summary(label: &str, rejects: usize) -> TraceSummary {
    TraceSummary {
        trace_id: "t".to_string(),
        started_at: 0,
        label: label.to_string(),
        event_count: 3,
        canisters: vec!["a".to_string(), "b".to_string()],
        duration_nanos: 2_999,
        call_spawned: 1,
        rejects,
    }
}

#[test]
fn header_is_shown() {
    assert_eq!(
        show_header(&summary("demo", 2)),
        "═══ trace t ═══\n  label:     demo\n  events:    3\n  duration:  2 µs\n  canisters: 2\n    \
         · a\n    · b\n  calls:     1   rejects: 2\n\n"
    );
    assert!(!show_header(&summary("", 0)).contains("label"));
}

#[test]
fn footer_tells_of_rejects() {
    assert_eq!(show_footer(&summary("", 0)), "\n✓ replay complete, no rejects observed.\n");
    assert_eq!(
        show_footer(&summary("", 2)),
        "\n⚠ 2 reject event(s) observed — see entries marked ✗ above.\n"
    );
}

#[test]
fn stepping_ends_on_q() {
    assert!(quits("q\n"));
    assert!(quits("  Q \r\n"));
    assert!(!quits("\n"));
    assert!(!quits("quit"));
}

#[test]
fn order_of_reading_does_not_matter() {
    let rows = |turned: bool| {
        let mut v = vec![
            row("a", 0, None, 1, call("b")),
            row("a", 1, Some(0), 2, note("end")),
            row("b", 0, Some(9), 3, note("in")),
            row("b", 1, Some(0), 4, note("out")),
            row("c", 0, Some(9), 0, note("lost")),
        ];
        if turned {
            v.reverse();
        }
        v
    };
    let out = reorder_causal(rows(false));
    assert_eq!(order(&out), order(&reorder_causal(rows(true))));
    assert_eq!(order(&out), vec![("a", 0), ("b", 0), ("b", 1), ("a", 1), ("c", 0)]);
}

#[test]
fn deep_chain_unwinds() {
    let names = ["a", "b", "c", "d", "e"];
    let mut rows = Vec::new();
    for (i, name) in names.iter().enumerate().rev() {
        let parent = if i == 0 { None } else { Some(1) };
        rows.push(row(name, 0, parent, 1, enter("m", &[])));
        if i + 1 < names.len() {
            rows.push(row(name, 1, Some(0), 1, call(names[i + 1])));
            rows.push(row(name, 2, Some(1), 1, EventKind::CallReturned { reject: None }));
        }
        rows.push(row(name, 3, Some(2), 1, EventKind::MethodExited { reject: None }));
    }
    let out = reorder_causal(rows);
    assert_eq!(
        order(&out),
        vec![
            ("a", 0), ("a", 1), ("b", 0), ("b", 1), ("c", 0), ("c", 1), ("d", 0), ("d", 1),
            ("e", 0), ("e", 3), ("d", 2), ("d", 3), ("c", 2), ("c", 3), ("b", 2), ("b", 3),
            ("a", 2), ("a", 3),
        ]
    );
}

#[test]
fn fan_out_is_told_call_by_call() {
    let mut rows = vec![row("a", 0, None, 1, enter("m", &[]))];
    for n in 0..12 {
        rows.push(row("a", 2 * n + 1, Some(2 * n), 1, call("b")));
        rows.push(row("a", 2 * n + 2, Some(2 * n + 1), 1, EventKind::CallReturned { reject: None }));
        rows.push(row("b", 2 * n, Some(2 * n + 1), 1, enter("m", &[])));
        rows.push(row("b", 2 * n + 1, Some(2 * n), 1, EventKind::MethodExited { reject: None }));
    }
    let out = reorder_causal(rows);
    assert_eq!(out.len(), 49);
    for n in 0..12 {
        let at = 1 + 4 * n as usize;
        assert_eq!(
            order(&out[at..at + 4]),
            vec![("a", 2 * n + 1), ("b", 2 * n), ("b", 2 * n + 1), ("a", 2 * n + 2)]
        );
    }
}
