//! Recording on the canister's side.

use ic_debug::event::{Event, EventKind, TraceHeader, TraceId};
use ic_debug::instrument::syntax::{Arg, Pattern, Signature, Ty};
use ic_debug::method::{plan_method, trace_method};
use ic_debug::trace::{
    begin_trace, current_header, drain, finish_call, on_method_enter, on_method_exit, record,
    sha256, spawn_call, RingBuffer, Tracer, SINK_CAPACITY,
};

const ID: [u8; 16] =
    [0x12, 0x3e, 0x45, 0x67, 0xe8, 0x9b, 0x12, 0xd3, 0xa4, 0x56, 0x42, 0x66, 0x14, 0x17, 0x40, 0x00];

fn note(label: &str) -> EventKind {
    EventKind::Note { label: label.to_string() }
}

fn label_of(e: &Event) -> &str {
    match &e.kind {
        EventKind::Note { label } => label,
        _ => panic!("not a note: {:?}", e.kind),
    }
}

#[test]
fn trace_id_is_shown_with_hyphens() {
    let id = TraceId { bytes: ID };
    assert_eq!(id.to_text(), "123e4567-e89b-12d3-a456-426614174000");
    assert_eq!(TraceId { bytes: [0; 16] }.to_text(), "00000000-0000-0000-0000-000000000000");
}

#[test]
fn header_gives_its_id_back() {
    let h = TraceHeader::new(TraceId { bytes: ID }, 4, 9);
    assert_eq!(h.id().bytes, ID);
    assert_eq!((h.parent_seq, h.parent_span), (4, 9));
}

#[test]
fn buffer_drops_the_oldest() {
    let mut b = RingBuffer::with_capacity(2);
    for (i, label) in ["a", "b", "c"].iter().enumerate() {
        b.push(Event {
            trace_id: TraceId { bytes: ID },
            seq: i as u64,
            parent_seq: None,
            span_id: 0,
            ts_nanos: 0,
            canister: None,
            kind: note(label),
        });
    }
    let out = b.drain();
    assert_eq!(out.iter().map(label_of).collect::<Vec<_>>(), vec!["b", "c"]);
    assert!(b.drain().is_empty());
}

#[test]
fn a_canister_keeps_the_last_events_only() {
    let mut t = Tracer::new(true);
    begin_trace(&mut t, TraceHeader::new(TraceId { bytes: ID }, 0, 0));
    for _ in 0..SINK_CAPACITY + 1 {
        record(&mut t, note("n"), 0, "c".to_string());
    }
    let out = drain(&mut t);
    assert_eq!(out.len(), 4096);
    assert_eq!(out[0].seq, 1);
    assert_eq!(out[4095].seq, 4096);
}

#[test]
fn nothing_is_recorded_while_off() {
    let mut t = Tracer::new(false);
    begin_trace(&mut t, TraceHeader::new(TraceId { bytes: ID }, 7, 0));
    record(&mut t, note("n"), 0, "c".to_string());
    assert_eq!(t.state.next_seq, 0);
    assert_eq!(t.state.last_seq, Some(7));
    assert!(drain(&mut t).is_empty());
}

#[test]
fn numbers_go_on_before_a_trace_begins() {
    let mut t = Tracer::new(true);
    assert!(current_header(&t).is_none());
    record(&mut t, note("lost"), 0, "c".to_string());
    assert_eq!(begin_trace(&mut t, TraceHeader::new(TraceId { bytes: ID }, 40, 0)), 1);
    record(&mut t, note("kept"), 5, "c".to_string());
    let out = drain(&mut t);
    assert_eq!(out.len(), 1);
    assert_eq!(label_of(&out[0]), "kept");
    assert_eq!(out[0].seq, 1);
    assert_eq!(out[0].parent_seq, Some(40));
    assert_eq!(out[0].span_id, 1);
    assert_eq!(out[0].ts_nanos, 5);
    assert_eq!(out[0].canister.as_deref(), Some("c"));
    assert_eq!(out[0].trace_id.bytes, ID);
}

#[test]
fn each_event_follows_the_one_before() {
    let mut t = Tracer::new(true);
    begin_trace(&mut t, TraceHeader::new(TraceId { bytes: ID }, 0, 0));
    for label in ["a", "b", "c"] {
        record(&mut t, note(label), 0, "c".to_string());
    }
    let out = drain(&mut t);
    assert_eq!(out.iter().map(|e| e.seq).collect::<Vec<_>>(), vec![0, 1, 2]);
    assert_eq!(
        out.iter().map(|e| e.parent_seq).collect::<Vec<_>>(),
        vec![Some(0), Some(0), Some(1)]
    );
}

#[test]
fn method_entry_and_exit_are_recorded() {
    let mut t = Tracer::new(true);
    begin_trace(&mut t, TraceHeader::new(TraceId { bytes: ID }, 0, 0));
    let args = vec![("amount".to_string(), "5".to_string())];
    on_method_enter(&mut t, "pay", args, None, 1, "c".to_string());
    on_method_enter(&mut t, "pay", Vec::new(), Some("me".to_string()), 2, "c".to_string());
    on_method_exit(&mut t, 3, "c".to_string());
    let out = drain(&mut t);
    match &out[0].kind {
        EventKind::MethodEntered { method, caller, args } => {
            assert_eq!(method, "pay");
            assert_eq!(caller, "2vxsx-fae");
            assert_eq!(args, &vec![("amount".to_string(), "5".to_string())]);
        }
        k => panic!("{k:?}"),
    }
    assert!(matches!(&out[1].kind, EventKind::MethodEntered { caller, .. } if caller == "me"));
    assert!(matches!(&out[2].kind, EventKind::MethodExited { reject: None }));
}

#[test]
fn digest_is_the_known_one() {
    let hex: String = sha256(b"abc").iter().map(|b| format!("{b:02x}")).collect();
    assert_eq!(hex, "ba7816bf8f01cfea414140de5dae2223b00361a396177a9cb410ff61f20015ad");
}

#[test]
fn callee_is_linked_to_the_call() {
    let mut caller = Tracer::new(true);
    begin_trace(&mut caller, TraceHeader::new(TraceId { bytes: ID }, 0, 0));
    record(&mut caller, note("before"), 0, "a".to_string());
    let h = spawn_call(&mut caller, "b".to_string(), "m".to_string(), b"abc", 1, "a".to_string());
    assert_eq!((h.trace_id, h.parent_seq, h.parent_span), (ID, 1, 1));
    finish_call(&mut caller, Some("no".to_string()), 2, "a".to_string());

    let mut callee = Tracer::new(true);
    begin_trace(&mut callee, h);
    on_method_enter(&mut callee, "m", Vec::new(), None, 1, "b".to_string());

    let here = drain(&mut caller);
    let there = drain(&mut callee);
    assert!(matches!(&here[1].kind, EventKind::CallSpawned { target, method, args_hash }
        if target == "b" && method == "m" && args_hash.as_slice() == sha256(b"abc").as_slice()));
    assert!(matches!(&here[2].kind, EventKind::CallReturned { reject: Some(r) } if r == "no"));
    assert_eq!(there[0].parent_seq, Some(here[1].seq));
    assert_eq!(there[0].trace_id.bytes, here[1].trace_id.bytes);
}

#[test]
fn call_outside_a_trace_carries_an_empty_header() {
    let mut t = Tracer::new(true);
    let h = spawn_call(&mut t, "b".to_string(), "m".to_string(), b"", 0, "a".to_string());
    assert_eq!((h.trace_id, h.parent_seq, h.parent_span), ([0; 16], 0, 0));
    assert_eq!(t.state.next_seq, 1);
    assert!(drain(&mut t).is_empty());
}

fn plan(src: &str) -> (String, Option<String>, Vec<String>, bool) {
    let p = plan_method(src).expect("parse");
    (p.method, p.header, p.captured, p.is_async)
}

#[test]
fn what_is_no_function_makes_no_plan() {
    assert!(plan_method("struct S;").is_err());
    assert!(plan_method("fn f( {}").is_err());
    assert!(plan_method("").is_err());
}

#[test]
fn plan_is_made_of_the_parameters() {
    let arg = |name: &str| Arg::Typed { pat: Pattern::Ident(name.to_string()), ty: Ty::Other };
    let p = trace_method(&Signature {
        ident: "g".to_string(),
        is_async: true,
        inputs: vec![
            Arg::Receiver,
            Arg::Typed { pat: Pattern::Other, ty: Ty::Other },
            arg("h"),
            arg("x"),
            arg("y"),
        ],
    });
    assert_eq!((p.method.as_str(), p.is_async), ("g", true));
    assert_eq!(p.header.as_deref(), Some("h"));
    assert_eq!(p.captured, vec!["x", "y"]);
}

#[test]
fn first_argument_is_the_header_and_the_others_are_captured() {
    assert_eq!(
        plan("async fn pay(header: TraceHeader, to: Principal, mut n: u64) {}"),
        (
            "pay".to_string(),
            Some("header".to_string()),
            vec!["to".to_string(), "n".to_string()],
            true
        )
    );
    assert_eq!(plan("fn f() {}"), ("f".to_string(), None, vec![], false));
    assert_eq!(
        plan("fn f((a, b): (u8, u8), c: u8) {}"),
        ("f".to_string(), Some("c".to_string()), vec![], false)
    );
}
