//! How events lie in the store: what goes into the columns, and what is read
//! back from them.

use vstd::prelude::*;
use vstd::string::*;

use crate::event::{hyphenated, Event, EventKind};
use crate::replay::EventRow;
use crate::text::{dec, decimal, law_decimal_reads_back, parse_u128, parsed_nat};

verus! {

/// The columns that are drawn from what happened.
#[derive(Debug)]
pub struct KindColumns {
    pub kind: &'static str,
    pub method: Option<String>,
    pub caller: Option<String>,
    pub target: Option<String>,
    pub reject: Option<String>,
    pub snapshot_key: Option<String>,
}

/// The columns that are drawn from what happened, as mathematical values.
pub struct KindColumnsView {
    pub kind: Seq<char>,
    pub method: Option<Seq<char>>,
    pub caller: Option<Seq<char>>,
    pub target: Option<Seq<char>>,
    pub reject: Option<Seq<char>>,
    pub snapshot_key: Option<Seq<char>>,
}

/// The view of an optional string.
pub open spec fn text_of(s: Option<String>) -> Option<Seq<char>> {
    match s {
        Some(t) => Some(t@),
        None => None,
    }
}

impl View for KindColumns {
    type V = KindColumnsView;

    open spec fn view(&self) -> KindColumnsView {
        KindColumnsView {
            kind: self.kind@,
            method: text_of(self.method),
            caller: text_of(self.caller),
            target: text_of(self.target),
            reject: text_of(self.reject),
            snapshot_key: text_of(self.snapshot_key),
        }
    }
}

/// Columns with nothing in them but the kind.
pub open spec fn bare(kind: Seq<char>) -> KindColumnsView {
    KindColumnsView {
        kind,
        method: None,
        caller: None,
        target: None,
        reject: None,
        snapshot_key: None,
    }
}

/// What goes into the columns for what happened.
pub open spec fn columns_of(k: EventKind) -> KindColumnsView {
    match k {
        EventKind::IngressEntered { method, caller, .. } => KindColumnsView {
            method: Some(method@),
            caller: Some(caller@),
            ..bare("ingress_entered"@)
        },
        EventKind::MethodEntered { method, caller, .. } => KindColumnsView {
            method: Some(method@),
            caller: Some(caller@),
            ..bare("method_entered"@)
        },
        EventKind::MethodExited { reject } => KindColumnsView {
            reject: text_of(reject),
            ..bare("method_exited"@)
        },
        EventKind::CallSpawned { target, method, .. } => KindColumnsView {
            method: Some(method@),
            target: Some(target@),
            ..bare("call_spawned"@)
        },
        EventKind::CallReturned { reject } => KindColumnsView {
            reject: text_of(reject),
            ..bare("call_returned"@)
        },
        EventKind::StateSnapshot { key, .. } => KindColumnsView {
            snapshot_key: Some(key@),
            ..bare("state_snapshot"@)
        },
        EventKind::TimerFired { label } => KindColumnsView {
            method: Some(label@),
            ..bare("timer_fired"@)
        },
        EventKind::Note { label } => KindColumnsView { method: Some(label@), ..bare("note"@) },
    }
}

fn copy(s: &Option<String>) -> (r: Option<String>)
    ensures
        text_of(r) == text_of(*s),
{
    match s {
        Some(t) => Some(t.clone()),
        None => None,
    }
}

/// What goes into the columns for what happened.
pub fn decompose(k: &EventKind) -> (r: KindColumns)
    ensures
        r@ == columns_of(*k),
{
    let mut c = KindColumns {
        kind: "",
        method: None,
        caller: None,
        target: None,
        reject: None,
        snapshot_key: None,
    };
    match k {
        EventKind::IngressEntered { method, caller, .. } => {
            c.kind = "ingress_entered";
            c.method = Some(method.clone());
            c.caller = Some(caller.clone());
        },
        EventKind::MethodEntered { method, caller, .. } => {
            c.kind = "method_entered";
            c.method = Some(method.clone());
            c.caller = Some(caller.clone());
        },
        EventKind::MethodExited { reject } => {
            c.kind = "method_exited";
            c.reject = copy(reject);
        },
        EventKind::CallSpawned { target, method, .. } => {
            c.kind = "call_spawned";
            c.method = Some(method.clone());
            c.target = Some(target.clone());
        },
        EventKind::CallReturned { reject } => {
            c.kind = "call_returned";
            c.reject = copy(reject);
        },
        EventKind::StateSnapshot { key, .. } => {
            c.kind = "state_snapshot";
            c.snapshot_key = Some(key.clone());
        },
        EventKind::TimerFired { label } => {
            c.kind = "timer_fired";
            c.method = Some(label.clone());
        },
        EventKind::Note { label } => {
            c.kind = "note";
            c.method = Some(label.clone());
        },
    }
    c
}

/// The columns that number an event and say where it stands. The store has signed numbers of
/// sixty-four bits; times are longer and lie as text.
#[derive(Debug)]
pub struct PlaceColumns {
    pub trace_id: String,
    pub canister: String,
    pub seq: i64,
    pub parent_seq: Option<i64>,
    pub span_id: i64,
    pub ts_nanos: String,
}

/// A number as the store has it: the same sixty-four bits with a sign.
pub open spec fn signed(n: u64) -> i64 {
    n as i64
}

/// A number of the store as it was: the same sixty-four bits without a sign.
pub open spec fn unsigned(n: i64) -> u64 {
    n as u64
}

/// An optional number as the store has it.
pub open spec fn opt_signed(n: Option<u64>) -> Option<i64> {
    match n {
        Some(n) => Some(signed(n)),
        None => None,
    }
}

/// An optional number of the store as it was.
pub open spec fn opt_unsigned(n: Option<i64>) -> Option<u64> {
    match n {
        Some(n) => Some(unsigned(n)),
        None => None,
    }
}

/// What goes into the columns that say where an event stands. An event of no canister has the
/// empty name.
pub fn place_columns(ev: &Event) -> (r: PlaceColumns)
    ensures
        r.trace_id@ == hyphenated(ev.trace_id@),
        r.canister@ == (match ev.canister {
            Some(c) => c@,
            None => ""@,
        }),
        r.seq == signed(ev.seq),
        r.parent_seq == opt_signed(ev.parent_seq),
        r.span_id == signed(ev.span_id),
        r.ts_nanos@ == dec(ev.ts_nanos as nat),
{
    PlaceColumns {
        trace_id: ev.trace_id.to_text(),
        canister: match &ev.canister {
            Some(c) => c.clone(),
            None => String::from_str(""),
        },
        seq: ev.seq as i64,
        parent_seq: match ev.parent_seq {
            Some(n) => Some(n as i64),
            None => None,
        },
        span_id: ev.span_id as i64,
        ts_nanos: decimal(ev.ts_nanos),
    }
}

/// What a row holds beside what happened.
#[derive(Debug)]
pub struct RawRow {
    pub canister: String,
    pub seq: i64,
    pub parent_seq: Option<i64>,
    pub span_id: i64,
    pub ts_nanos: String,
    pub recv_nanos: Option<String>,
}

/// Why a row cannot be read.
#[derive(Debug)]
pub enum RowError {
    /// The time is no number that fits.
    Time(String),
    /// The time of receipt is no number that fits.
    ReceiptTime(String),
}

/// The time that a text holds, where it holds one that fits.
pub open spec fn time(text: Seq<char>) -> Option<u128> {
    match parsed_nat(text) {
        Some(n) => if n <= u128::MAX {
            Some(n as u128)
        } else {
            None
        },
        None => None,
    }
}

/// `r` is what is read from `raw` and what happened.
pub open spec fn is_row(r: Result<EventRow, RowError>, raw: RawRow, kind: EventKind) -> bool {
    match time(raw.ts_nanos@) {
        None => r matches Err(RowError::Time(text)) && text@ == raw.ts_nanos@,
        Some(ts) => {
            let row = |recv: Option<u128>|
                EventRow {
                    idx: 0,
                    canister: raw.canister,
                    seq: unsigned(raw.seq),
                    parent_seq: opt_unsigned(raw.parent_seq),
                    span_id: unsigned(raw.span_id),
                    ts_nanos: ts,
                    recv_nanos: recv,
                    kind,
                };
            match raw.recv_nanos {
                None => r == Ok::<EventRow, RowError>(row(None)),
                Some(text) => match time(text@) {
                    None => r matches Err(RowError::ReceiptTime(t)) && t@ == text@,
                    Some(recv) => r == Ok::<EventRow, RowError>(row(Some(recv))),
                },
            }
        },
    }
}

/// Read a row. Its place in the timeline is not known yet.
pub fn read_row(raw: RawRow, kind: EventKind) -> (r: Result<EventRow, RowError>)
    ensures
        is_row(r, raw, kind),
{
    let ts_nanos = match parse_u128(raw.ts_nanos.as_str()) {
        Some(n) => n,
        None => {
            return Err(RowError::Time(raw.ts_nanos));
        },
    };
    let recv_nanos = match raw.recv_nanos {
        None => None,
        Some(text) => match parse_u128(text.as_str()) {
            Some(n) => Some(n),
            None => {
                return Err(RowError::ReceiptTime(text));
            },
        },
    };
    Ok(
        EventRow {
            idx: 0,
            canister: raw.canister,
            seq: raw.seq as u64,
            parent_seq: match raw.parent_seq {
                Some(n) => Some(n as u64),
                None => None,
            },
            span_id: raw.span_id as u64,
            ts_nanos,
            recv_nanos,
            kind,
        },
    )
}

/// Whatever its number, its parent, its span and its time, an event is read back from its columns
/// as it was written.
pub proof fn law_columns_read_back(
    seq: u64,
    parent_seq: Option<u64>,
    span_id: u64,
    ts_nanos: u128,
)
    ensures
        unsigned(signed(seq)) == seq,
        opt_unsigned(opt_signed(parent_seq)) == parent_seq,
        unsigned(signed(span_id)) == span_id,
        time(dec(ts_nanos as nat)) == Some(ts_nanos),
{
    assert((seq as i64) as u64 == seq) by (bit_vector);
    assert((span_id as i64) as u64 == span_id) by (bit_vector);
    if let Some(p) = parent_seq {
        assert((p as i64) as u64 == p) by (bit_vector);
    }
    law_decimal_reads_back(ts_nanos as nat);
}

// ---------- What the columns hold ----------

/// What happened can be told from the columns: each kind has its own name, and the method, the
/// caller, the target, the reject and the key stand in the columns of that name, and nothing stands
/// in a column that the kind has nothing for. A label stands as a method.
pub proof fn law_columns_tell_what_happened(k: EventKind)
    ensures
        ({
            let c = columns_of(k);
            &&& match k {
                EventKind::IngressEntered { method, caller, .. } => c.kind == "ingress_entered"@
                    && c.method == Some(method@) && c.caller == Some(caller@),
                EventKind::MethodEntered { method, caller, .. } => c.kind == "method_entered"@
                    && c.method == Some(method@) && c.caller == Some(caller@),
                EventKind::MethodExited { reject } => c.kind == "method_exited"@,
                EventKind::CallSpawned { target, method, .. } => c.kind == "call_spawned"@
                    && c.method == Some(method@) && c.target == Some(target@),
                EventKind::CallReturned { reject } => c.kind == "call_returned"@,
                EventKind::StateSnapshot { key, .. } => c.kind == "state_snapshot"@
                    && c.snapshot_key == Some(key@),
                EventKind::TimerFired { label } => c.kind == "timer_fired"@ && c.method == Some(
                    label@,
                ),
                EventKind::Note { label } => c.kind == "note"@ && c.method == Some(label@),
            }
            &&& c.caller is Some <==> k is IngressEntered || k is MethodEntered
            &&& c.target is Some <==> k is CallSpawned
            &&& c.snapshot_key is Some <==> k is StateSnapshot
            &&& c.method is None <==> k is MethodExited || k is CallReturned || k is StateSnapshot
            &&& c.reject is Some <==> (k matches EventKind::MethodExited { reject: Some(_) }) || (
            k matches EventKind::CallReturned { reject: Some(_) })
            &&& k matches EventKind::MethodExited { reject: Some(r) } ==> c.reject == Some(r@)
            &&& k matches EventKind::CallReturned { reject: Some(r) } ==> c.reject == Some(r@)
        }),
{
}

/// A row whose columns were written for an event is read as an event of that canister, number,
/// parent, span and time, with what happened as it is handed in.
pub proof fn law_row_reads_back(
    r: Result<EventRow, RowError>,
    raw: RawRow,
    kind: EventKind,
    seq: u64,
    parent_seq: Option<u64>,
    span_id: u64,
    ts_nanos: u128,
)
    requires
        is_row(r, raw, kind),
        raw.seq == seq as i64,
        match (raw.parent_seq, parent_seq) {
            (Some(a), Some(b)) => a == b as i64,
            (None, None) => true,
            _ => false,
        },
        raw.span_id == span_id as i64,
        raw.ts_nanos@ == dec(ts_nanos as nat),
    ensures
        raw.recv_nanos is None ==> r is Ok && r->Ok_0.recv_nanos is None,
        forall|recv: u128|
            (raw.recv_nanos matches Some(text) && text@ == #[trigger] dec(recv as nat)) ==> r is Ok
                && r->Ok_0.recv_nanos == Some(recv),
        r matches Ok(row) ==> {
            &&& row.canister == raw.canister
            &&& row.seq == seq
            &&& row.parent_seq == parent_seq
            &&& row.span_id == span_id
            &&& row.ts_nanos == ts_nanos
            &&& row.kind == kind
        },
{
    law_columns_read_back(seq, parent_seq, span_id, ts_nanos);
    if let Some(p) = raw.parent_seq {
        assert(raw.parent_seq == opt_signed(parent_seq));
    }
    assert forall|recv: u128|
        (raw.recv_nanos matches Some(text) && text@ == #[trigger] dec(
            recv as nat,
        )) implies r is Ok && r->Ok_0.recv_nanos == Some(recv) by {
        law_decimal_reads_back(recv as nat);
    }
}

} // verus!
