//! Trace events, and the header that carries a trace from canister to canister.
//!
//! A canister is named by the text of its principal.

use vstd::prelude::*;

use crate::text::hex;

verus! {

/// The identity of a trace: the sixteen bytes of a UUID.
#[derive(Debug, Clone, Copy)]
pub struct TraceId {
    pub bytes: [u8; 16],
}

impl View for TraceId {
    type V = Seq<u8>;

    open spec fn view(&self) -> Seq<u8> {
        self.bytes@
    }
}

/// The sixteen bytes of a UUID in hexadecimal, with hyphens behind the fourth, the sixth, the
/// eighth and the tenth.
pub open spec fn hyphenated(b: Seq<u8>) -> Seq<char> {
    hex(b.subrange(0, 4), 4) + "-"@ + hex(b.subrange(4, 6), 2) + "-"@ + hex(b.subrange(6, 8), 2)
        + "-"@ + hex(b.subrange(8, 10), 2) + "-"@ + hex(b.subrange(10, 16), 6)
}

/// Calls `uuid::Uuid::from_bytes` and `to_string`: the bytes in lower-case hexadecimal, with
/// hyphens in the usual places.
#[verifier::external_body]
fn uuid_text(bytes: [u8; 16]) -> (r: String)
    ensures
        r@ == hyphenated(bytes@),
{
    uuid::Uuid::from_bytes(bytes).to_string()
}

impl TraceId {
    /// The identity as text.
    pub fn to_text(&self) -> (r: String)
        ensures
            r@ == hyphenated(self@),
    {
        uuid_text(self.bytes)
    }
}

/// Goes along with every call from canister to canister, so that the callee's events join the
/// caller's trace.
#[derive(Debug, Clone, Copy)]
pub struct TraceHeader {
    /// The trace, as the bytes of its UUID.
    pub trace_id: [u8; 16],
    pub parent_seq: u64,
    pub parent_span: u64,
}

impl TraceHeader {
    /// A header for a trace.
    pub fn new(trace_id: TraceId, parent_seq: u64, parent_span: u64) -> (h: TraceHeader)
        ensures
            h.trace_id == trace_id.bytes,
            h.parent_seq == parent_seq,
            h.parent_span == parent_span,
    {
        TraceHeader { trace_id: trace_id.bytes, parent_seq, parent_span }
    }

    /// The trace that the header is for.
    pub fn id(&self) -> (r: TraceId)
        ensures
            r.bytes == self.trace_id,
    {
        TraceId { bytes: self.trace_id }
    }
}

/// What happened.
#[derive(Debug)]
pub enum EventKind {
    IngressEntered { method: String, caller: String, args_hash: Vec<u8> },
    /// A method began. `args` are the names and the values of its arguments, as text.
    MethodEntered { method: String, caller: String, args: Vec<(String, String)> },
    MethodExited { reject: Option<String> },
    CallSpawned { target: String, method: String, args_hash: Vec<u8> },
    CallReturned { reject: Option<String> },
    StateSnapshot { key: String, cbor: Vec<u8> },
    TimerFired { label: String },
    Note { label: String },
}

/// An event of a trace.
#[derive(Debug)]
pub struct Event {
    pub trace_id: TraceId,
    pub seq: u64,
    pub parent_seq: Option<u64>,
    pub span_id: u64,
    pub ts_nanos: u128,
    /// The canister that the event comes from; none for one that an agent sends.
    pub canister: Option<String>,
    pub kind: EventKind,
}

} // verus!
