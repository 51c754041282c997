//! Recording in a canister: adopting a header, numbering events, and keeping
//! the latest until they are drained.

use vstd::prelude::*;
use vstd::string::*;

use crate::event::{Event, EventKind, TraceHeader, TraceId};

verus! {

// ---------- The buffer ----------

/// The latest events, at most `cap` of them.
pub struct RingBuffer {
    cap: usize,
    buf: Vec<Event>,
}

/// `buf` with `e` behind it, and without its first where it held `cap`.
pub open spec fn pushed(buf: Seq<Event>, cap: nat, e: Event) -> Seq<Event> {
    if buf.len() >= cap {
        buf.subrange(1, buf.len() as int).push(e)
    } else {
        buf.push(e)
    }
}

/// `buf` with the first `n` of `es` pushed one by one.
pub open spec fn pushed_all(buf: Seq<Event>, cap: nat, es: Seq<Event>, n: nat) -> Seq<Event>
    decreases n,
{
    if n == 0 || n > es.len() {
        buf
    } else {
        pushed(pushed_all(buf, cap, es, (n - 1) as nat), cap, es[n - 1])
    }
}

impl View for RingBuffer {
    type V = Seq<Event>;

    closed spec fn view(&self) -> Seq<Event> {
        self.buf@
    }
}

impl RingBuffer {
    /// The most events that the buffer holds.
    pub closed spec fn capacity(&self) -> nat {
        self.cap as nat
    }

    /// The buffer has room for an event, and holds no more than it has room for.
    pub open spec fn wf(&self) -> bool {
        self.capacity() > 0 && self@.len() <= self.capacity()
    }

    /// A buffer for `cap` events.
    pub fn with_capacity(cap: usize) -> (b: RingBuffer)
        ensures
            b@ == Seq::<Event>::empty(),
            b.capacity() == cap,
            cap > 0 ==> b.wf(),
    {
        RingBuffer { cap, buf: Vec::with_capacity(cap) }
    }

    /// Keep `e`; the oldest goes where there is no room.
    pub fn push(&mut self, e: Event)
        requires
            old(self).wf(),
        ensures
            final(self).wf(),
            final(self).capacity() == old(self).capacity(),
            final(self)@ == pushed(old(self)@, old(self).capacity(), e),
            old(self)@.len() < old(self).capacity() ==> final(self)@ == old(self)@.push(e),
            old(self)@.len() >= old(self).capacity() ==> final(self)@
                == old(self)@.drop_first().push(e),
    {
        assert(self@.len() > 0 ==> self@.drop_first() =~= self@.subrange(1, self@.len() as int));
        if self.buf.len() >= self.cap {
            let ghost before = self.buf@;
            self.buf.remove(0);
            assert(self.buf@ =~= before.subrange(1, before.len() as int));
        }
        self.buf.push(e);
    }

    /// Hand out all events.
    pub fn drain(&mut self) -> (out: Vec<Event>)
        requires
            old(self).wf(),
        ensures
            out@ == old(self)@,
            final(self)@ == Seq::<Event>::empty(),
            final(self).capacity() == old(self).capacity(),
            final(self).wf(),
    {
        let mut out: Vec<Event> = Vec::new();
        std::mem::swap(&mut out, &mut self.buf);
        out
    }
}

/// The last `n` of `es`.
pub open spec fn latest(es: Seq<Event>, n: nat) -> Seq<Event> {
    if es.len() <= n {
        es
    } else {
        es.subrange(es.len() - n, es.len() as int)
    }
}

/// What an empty buffer holds after some events is the latest of them, as many as it has room
/// for, in order.
pub proof fn law_buffer_keeps_latest(es: Seq<Event>, cap: nat, n: nat)
    requires
        cap > 0,
        n <= es.len(),
    ensures
        pushed_all(Seq::empty(), cap, es, n) == latest(es.subrange(0, n as int), cap),
    decreases n,
{
    if n == 0 {
        assert(es.subrange(0, 0) =~= Seq::<Event>::empty());
    } else {
        let m = (n - 1) as nat;
        law_buffer_keeps_latest(es, cap, m);
        let before = es.subrange(0, m as int);
        let now = es.subrange(0, n as int);
        assert(now =~= before.push(es[n - 1]));
        assert(pushed(latest(before, cap), cap, es[n - 1]) =~= latest(now, cap));
    }
}

// ---------- The state ----------

/// Where the canister stands in a trace.
pub struct TraceState {
    pub current_trace: Option<TraceId>,
    pub current_span: u64,
    pub next_seq: u64,
    pub next_span: u64,
    pub last_seq: Option<u64>,
}

/// Everything that recording needs. Where `enabled` is off, nothing is recorded.
pub struct Tracer {
    pub enabled: bool,
    pub state: TraceState,
    pub sink: RingBuffer,
}

/// The number of events that a canister keeps.
pub const SINK_CAPACITY: usize = 4096;

impl Tracer {
    /// No trace has begun.
    pub fn new(enabled: bool) -> (t: Tracer)
        ensures
            t.enabled == enabled,
            t.state.current_trace is None,
            t.state.current_span == 0,
            t.state.next_seq == 0,
            t.state.next_span == 0,
            t.state.last_seq is None,
            t.sink@ == Seq::<Event>::empty(),
            t.sink.capacity() == SINK_CAPACITY,
            t.sink.wf(),
    {
        Tracer {
            enabled,
            state: TraceState {
                current_trace: None,
                current_span: 0,
                next_seq: 0,
                next_span: 0,
                last_seq: None,
            },
            sink: RingBuffer::with_capacity(SINK_CAPACITY),
        }
    }
}

/// Adopt a header: its trace becomes the current one, in a new span, and what is recorded next
/// has the header's event for its parent.
pub fn begin_trace(t: &mut Tracer, header: TraceHeader) -> (span: u64)
    requires
        old(t).state.next_span < u64::MAX,
    ensures
        span == old(t).state.next_span + 1,
        final(t).state.current_trace == Some(TraceId { bytes: header.trace_id }),
        final(t).state.current_span == span,
        final(t).state.next_span == span,
        final(t).state.last_seq == Some(header.parent_seq),
        final(t).state.next_seq == old(t).state.next_seq,
        final(t).sink == old(t).sink,
        final(t).enabled == old(t).enabled,
{
    t.state.current_trace = Some(header.id());
    t.state.next_span = t.state.next_span + 1;
    t.state.current_span = t.state.next_span;
    t.state.last_seq = Some(header.parent_seq);
    t.state.current_span
}

/// The header to pass on in a state: the current trace and span, with the last event.
pub open spec fn header_of(s: TraceState) -> Option<TraceHeader> {
    match s.current_trace {
        Some(id) => Some(
            TraceHeader {
                trace_id: id.bytes,
                parent_seq: match s.last_seq {
                    Some(n) => n,
                    None => 0,
                },
                parent_span: s.current_span,
            },
        ),
        None => None,
    }
}

/// The header to pass on; none where no trace has begun.
pub fn current_header(t: &Tracer) -> (r: Option<TraceHeader>)
    ensures
        r == header_of(t.state),
        match t.state.current_trace {
            Some(id) => r matches Some(h) && h.trace_id == id.bytes && h.parent_span
                == t.state.current_span && (t.state.last_seq matches Some(n) ==> h.parent_seq == n)
                && (t.state.last_seq is None ==> h.parent_seq == 0),
            None => r is None,
        },
{
    match t.state.current_trace {
        Some(id) => {
            let parent_seq: u64 = match t.state.last_seq {
                Some(n) => n,
                None => 0,
            };
            Some(TraceHeader { trace_id: id.bytes, parent_seq, parent_span: t.state.current_span })
        },
        None => None,
    }
}

/// The event that is recorded in a state; none where no trace has begun.
pub open spec fn event_in(s: TraceState, kind: EventKind, now: u128, canister: String) -> Option<
    Event,
> {
    match s.current_trace {
        Some(trace_id) => Some(
            Event {
                trace_id,
                seq: s.next_seq,
                parent_seq: s.last_seq,
                span_id: s.current_span,
                ts_nanos: now,
                canister: Some(canister),
                kind,
            },
        ),
        None => None,
    }
}

/// The state after something was recorded: the number is used up, and is the last.
pub open spec fn recorded(s: TraceState) -> TraceState {
    TraceState { next_seq: (s.next_seq + 1) as u64, last_seq: Some(s.next_seq), ..s }
}

/// The buffer after something was recorded.
pub open spec fn kept(buf: Seq<Event>, cap: nat, e: Option<Event>) -> Seq<Event> {
    match e {
        Some(e) => pushed(buf, cap, e),
        None => buf,
    }
}

/// Record what happened, at the time `now` in the canister `canister`. A number is used up also
/// where no trace has begun, but then nothing is kept.
pub fn record(t: &mut Tracer, kind: EventKind, now: u128, canister: String)
    requires
        old(t).sink.wf(),
        old(t).state.next_seq < u64::MAX,
    ensures
        final(t).sink.wf(),
        final(t).sink.capacity() == old(t).sink.capacity(),
        final(t).enabled == old(t).enabled,
        !old(t).enabled ==> final(t).state == old(t).state && final(t).sink == old(t).sink,
        old(t).enabled ==> final(t).state == recorded(old(t).state) && final(t).sink@ == kept(
            old(t).sink@,
            old(t).sink.capacity(),
            event_in(old(t).state, kind, now, canister),
        ),
        match old(t).state.current_trace {
            Some(id) if old(t).enabled => final(t).sink@.len() > 0 && final(t).sink@.last() == (
            Event {
                trace_id: id,
                seq: old(t).state.next_seq,
                parent_seq: old(t).state.last_seq,
                span_id: old(t).state.current_span,
                ts_nanos: now,
                canister: Some(canister),
                kind,
            }) && final(t).sink@.drop_last() == if old(t).sink@.len() < old(t).sink.capacity() {
                old(t).sink@
            } else {
                old(t).sink@.drop_first()
            },
            _ => final(t).sink@ == old(t).sink@,
        },
        old(t).enabled ==> final(t).state.next_seq == old(t).state.next_seq + 1
            && final(t).state.last_seq == Some(old(t).state.next_seq)
            && final(t).state.current_trace == old(t).state.current_trace
            && final(t).state.current_span == old(t).state.current_span
            && final(t).state.next_span == old(t).state.next_span,
{
    if !t.enabled {
        return ;
    }
    let seq: u64 = t.state.next_seq;
    t.state.next_seq = seq + 1;
    let parent_seq = t.state.last_seq;
    t.state.last_seq = Some(seq);
    match t.state.current_trace {
        Some(trace_id) => {
            t.sink.push(
                Event {
                    trace_id,
                    seq,
                    parent_seq,
                    span_id: t.state.current_span,
                    ts_nanos: now,
                    canister: Some(canister),
                    kind,
                },
            );
            assert(t.sink@.drop_last() =~= if old(t).sink@.len() < old(t).sink.capacity() {
                old(t).sink@
            } else {
                old(t).sink@.drop_first()
            });
        },
        None => {},
    }
}

/// Hand out all events that were kept.
pub fn drain(t: &mut Tracer) -> (out: Vec<Event>)
    requires
        old(t).sink.wf(),
    ensures
        out@ == old(t).sink@,
        final(t).sink@ == Seq::<Event>::empty(),
        final(t).sink.capacity() == old(t).sink.capacity(),
        final(t).sink.wf(),
        final(t).state == old(t).state,
        final(t).enabled == old(t).enabled,
{
    t.sink.drain()
}

// ---------- Methods and calls ----------

/// Calls `candid::Principal::anonymous` and `to_text`.
#[verifier::external_body]
fn anonymous() -> (r: String)
    ensures
        r@ == "2vxsx-fae"@,
{
    candid::Principal::anonymous().to_text()
}

/// Record that a method began. Where the caller is not known it is the anonymous principal.
pub fn on_method_enter(
    t: &mut Tracer,
    method: &str,
    args: Vec<(String, String)>,
    caller: Option<String>,
    now: u128,
    canister: String,
)
    requires
        old(t).sink.wf(),
        old(t).state.next_seq < u64::MAX,
    ensures
        final(t).sink.wf(),
        final(t).sink.capacity() == old(t).sink.capacity(),
        final(t).enabled == old(t).enabled,
        !old(t).enabled ==> final(t).state == old(t).state && final(t).sink == old(t).sink,
        old(t).enabled ==> final(t).state == recorded(old(t).state),
        old(t).enabled ==> exists|m: String, c: String|
            m@ == method@ && c@ == (match caller {
                Some(text) => text@,
                None => "2vxsx-fae"@,
            }) && final(t).sink@ == kept(
                old(t).sink@,
                old(t).sink.capacity(),
                #[trigger] event_in(
                    old(t).state,
                    EventKind::MethodEntered { method: m, caller: c, args },
                    now,
                    canister,
                ),
            ),
        final(t).state.next_seq == old(t).state.next_seq + if old(t).enabled {
            1int
        } else {
            0
        },
        old(t).enabled ==> final(t).state.last_seq == Some(old(t).state.next_seq)
            && final(t).state.current_trace == old(t).state.current_trace
            && final(t).state.current_span == old(t).state.current_span
            && final(t).state.next_span == old(t).state.next_span,
        match old(t).state.current_trace {
            Some(id) if old(t).enabled => final(t).sink@.len() > 0 && final(t).sink@.drop_last()
                == if old(t).sink@.len() < old(t).sink.capacity() {
                old(t).sink@
            } else {
                old(t).sink@.drop_first()
            } && final(t).sink@.last().trace_id == id && final(t).sink@.last().seq
                == old(t).state.next_seq && final(t).sink@.last().parent_seq
                == old(t).state.last_seq && final(t).sink@.last().span_id
                == old(t).state.current_span && final(t).sink@.last().ts_nanos == now
                && final(t).sink@.last().canister == Some(canister) && (final(t).sink@.last().kind matches EventKind::MethodEntered {
                method: m,
                caller: c,
                args: values,
            } && m@ == method@ && values == args && match caller {
                Some(text) => c@ == text@,
                None => c@ == "2vxsx-fae"@,
            }),
            _ => final(t).sink@ == old(t).sink@,
        },
{
    let m = String::from_str(method);
    let c = match caller {
        Some(text) => text,
        None => anonymous(),
    };
    record(t, EventKind::MethodEntered { method: m, caller: c, args }, now, canister);
}

/// Record that a method ended.
pub fn on_method_exit(t: &mut Tracer, now: u128, canister: String)
    requires
        old(t).sink.wf(),
        old(t).state.next_seq < u64::MAX,
    ensures
        final(t).sink.wf(),
        final(t).sink.capacity() == old(t).sink.capacity(),
        final(t).enabled == old(t).enabled,
        !old(t).enabled ==> final(t).state == old(t).state && final(t).sink == old(t).sink,
        old(t).enabled ==> final(t).state == recorded(old(t).state) && final(t).sink@ == kept(
            old(t).sink@,
            old(t).sink.capacity(),
            event_in(old(t).state, EventKind::MethodExited { reject: None }, now, canister),
        ),
        final(t).state.next_seq == old(t).state.next_seq + if old(t).enabled {
            1int
        } else {
            0
        },
        old(t).enabled ==> final(t).state.last_seq == Some(old(t).state.next_seq)
            && final(t).state.current_trace == old(t).state.current_trace
            && final(t).state.current_span == old(t).state.current_span
            && final(t).state.next_span == old(t).state.next_span,
        match old(t).state.current_trace {
            Some(id) if old(t).enabled => final(t).sink@.len() > 0 && final(t).sink@.drop_last()
                == if old(t).sink@.len() < old(t).sink.capacity() {
                old(t).sink@
            } else {
                old(t).sink@.drop_first()
            } && final(t).sink@.last().trace_id == id && final(t).sink@.last().seq
                == old(t).state.next_seq && final(t).sink@.last().parent_seq
                == old(t).state.last_seq && final(t).sink@.last().span_id
                == old(t).state.current_span && final(t).sink@.last().ts_nanos == now
                && final(t).sink@.last().canister == Some(canister) && (final(t).sink@.last().kind == (
            EventKind::MethodExited { reject: None })),
            _ => final(t).sink@ == old(t).sink@,
        },
{
    record(t, EventKind::MethodExited { reject: None }, now, canister);
}

/// The SHA-256 digest of some bytes.
pub uninterp spec fn sha256_of(bytes: Seq<u8>) -> Seq<u8>;

/// Calls `sha2::Sha256::digest`. The digest has thirty-two bytes and depends on the bytes alone.
#[verifier::external_body]
pub fn sha256(bytes: &[u8]) -> (r: [u8; 32])
    ensures
        r@ == sha256_of(bytes@),
{
    <sha2::Sha256 as sha2::Digest>::digest(bytes).into()
}

/// `h` is the header that goes with a call in a state; it is all zero where no trace has begun.
pub open spec fn goes_with_call(h: TraceHeader, s: TraceState) -> bool {
    match header_of(s) {
        Some(current) => h == current,
        None => h.trace_id@ == Seq::new(16, |i: int| 0u8) && h.parent_seq == 0 && h.parent_span
            == 0,
    }
}

/// Record that `method` of `target` is called with arguments that encode to `args`, and give the
/// header to pass on. The event comes first, so that the header names it as the parent.
pub fn spawn_call(
    t: &mut Tracer,
    target: String,
    method: String,
    args: &[u8],
    now: u128,
    canister: String,
) -> (header: TraceHeader)
    requires
        old(t).sink.wf(),
        old(t).state.next_seq < u64::MAX,
    ensures
        final(t).sink.wf(),
        final(t).sink.capacity() == old(t).sink.capacity(),
        final(t).enabled == old(t).enabled,
        goes_with_call(header, final(t).state),
        !old(t).enabled ==> final(t).state == old(t).state && final(t).sink == old(t).sink,
        old(t).enabled ==> final(t).state == recorded(old(t).state),
        old(t).enabled ==> exists|h: Vec<u8>|
            h@ == sha256_of(args@) && final(t).sink@ == kept(
                old(t).sink@,
                old(t).sink.capacity(),
                #[trigger] event_in(
                    old(t).state,
                    EventKind::CallSpawned { target, method, args_hash: h },
                    now,
                    canister,
                ),
            ),
        final(t).state.next_seq == old(t).state.next_seq + if old(t).enabled {
            1int
        } else {
            0
        },
        old(t).enabled ==> final(t).state.last_seq == Some(old(t).state.next_seq)
            && final(t).state.current_trace == old(t).state.current_trace
            && final(t).state.current_span == old(t).state.current_span
            && final(t).state.next_span == old(t).state.next_span,
        match old(t).state.current_trace {
            Some(id) if old(t).enabled => final(t).sink@.len() > 0 && final(t).sink@.drop_last()
                == if old(t).sink@.len() < old(t).sink.capacity() {
                old(t).sink@
            } else {
                old(t).sink@.drop_first()
            } && final(t).sink@.last().trace_id == id && final(t).sink@.last().seq
                == old(t).state.next_seq && final(t).sink@.last().parent_seq
                == old(t).state.last_seq && final(t).sink@.last().span_id
                == old(t).state.current_span && final(t).sink@.last().ts_nanos == now
                && final(t).sink@.last().canister == Some(canister) && (final(t).sink@.last().kind matches EventKind::CallSpawned {
                target: to,
                method: called,
                args_hash,
            } && to == target && called == method && args_hash@ == sha256_of(args@)),
            _ => final(t).sink@ == old(t).sink@,
        },
        match old(t).state.current_trace {
            Some(id) => header.trace_id == id.bytes && header.parent_span
                == old(t).state.current_span && (old(t).enabled ==> header.parent_seq
                == old(t).state.next_seq),
            None => header.parent_seq == 0 && header.parent_span == 0 && forall|i: int|
                0 <= i < 16 ==> #[trigger] header.trace_id@[i] == 0,
        },
{
    let digest = sha256(args);
    let mut args_hash: Vec<u8> = Vec::new();
    let mut i: usize = 0;
    while i < 32
        invariant
            i <= 32,
            args_hash@ == digest@.subrange(0, i as int),
        decreases 32 - i,
    {
        args_hash.push(digest[i]);
        i += 1;
        assert(digest@.subrange(0, i as int) =~= digest@.subrange(0, i - 1).push(digest@[i - 1]));
    }
    assert(digest@.subrange(0, 32) =~= digest@);
    record(t, EventKind::CallSpawned { target, method, args_hash }, now, canister);
    match current_header(t) {
        Some(h) => h,
        None => {
            let zero = TraceHeader { trace_id: [0; 16], parent_seq: 0, parent_span: 0 };
            assert(zero.trace_id@ =~= Seq::new(16, |i: int| 0u8));
            zero
        },
    }
}

/// Record that a call came back, perhaps rejected.
pub fn finish_call(t: &mut Tracer, reject: Option<String>, now: u128, canister: String)
    requires
        old(t).sink.wf(),
        old(t).state.next_seq < u64::MAX,
    ensures
        final(t).sink.wf(),
        final(t).sink.capacity() == old(t).sink.capacity(),
        final(t).enabled == old(t).enabled,
        !old(t).enabled ==> final(t).state == old(t).state && final(t).sink == old(t).sink,
        old(t).enabled ==> final(t).state == recorded(old(t).state) && final(t).sink@ == kept(
            old(t).sink@,
            old(t).sink.capacity(),
            event_in(old(t).state, EventKind::CallReturned { reject }, now, canister),
        ),
        final(t).state.next_seq == old(t).state.next_seq + if old(t).enabled {
            1int
        } else {
            0
        },
        old(t).enabled ==> final(t).state.last_seq == Some(old(t).state.next_seq)
            && final(t).state.current_trace == old(t).state.current_trace
            && final(t).state.current_span == old(t).state.current_span
            && final(t).state.next_span == old(t).state.next_span,
        match old(t).state.current_trace {
            Some(id) if old(t).enabled => final(t).sink@.len() > 0 && final(t).sink@.drop_last()
                == if old(t).sink@.len() < old(t).sink.capacity() {
                old(t).sink@
            } else {
                old(t).sink@.drop_first()
            } && final(t).sink@.last().trace_id == id && final(t).sink@.last().seq
                == old(t).state.next_seq && final(t).sink@.last().parent_seq
                == old(t).state.last_seq && final(t).sink@.last().span_id
                == old(t).state.current_span && final(t).sink@.last().ts_nanos == now
                && final(t).sink@.last().canister == Some(canister) && (final(t).sink@.last().kind == (
            EventKind::CallReturned { reject })),
            _ => final(t).sink@ == old(t).sink@,
        },
{
    record(t, EventKind::CallReturned { reject }, now, canister);
}

// ---------- What holds of all recordings ----------

/// Where a trace has begun, whatever is recorded is kept: the buffer ends with it, and holds
/// before it what it held, but for the oldest event where there was no room.
pub proof fn law_whatever_is_recorded_is_kept(
    s: TraceState,
    buf: Seq<Event>,
    cap: nat,
    kind: EventKind,
    now: u128,
    canister: String,
)
    requires
        s.current_trace is Some,
        0 < cap,
        buf.len() <= cap,
    ensures
        ({
            let after = kept(buf, cap, event_in(s, kind, now, canister));
            &&& after.last() == (Event {
                trace_id: s.current_trace->0,
                seq: s.next_seq,
                parent_seq: s.last_seq,
                span_id: s.current_span,
                ts_nanos: now,
                canister: Some(canister),
                kind,
            })
            &&& buf.len() < cap ==> after.len() == buf.len() + 1 && after.drop_last() == buf
            &&& buf.len() == cap ==> after.len() == cap && after.drop_last() == buf.drop_first()
        }),
{
    let after = kept(buf, cap, event_in(s, kind, now, canister));
    if buf.len() < cap {
        assert(after.drop_last() =~= buf);
    } else {
        assert(after.drop_last() =~= buf.drop_first());
    }
}

/// Numbers grow by one, and each event has the one recorded before it for its parent.
pub proof fn law_events_are_chained(
    s: TraceState,
    first: EventKind,
    second: EventKind,
    now: u128,
    later: u128,
    canister: String,
)
    requires
        s.current_trace is Some,
        s.next_seq < u64::MAX,
    ensures
        event_in(s, first, now, canister) is Some,
        event_in(recorded(s), second, later, canister) is Some,
        ({
            let a = event_in(s, first, now, canister)->0;
            let b = event_in(recorded(s), second, later, canister)->0;
            b.seq == a.seq + 1 && b.parent_seq == Some(a.seq) && b.trace_id == a.trace_id
                && b.span_id == a.span_id
        }),
{
}

/// The header that goes with a call names the event that was recorded for the call; once the
/// callee adopts it, the callee's first event has that event for its parent, in the same trace.
pub proof fn law_call_links_canisters(
    caller: TraceState,
    header: TraceHeader,
    callee: TraceState,
    call: EventKind,
    first: EventKind,
    now: u128,
    later: u128,
    here: String,
    there: String,
)
    requires
        caller.current_trace is Some,
        caller.next_seq < u64::MAX,
        goes_with_call(header, recorded(caller)),
        callee.current_trace == Some(TraceId { bytes: header.trace_id }),
        callee.last_seq == Some(header.parent_seq),
    ensures
        ({
            let a = event_in(caller, call, now, here)->0;
            let b = event_in(callee, first, later, there)->0;
            b.parent_seq == Some(a.seq) && b.trace_id == a.trace_id
        }),
{
}

} // verus!
