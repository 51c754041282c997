//! Showing a replayed trace.

use vstd::prelude::*;
use vstd::string::*;

use crate::event::EventKind;
use crate::replay::{EventRow, TraceSummary};
use crate::text::{
    chars_of, dec, decimal, hex_head, hex_prefix, join, joined, pad, padded, same_text, short_name,
    short_principal, texts, trim, trim_of,
};
use crate::value::{decode, decoded, show, shown, Datum};

verus! {

// ---------- What happened ----------

/// An argument with its value.
pub open spec fn arg_text(a: (String, String)) -> Seq<char> {
    a.0@ + "="@ + a.1@
}

/// The arguments with their values.
pub open spec fn arg_texts(args: Seq<(String, String)>) -> Seq<Seq<char>> {
    Seq::new(args.len(), |i: int| arg_text(args[i]))
}

/// The arguments in parentheses; nothing where there are none.
pub open spec fn args_text(args: Seq<(String, String)>) -> Seq<char> {
    if args.len() == 0 {
        Seq::empty()
    } else {
        "("@ + joined(arg_texts(args), ", "@, args.len()) + ")"@
    }
}

/// A snapshot as text. `value` is what its bytes are read as.
pub open spec fn state_text(
    key: Seq<char>,
    size: nat,
    decode: bool,
    value: Result<Datum, Seq<char>>,
) -> Seq<char> {
    if decode {
        match value {
            Ok(v) => "• STATE   "@ + key + " = "@ + shown(v, 4),
            Err(_) => "• STATE   "@ + key + "  ("@ + dec(size) + " bytes cbor, undecodable)"@,
        }
    } else {
        "• STATE   "@ + key + "  ("@ + dec(size) + " bytes cbor)"@
    }
}

/// What happened, as text. Where `decode` is on, snapshots are shown as values.
pub open spec fn kind_text(k: EventKind, decode: bool) -> Seq<char> {
    match k {
        EventKind::IngressEntered { method, caller, .. } => "▶ INGRESS "@ + method@
            + "  caller="@ + short_name(caller@),
        EventKind::MethodEntered { method, caller, args } => "▶ ENTER   "@ + method@ + args_text(
            args@,
        ) + "  caller="@ + short_name(caller@),
        EventKind::MethodExited { reject } => match reject {
            None => "◀ EXIT"@,
            Some(r) => "✗ EXIT    reject="@ + r@,
        },
        EventKind::CallSpawned { target, method, args_hash } => "→ CALL    "@ + method@ + " on "@
            + short_name(target@) + "  args_hash="@ + hex_head(args_hash@, 4),
        EventKind::CallReturned { reject } => match reject {
            None => "← RET     ok"@,
            Some(r) => "✗ RET     reject="@ + r@,
        },
        EventKind::StateSnapshot { key, cbor } => state_text(
            key@,
            cbor@.len(),
            decode,
            decoded(cbor@),
        ),
        EventKind::TimerFired { label } => "⏰ TIMER  "@ + label@,
        EventKind::Note { label } => "· NOTE    "@ + label@,
    }
}

fn show_args(args: &Vec<(String, String)>) -> (r: String)
    ensures
        r@ == args_text(args@),
{
    if args.len() == 0 {
        return String::new();
    }
    let mut parts: Vec<String> = Vec::new();
    let mut i: usize = 0;
    while i < args.len()
        invariant
            i <= args@.len(),
            texts(parts@) == arg_texts(args@).subrange(0, i as int),
        decreases args@.len() - i,
    {
        let ghost before = texts(parts@);
        let mut part = String::from_str(args[i].0.as_str());
        part.append("=");
        part.append(args[i].1.as_str());
        let ghost found = part@;
        parts.push(part);
        assert(texts(parts@) =~= before.push(found));
        i += 1;
        assert(arg_texts(args@).subrange(0, i as int) =~= arg_texts(args@).subrange(
            0,
            i - 1,
        ).push(arg_texts(args@)[i - 1]));
    }
    assert(texts(parts@) =~= arg_texts(args@));
    let mut out = String::from_str("(");
    out.append(join(&parts, ", ").as_str());
    out.append(")");
    out
}

/// A snapshot as text. `value` is what its bytes are read as.
pub fn show_state(key: &str, size: usize, decode: bool, value: &Result<Datum, String>) -> (r: String)
    ensures
        r@ == state_text(
            key@,
            size as nat,
            decode,
            match *value {
                Ok(v) => Ok(v),
                Err(m) => Err(m@),
            },
        ),
{
    let mut out = String::from_str("• STATE   ");
    out.append(key);
    if decode {
        match value {
            Ok(v) => {
                out.append(" = ");
                out.append(show(v, 4).as_str());
            },
            Err(_) => {
                out.append("  (");
                out.append(decimal(size as u128).as_str());
                out.append(" bytes cbor, undecodable)");
            },
        }
    } else {
        out.append("  (");
        out.append(decimal(size as u128).as_str());
        out.append(" bytes cbor)");
    }
    out
}

/// What happened, as text. Where `decode` is on, snapshots are shown as values.
pub fn show_kind(k: &EventKind, decode_cbor: bool) -> (r: String)
    ensures
        r@ == kind_text(*k, decode_cbor),
{
    match k {
        EventKind::IngressEntered { method, caller, .. } => {
            let mut out = String::from_str("▶ INGRESS ");
            out.append(method.as_str());
            out.append("  caller=");
            out.append(short_principal(caller.as_str()).as_str());
            out
        },
        EventKind::MethodEntered { method, caller, args } => {
            let mut out = String::from_str("▶ ENTER   ");
            out.append(method.as_str());
            out.append(show_args(args).as_str());
            out.append("  caller=");
            out.append(short_principal(caller.as_str()).as_str());
            out
        },
        EventKind::MethodExited { reject } => match reject {
            None => String::from_str("◀ EXIT"),
            Some(r) => {
                let mut out = String::from_str("✗ EXIT    reject=");
                out.append(r.as_str());
                out
            },
        },
        EventKind::CallSpawned { target, method, args_hash } => {
            let mut out = String::from_str("→ CALL    ");
            out.append(method.as_str());
            out.append(" on ");
            out.append(short_principal(target.as_str()).as_str());
            out.append("  args_hash=");
            out.append(hex_prefix(args_hash.as_slice(), 4).as_str());
            out
        },
        EventKind::CallReturned { reject } => match reject {
            None => String::from_str("← RET     ok"),
            Some(r) => {
                let mut out = String::from_str("✗ RET     reject=");
                out.append(r.as_str());
                out
            },
        },
        EventKind::StateSnapshot { key, cbor } => {
            let value = decode(cbor.as_slice());
            show_state(key.as_str(), cbor.len(), decode_cbor, &value)
        },
        EventKind::TimerFired { label } => {
            let mut out = String::from_str("⏰ TIMER  ");
            out.append(label.as_str());
            out
        },
        EventKind::Note { label } => {
            let mut out = String::from_str("· NOTE    ");
            out.append(label.as_str());
            out
        },
    }
}

// ---------- The timeline ----------

/// The event begins a method.
pub open spec fn enters(e: EventRow) -> bool {
    e.kind is MethodEntered || e.kind is IngressEntered
}

/// The event ends a method.
pub open spec fn exits(e: EventRow) -> bool {
    e.kind is MethodExited
}

/// One less, but not below zero.
pub open spec fn less_one(n: nat) -> nat {
    if n == 0 {
        0
    } else {
        (n - 1) as nat
    }
}

/// The number of methods of a canister that are under way after the first `n` events.
pub open spec fn depth(es: Seq<EventRow>, canister: Seq<char>, n: nat) -> nat
    decreases n,
{
    if n == 0 || n > es.len() {
        0
    } else {
        let before = depth(es, canister, (n - 1) as nat);
        if es[n - 1].canister@ != canister {
            before
        } else if exits(es[n - 1]) {
            less_one(before)
        } else if enters(es[n - 1]) {
            before + 1
        } else {
            before
        }
    }
}

/// How deep event `i` is shown: the end of a method stands as deep as its beginning.
pub open spec fn shown_depth(es: Seq<EventRow>, i: int) -> nat {
    let before = depth(es, es[i].canister@, i as nat);
    if exits(es[i]) {
        less_one(before)
    } else {
        before
    }
}

/// `s`, `n` times.
pub open spec fn repeated(s: Seq<char>, n: nat) -> Seq<char>
    decreases n,
{
    if n == 0 {
        Seq::empty()
    } else {
        repeated(s, (n - 1) as nat) + s
    }
}

/// `s` before as many spaces as bring it to `width` characters.
pub open spec fn filled(s: Seq<char>, width: nat) -> Seq<char> {
    if s.len() < width {
        s + crate::text::spaces((width - s.len()) as nat)
    } else {
        s
    }
}

/// `n` in decimal, with zeros before it that bring it to three digits.
pub open spec fn three_digits(n: nat) -> Seq<char> {
    if dec(n).len() < 3 {
        repeated("0"@, (3 - dec(n).len()) as nat) + dec(n)
    } else {
        dec(n)
    }
}

/// The parent of an event.
pub open spec fn parent_text(p: Option<u64>) -> Seq<char> {
    match p {
        Some(n) => "←"@ + dec(n as nat),
        None => "  "@,
    }
}

/// Event `i` of a timeline as a line, without its line feed.
pub open spec fn event_line(es: Seq<EventRow>, i: int, decode: bool) -> Seq<char> {
    let e = es[i];
    "#"@ + three_digits(e.idx as nat) + " +"@ + padded(
        dec(((e.ts_nanos - es[0].ts_nanos) / 1000) as nat),
        6,
    ) + "µs ["@ + filled(short_name(e.canister@), 5) + "] seq="@ + filled(dec(e.seq as nat), 2)
        + " "@ + filled(parent_text(e.parent_seq), 4) + " "@ + repeated("│ "@, shown_depth(es, i))
        + kind_text(e.kind, decode)
}

fn find_depth(es: &Vec<EventRow>, canister: &str, n: usize) -> (r: usize)
    requires
        n <= es@.len(),
    ensures
        r == depth(es@, canister@, n as nat),
        r <= n,
{
    let mut d: usize = 0;
    let mut i: usize = 0;
    while i < n
        invariant
            i <= n <= es@.len(),
            d <= i,
            d == depth(es@, canister@, i as nat),
        decreases n - i,
    {
        if same_text(es[i].canister.as_str(), canister) {
            match &es[i].kind {
                EventKind::MethodExited { .. } => {
                    if d > 0 {
                        d -= 1;
                    }
                },
                EventKind::MethodEntered { .. } => {
                    d += 1;
                },
                EventKind::IngressEntered { .. } => {
                    d += 1;
                },
                _ => {},
            }
        }
        i += 1;
    }
    d
}

fn repeat(s: &str, n: usize) -> (r: String)
    ensures
        r@ == repeated(s@, n as nat),
{
    let mut out = String::new();
    let mut i: usize = 0;
    while i < n
        invariant
            i <= n,
            out@ == repeated(s@, i as nat),
        decreases n - i,
    {
        out.append(s);
        i += 1;
    }
    out
}

fn fill(s: &str, width: usize) -> (r: String)
    ensures
        r@ == filled(s@, width as nat),
{
    let len: usize = chars_of(s).len();
    let mut out = String::from_str(s);
    if len < width {
        out.append(crate::text::blanks(width - len).as_str());
    }
    out
}

fn show_three_digits(n: usize) -> (r: String)
    ensures
        r@ == three_digits(n as nat),
{
    let digits = decimal(n as u128);
    let len: usize = chars_of(digits.as_str()).len();
    if len < 3 {
        let mut out = repeat("0", 3 - len);
        out.append(digits.as_str());
        out
    } else {
        digits
    }
}

/// Event `i` of a timeline as a line, without its line feed. It is not earlier than the first.
pub fn show_event(events: &Vec<EventRow>, i: usize, decode_cbor: bool) -> (r: String)
    requires
        i < events@.len(),
        events@[0].ts_nanos <= events@[i as int].ts_nanos,
    ensures
        r@ == event_line(events@, i as int, decode_cbor),
{
    let e = &events[i];
    let before = find_depth(events, e.canister.as_str(), i);
    let deep: usize = match &e.kind {
        EventKind::MethodExited { .. } => if before > 0 {
            before - 1
        } else {
            0
        },
        _ => before,
    };
    let parent = match e.parent_seq {
        Some(n) => {
            let mut p = String::from_str("←");
            p.append(decimal(n as u128).as_str());
            p
        },
        None => String::from_str("  "),
    };
    let micros: u128 = (e.ts_nanos - events[0].ts_nanos) / 1000;
    let mut out = String::from_str("#");
    out.append(show_three_digits(e.idx).as_str());
    out.append(" +");
    out.append(pad(decimal(micros).as_str(), 6).as_str());
    out.append("µs [");
    out.append(fill(short_principal(e.canister.as_str()).as_str(), 5).as_str());
    out.append("] seq=");
    out.append(fill(decimal(e.seq as u128).as_str(), 2).as_str());
    out.append(" ");
    out.append(fill(parent.as_str(), 4).as_str());
    out.append(" ");
    out.append(repeat("│ ", deep).as_str());
    out.append(show_kind(&e.kind, decode_cbor).as_str());
    out
}

/// What was typed at a step asks to end the replay.
pub open spec fn asks_to_quit(line: Seq<char>) -> bool {
    trim(line) == seq!['q'] || trim(line) == seq!['Q']
}

/// Whether what was typed at a step asks to end the replay.
pub fn quits(line: &str) -> (r: bool)
    ensures
        r == asks_to_quit(line@),
{
    let chars = chars_of(line);
    let t = trim_of(chars.as_slice());
    let r = t.len() == 1 && (t[0] == 'q' || t[0] == 'Q');
    proof {
        if r {
            assert(t@ =~= seq![t@[0]]);
        } else if t@.len() == 1 {
            assert(seq!['q'][0] == 'q' && seq!['Q'][0] == 'Q');
        }
    }
    r
}

// ---------- Before and after ----------

/// The canisters of a trace, a line each.
pub open spec fn canister_lines(names: Seq<Seq<char>>, n: nat) -> Seq<char>
    decreases n,
{
    if n == 0 || n > names.len() {
        Seq::empty()
    } else {
        canister_lines(names, (n - 1) as nat) + ("    · "@ + names[n - 1] + "\n"@)
    }
}

/// What is shown before the timeline.
pub open spec fn header_text(s: TraceSummary) -> Seq<char> {
    "═══ trace "@ + s.trace_id@ + " ═══\n"@ + (if s.label@.len() == 0 {
        Seq::empty()
    } else {
        "  label:     "@ + s.label@ + "\n"@
    }) + "  events:    "@ + dec(s.event_count as nat) + "\n  duration:  "@ + dec(
        (s.duration_nanos / 1000) as nat,
    ) + " µs\n  canisters: "@ + dec(s.canisters@.len()) + "\n"@ + canister_lines(
        texts(s.canisters@),
        s.canisters@.len(),
    ) + "  calls:     "@ + dec(s.call_spawned as nat) + "   rejects: "@ + dec(s.rejects as nat)
        + "\n\n"@
}

/// What is shown behind the timeline.
pub open spec fn footer_text(s: TraceSummary) -> Seq<char> {
    if s.rejects > 0 {
        "\n⚠ "@ + dec(s.rejects as nat)
            + " reject event(s) observed — see entries marked ✗ above.\n"@
    } else {
        "\n✓ replay complete, no rejects observed.\n"@
    }
}

fn push_canisters(out: &mut String, names: &Vec<String>)
    ensures
        final(out)@ == old(out)@ + canister_lines(texts(names@), names@.len()),
{
    let ghost start = out@;
    let ghost all = texts(names@);
    assert(start + canister_lines(all, 0) =~= start);
    let mut i: usize = 0;
    while i < names.len()
        invariant
            i <= names@.len(),
            all == texts(names@),
            out@ == start + canister_lines(all, i as nat),
        decreases names@.len() - i,
    {
        let ghost before = canister_lines(all, i as nat);
        assert(all[i as int] == names@[i as int]@);
        out.append("    · ");
        out.append(names[i].as_str());
        out.append("\n");
        assert(out@ =~= start + (before + ("    · "@ + all[i as int] + "\n"@)));
        i += 1;
    }
}

/// What is shown before the timeline.
pub fn show_header(s: &TraceSummary) -> (r: String)
    ensures
        r@ == header_text(*s),
{
    let mut out = String::from_str("═══ trace ");
    out.append(s.trace_id.as_str());
    out.append(" ═══\n");
    let mut label = String::new();
    if chars_of(s.label.as_str()).len() > 0 {
        label = String::from_str("  label:     ");
        label.append(s.label.as_str());
        label.append("\n");
    }
    out.append(label.as_str());
    out.append("  events:    ");
    out.append(decimal(s.event_count as u128).as_str());
    out.append("\n  duration:  ");
    out.append(decimal(s.duration_nanos / 1000).as_str());
    out.append(" µs\n  canisters: ");
    out.append(decimal(s.canisters.len() as u128).as_str());
    out.append("\n");
    push_canisters(&mut out, &s.canisters);
    out.append("  calls:     ");
    out.append(decimal(s.call_spawned as u128).as_str());
    out.append("   rejects: ");
    out.append(decimal(s.rejects as u128).as_str());
    out.append("\n\n");
    out
}

/// What is shown behind the timeline.
pub fn show_footer(s: &TraceSummary) -> (r: String)
    ensures
        r@ == footer_text(*s),
{
    if s.rejects > 0 {
        let mut out = String::from_str("\n⚠ ");
        out.append(decimal(s.rejects as u128).as_str());
        out.append(" reject event(s) observed — see entries marked ✗ above.\n");
        out
    } else {
        String::from_str("\n✓ replay complete, no rejects observed.\n")
    }
}

} // verus!
