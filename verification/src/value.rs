//! Values of recorded state, and how they are shown.

use ciborium::value::Value;
use vstd::prelude::*;
use vstd::string::*;

use crate::text::{dec_int, decimal_int, hex_head, hex_prefix};

verus! {

/// A CBOR value.
#[derive(Debug)]
pub struct Datum {
    pub kind: DatumKind,
    /// The value as it is encoded, where it can be.
    pub encoded: Option<Vec<u8>>,
}

/// The kinds of CBOR values.
#[derive(Debug)]
pub enum DatumKind {
    Integer(i128),
    Bytes(Vec<u8>),
    /// A floating-point number, as text.
    Float(String),
    Text(String),
    Bool(bool),
    Null,
    Tagged(Box<Datum>),
    Array(Vec<Datum>),
    Table(Vec<Pair>),
    Other,
}

/// An entry of a map.
#[derive(Debug)]
pub struct Pair {
    pub key: Datum,
    pub value: Datum,
}

/// Every part of a value that is compared by its encoding has one.
pub open spec fn encodes(v: Datum) -> bool
    decreases v, 0nat,
{
    match v.kind {
        DatumKind::Table(x) => values_encode(x@, x@.len()),
        DatumKind::Array(x) => items_encode(x@, x@.len()),
        _ => v.encoded is Some,
    }
}

/// As `encodes`, for the values of the first `n` entries.
pub open spec fn values_encode(x: Seq<Pair>, n: nat) -> bool
    decreases x, n,
{
    if n == 0 || n > x.len() {
        true
    } else {
        values_encode(x, (n - 1) as nat) && encodes(x[n - 1].value)
    }
}

/// As `encodes`, for the first `n` items.
pub open spec fn items_encode(x: Seq<Datum>, n: nat) -> bool
    decreases x, n,
{
    if n == 0 || n > x.len() {
        true
    } else {
        items_encode(x, (n - 1) as nat) && encodes(x[n - 1])
    }
}

#[verifier::external_type_specification]
#[verifier::external_body]
pub struct ExCborValue(ciborium::value::Value);

/// What `ciborium` reads from some bytes: a value in the library's own types, or the text of the
/// error.
pub uninterp spec fn decoded(cbor: Seq<u8>) -> Result<Datum, Seq<char>>;

/// Calls `ciborium::from_reader` and hands its value out in the library's own types. What is read
/// depends on the bytes alone. Every part of it has an encoding: `ciborium::into_writer` can fail
/// on a value only where its writer does, which a vector never does, or on a tag that is no `u64`,
/// which the tag of a value always is. What the bytes of an encoding are is not stated.
#[verifier::external_body]
fn read_value(cbor: &[u8]) -> (r: Result<Datum, String>)
    ensures
        match r {
            Ok(v) => decoded(cbor@) == Ok::<Datum, Seq<char>>(v) && encodes(v),
            Err(m) => decoded(cbor@) == Err::<Datum, Seq<char>>(m@),
        },
{
    match ciborium::from_reader::<ciborium::value::Value, &[u8]>(cbor) {
        Ok(v) => Ok(value_of(&v)),
        Err(e) => Err(e.to_string()),
    }
}

/// A `ciborium::value::Value` by its kind and by what `ciborium::into_writer` writes for it.
#[verifier::external_body]
fn value_of(v: &ciborium::value::Value) -> Datum {
    let mut buf = Vec::new();
    let encoded = ciborium::into_writer(v, &mut buf).ok().map(|_| buf);
    Datum { kind: kind_of(v), encoded }
}

/// The kind of a `ciborium::value::Value`.
#[verifier::external_body]
fn kind_of(v: &Value) -> DatumKind {
    match v {
        Value::Integer(i) => DatumKind::Integer((*i).into()),
        Value::Bytes(b) => DatumKind::Bytes(b.clone()),
        Value::Float(f) => DatumKind::Float(f.to_string()),
        Value::Text(t) => DatumKind::Text(t.clone()),
        Value::Bool(b) => DatumKind::Bool(*b),
        Value::Null => DatumKind::Null,
        Value::Tag(_, x) => DatumKind::Tagged(Box::new(value_of(x))),
        Value::Array(a) => DatumKind::Array(a.iter().map(value_of).collect()),
        Value::Map(m) => DatumKind::Table(m.iter().map(pair_of).collect()),
        _ => DatumKind::Other,
    }
}

/// An entry of a map of `ciborium`.
#[verifier::external_body]
fn pair_of(p: &(Value, Value)) -> Pair {
    Pair { key: value_of(&p.0), value: value_of(&p.1) }
}

/// Read a value.
pub fn decode(cbor: &[u8]) -> (r: Result<Datum, String>)
    ensures
        match r {
            Ok(v) => decoded(cbor@) == Ok::<Datum, Seq<char>>(v) && encodes(v),
            Err(m) => decoded(cbor@) == Err::<Datum, Seq<char>>(m@),
        },
{
    read_value(cbor)
}

/// Two values have the same encoding.
pub open spec fn same_value(a: Datum, b: Datum) -> bool {
    match (a.encoded, b.encoded) {
        (Some(x), Some(y)) => x@ == y@,
        _ => false,
    }
}

fn same_bytes(x: &Vec<u8>, y: &Vec<u8>) -> (r: bool)
    ensures
        r == (x@ == y@),
{
    if x.len() != y.len() {
        return false;
    }
    let mut i: usize = 0;
    while i < x.len()
        invariant
            i <= x@.len(),
            x@.len() == y@.len(),
            forall|k: int| 0 <= k < i ==> x@[k] == y@[k],
        decreases x@.len() - i,
    {
        if x[i] != y[i] {
            return false;
        }
        i += 1;
    }
    assert(x@ =~= y@);
    true
}

/// Whether two values have the same encoding.
pub fn values_equal(a: &Datum, b: &Datum) -> (r: bool)
    ensures
        r == same_value(*a, *b),
{
    match (&a.encoded, &b.encoded) {
        (Some(x), Some(y)) => same_bytes(x, y),
        _ => false,
    }
}

// ---------- Showing ----------

/// A value as text. Of bytes, the first `cap` are shown. A tag is left out.
pub open spec fn shown(v: Datum, cap: nat) -> Seq<char>
    decreases v, 0nat,
{
    match v.kind {
        DatumKind::Integer(n) => dec_int(n as int),
        DatumKind::Bytes(b) => "b\""@ + hex_head(b@, cap) + "\""@,
        DatumKind::Float(text) => text@,
        DatumKind::Text(text) => "\""@ + text@ + "\""@,
        DatumKind::Bool(b) => if b {
            "true"@
        } else {
            "false"@
        },
        DatumKind::Null => "null"@,
        DatumKind::Tagged(inner) => shown(*inner, cap),
        DatumKind::Array(items) => "["@ + shown_items(items@, items@.len(), cap) + "]"@,
        DatumKind::Table(pairs) => "{"@ + shown_pairs(pairs@, pairs@.len(), cap) + "}"@,
        DatumKind::Other => "?"@,
    }
}

/// The first `n` items, with a comma between each and the next.
pub open spec fn shown_items(items: Seq<Datum>, n: nat, cap: nat) -> Seq<char>
    decreases items, n,
{
    if n == 0 || n > items.len() {
        Seq::empty()
    } else if n == 1 {
        shown(items[0], cap)
    } else {
        shown_items(items, (n - 1) as nat, cap) + ", "@ + shown(items[n - 1], cap)
    }
}

/// An entry as text.
pub open spec fn shown_pair(p: Pair, cap: nat) -> Seq<char>
    decreases p, 0nat,
{
    shown(p.key, cap) + ": "@ + shown(p.value, cap)
}

/// The first `n` entries, with a comma between each and the next.
pub open spec fn shown_pairs(pairs: Seq<Pair>, n: nat, cap: nat) -> Seq<char>
    decreases pairs, n,
{
    if n == 0 || n > pairs.len() {
        Seq::empty()
    } else if n == 1 {
        shown_pair(pairs[0], cap)
    } else {
        shown_pairs(pairs, (n - 1) as nat, cap) + ", "@ + shown_pair(pairs[n - 1], cap)
    }
}

/// A value as text. Of bytes, the first `cap` are shown. A tag is left out.
pub fn show(v: &Datum, cap: usize) -> (r: String)
    ensures
        r@ == shown(*v, cap as nat),
    decreases *v, 0nat,
{
    match &v.kind {
        DatumKind::Integer(n) => decimal_int(*n),
        DatumKind::Bytes(b) => {
            let mut out = String::from_str("b\"");
            out.append(hex_prefix(b.as_slice(), cap).as_str());
            out.append("\"");
            out
        },
        DatumKind::Float(text) => text.clone(),
        DatumKind::Text(text) => {
            let mut out = String::from_str("\"");
            out.append(text.as_str());
            out.append("\"");
            out
        },
        DatumKind::Bool(b) => if *b {
            String::from_str("true")
        } else {
            String::from_str("false")
        },
        DatumKind::Null => String::from_str("null"),
        DatumKind::Tagged(inner) => show(inner, cap),
        DatumKind::Array(items) => {
            let mut out = String::from_str("[");
            out.append(show_items(items, cap).as_str());
            out.append("]");
            out
        },
        DatumKind::Table(pairs) => {
            let mut out = String::from_str("{");
            out.append(show_pairs(pairs, cap).as_str());
            out.append("}");
            out
        },
        DatumKind::Other => String::from_str("?"),
    }
}

fn show_items(items: &Vec<Datum>, cap: usize) -> (r: String)
    ensures
        r@ == shown_items(items@, items@.len(), cap as nat),
    decreases *items, items@.len() + 1,
{
    let mut out = String::new();
    let mut i: usize = 0;
    while i < items.len()
        invariant
            i <= items@.len(),
            out@ == shown_items(items@, i as nat, cap as nat),
        decreases items@.len() - i,
    {
        if i > 0 {
            out.append(", ");
        }
        out.append(show(&items[i], cap).as_str());
        i += 1;
        assert(i == 1 ==> out@ =~= shown(items@[0], cap as nat));
    }
    out
}

fn show_pair(p: &Pair, cap: usize) -> (r: String)
    ensures
        r@ == shown_pair(*p, cap as nat),
    decreases *p, 0nat,
{
    let mut out = show(&p.key, cap);
    out.append(": ");
    out.append(show(&p.value, cap).as_str());
    out
}

fn show_pairs(pairs: &Vec<Pair>, cap: usize) -> (r: String)
    ensures
        r@ == shown_pairs(pairs@, pairs@.len(), cap as nat),
    decreases *pairs, pairs@.len() + 1,
{
    let mut out = String::new();
    let mut i: usize = 0;
    while i < pairs.len()
        invariant
            i <= pairs@.len(),
            out@ == shown_pairs(pairs@, i as nat, cap as nat),
        decreases pairs@.len() - i,
    {
        if i > 0 {
            out.append(", ");
        }
        out.append(show_pair(&pairs[i], cap).as_str());
        i += 1;
        assert(i == 1 ==> out@ =~= shown_pair(pairs@[0], cap as nat));
    }
    out
}

} // verus!
