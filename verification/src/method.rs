//! What `#[trace_method]` makes of a function.

use vstd::prelude::*;

use crate::instrument::reader::{parsed_signature, read_signature};
use crate::instrument::syntax::{Arg, Pattern, Signature};
use crate::text::texts;

verus! {

/// What the wrapped function does before its body: it adopts the header, and notes its entry with
/// the captured arguments.
pub struct MethodPlan {
    /// The name that the entry is noted under.
    pub method: String,
    /// The argument that is the header, where there is one.
    pub header: Option<String>,
    /// The arguments whose values are noted, in order.
    pub captured: Vec<String>,
    pub is_async: bool,
}

/// The names of the first `n` parameters that are plain names with a type, in order.
pub open spec fn named(inputs: Seq<Arg>, n: nat) -> Seq<Seq<char>>
    decreases n,
{
    if n == 0 || n > inputs.len() {
        Seq::empty()
    } else {
        let before = named(inputs, (n - 1) as nat);
        match inputs[n - 1] {
            Arg::Typed { pat: Pattern::Ident(name), .. } => before.push(name@),
            _ => before,
        }
    }
}

/// The first named parameter is the header; the values of the others are noted.
pub open spec fn is_plan(p: MethodPlan, f: Signature) -> bool {
    let names = named(f.inputs@, f.inputs@.len());
    &&& p.method@ == f.ident@
    &&& p.is_async == f.is_async
    &&& match p.header {
        Some(h) => names.len() > 0 && h@ == names[0] && texts(p.captured@) == names.subrange(
            1,
            names.len() as int,
        ),
        None => names.len() == 0 && p.captured@.len() == 0,
    }
}

/// What `#[trace_method]` makes of a function.
pub fn trace_method(f: &Signature) -> (p: MethodPlan)
    ensures
        is_plan(p, *f),
{
    let ghost all = f.inputs@;
    let mut header: Option<String> = None;
    let mut captured: Vec<String> = Vec::new();
    let mut i: usize = 0;
    while i < f.inputs.len()
        invariant
            i <= f.inputs@.len(),
            all == f.inputs@,
            match header {
                Some(h) => seq![h@] + texts(captured@) == named(all, i as nat),
                None => captured@.len() == 0 && named(all, i as nat).len() == 0,
            },
        decreases f.inputs@.len() - i,
    {
        if let Arg::Typed { pat: Pattern::Ident(name), .. } = &f.inputs[i] {
            let ghost before = texts(captured@);
            let ghost names = named(all, i as nat);
            match &header {
                Some(h) => {
                    captured.push(name.clone());
                    assert(texts(captured@) =~= before.push(name@));
                    assert(seq![h@] + texts(captured@) =~= names.push(name@));
                },
                None => {
                    header = Some(name.clone());
                    assert(seq![name@] + texts(captured@) =~= names.push(name@));
                },
            }
        }
        i += 1;
    }
    proof {
        let names = named(all, all.len());
        if header is Some {
            assert(names.subrange(1, names.len() as int) =~= texts(captured@));
        }
    }
    MethodPlan { method: f.ident.clone(), header, captured, is_async: f.is_async }
}

/// What `#[trace_method]` makes of the text of a function, or why it is none.
pub fn plan_method(src: &str) -> (r: Result<MethodPlan, String>)
    ensures
        match (parsed_signature(src@), r) {
            (Ok(f), Ok(p)) => is_plan(p, f),
            (Err(m), Err(e)) => e@ == m,
            _ => false,
        },
{
    match read_signature(src) {
        Ok(f) => Ok(trace_method(&f)),
        Err(e) => Err(e),
    }
}

/// The parameter is a plain name with a type.
pub open spec fn is_named(a: Arg) -> bool {
    a matches Arg::Typed { pat: Pattern::Ident(_), .. }
}

/// The name of such a parameter.
pub open spec fn name_of(a: Arg) -> Seq<char> {
    match a {
        Arg::Typed { pat: Pattern::Ident(name), .. } => name@,
        _ => Seq::empty(),
    }
}

proof fn lemma_named_first(inputs: Seq<Arg>, n: nat, k: int)
    requires
        0 <= k < n <= inputs.len(),
        is_named(inputs[k]),
        forall|j: int| 0 <= j < k ==> !is_named(#[trigger] inputs[j]),
    ensures
        named(inputs, n).len() > 0,
        named(inputs, n)[0] == name_of(inputs[k]),
    decreases n,
{
    if k < n - 1 {
        lemma_named_first(inputs, (n - 1) as nat, k);
    } else {
        lemma_none_named(inputs, (n - 1) as nat);
    }
}

proof fn lemma_none_named(inputs: Seq<Arg>, n: nat)
    requires
        n <= inputs.len(),
        forall|j: int| 0 <= j < n ==> !is_named(#[trigger] inputs[j]),
    ensures
        named(inputs, n).len() == 0,
    decreases n,
{
    if n > 0 {
        assert(!is_named(inputs[n - 1]));
        lemma_none_named(inputs, (n - 1) as nat);
    }
}

proof fn lemma_named_later(inputs: Seq<Arg>, n: nat, k: int, m: int)
    requires
        0 <= k < m < n <= inputs.len(),
        is_named(inputs[k]),
        is_named(inputs[m]),
    ensures
        exists|i: int|
            1 <= i < named(inputs, n).len() && #[trigger] named(inputs, n)[i] == name_of(inputs[m]),
    decreases n,
{
    let before = named(inputs, (n - 1) as nat);
    let now = named(inputs, n);
    if m < n - 1 {
        lemma_named_later(inputs, (n - 1) as nat, k, m);
        let i = choose|i: int|
            1 <= i < before.len() && #[trigger] before[i] == name_of(inputs[m]);
        assert(now[i] == before[i]);
    } else {
        lemma_some_named(inputs, (n - 1) as nat, k);
        assert(now[before.len() as int] == name_of(inputs[m]));
    }
}

proof fn lemma_some_named(inputs: Seq<Arg>, n: nat, k: int)
    requires
        0 <= k < n <= inputs.len(),
        is_named(inputs[k]),
    ensures
        named(inputs, n).len() > 0,
    decreases n,
{
    if k < n - 1 {
        lemma_some_named(inputs, (n - 1) as nat, k);
    }
}

/// The first parameter with a plain name, at `k`, is the header. Each later one, at `m`, is captured.
/// Without one there is no header, and nothing is captured.
pub proof fn law_header_and_captured(p: MethodPlan, f: Signature, k: int, m: int)
    requires
        is_plan(p, f),
        0 <= k <= f.inputs@.len(),
        forall|j: int| 0 <= j < k ==> !is_named(#[trigger] f.inputs@[j]),
        k < f.inputs@.len() ==> is_named(f.inputs@[k]),
    ensures
        p.method@ == f.ident@,
        p.is_async == f.is_async,
        k < f.inputs@.len() ==> (p.header matches Some(h) && h@ == name_of(f.inputs@[k])),
        k < m < f.inputs@.len() && is_named(f.inputs@[m]) ==> texts(p.captured@).contains(
            name_of(f.inputs@[m]),
        ),
        k == f.inputs@.len() ==> p.header is None && p.captured@.len() == 0,
{
    let n = f.inputs@.len();
    let names = named(f.inputs@, n);
    if k < n {
        lemma_named_first(f.inputs@, n, k);
        if k < m < n && is_named(f.inputs@[m]) {
            lemma_named_later(f.inputs@, n, k, m);
            let i = choose|i: int|
                1 <= i < names.len() && #[trigger] names[i] == name_of(f.inputs@[m]);
            assert(texts(p.captured@)[i - 1] == names[i]);
        }
    } else {
        lemma_none_named(f.inputs@, n);
    }
}

} // verus!
