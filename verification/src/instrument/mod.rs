//! Finding the places of a canister's source that want tracing, and the edits
//! that put it there.

use vstd::prelude::*;

use std::ops::Range;

use crate::order::{slot, sorted};

pub mod agent_js;
pub mod agent_js_found;
pub mod agent_js_rerun;
pub mod asked;
pub mod detect;
pub mod diff;
pub mod edit;
pub mod found;
pub mod gather;
pub mod insertion;
pub mod mentions;
pub mod motoko;
pub mod once;
pub mod parse;
pub mod prompt;
pub mod reader;
pub mod report;
pub mod seen;
pub mod settled;
pub mod syntax;
pub mod wizard;

verus! {

/// What a candidate edit is for.
#[derive(Debug, Clone, Copy, PartialEq, Eq, Structural)]
pub enum Rule {
    /// Put `#[trace_method]` above an entry method that takes a `TraceHeader`.
    WrapMethod,
    /// Like `WrapMethod`, but the method takes no `TraceHeader` yet: the edit
    /// also inserts the parameter, which breaks every caller.
    WrapMethodInsertHeader,
    /// Turn `ic_cdk::call` into `call_traced!`.
    ConvertCall,
    /// Note the entry of a traced method.
    EntryNote,
    /// Snapshot a struct that was just built.
    SnapshotLocal,
    /// Snapshot a `thread_local!` container after `NAME.with(..)` changed it.
    MutationSnapshot,
    /// Note that an error is returned after state was recorded.
    RollbackNote,
    /// Note that the canister is about to trap.
    TrapNote,
    /// Give an actor its `Trace` import, its tracer field and `__debug_drain`.
    MoBootstrap,
    /// Wrap the body of a public function that takes the header.
    MoWrapMethod,
    /// Like `MoWrapMethod`, but the header parameter is inserted too.
    MoWrapMethodInsertHeader,
    /// Note the entry of a traced public function.
    MoEntryNote,
    /// Note a `Debug.trap` in a traced body.
    MoTrapNote,
    /// Note a `throw` in a traced body.
    MoRollbackNote,
    /// Snapshot a variable of the actor after an assignment in a traced body.
    MoMutationSnapshot,
}

impl Rule {
    /// The rule's name on the command line.
    pub open spec fn name(self) -> Seq<char> {
        match self {
            Rule::WrapMethod => "wrap-method"@,
            Rule::WrapMethodInsertHeader => "wrap-method-insert-header"@,
            Rule::ConvertCall => "convert-call"@,
            Rule::EntryNote => "entry-note"@,
            Rule::SnapshotLocal => "snapshot-local"@,
            Rule::MutationSnapshot => "mutation-snapshot"@,
            Rule::RollbackNote => "rollback-note"@,
            Rule::TrapNote => "trap-note"@,
            Rule::MoBootstrap => "mo-bootstrap"@,
            Rule::MoWrapMethod => "mo-wrap-method"@,
            Rule::MoWrapMethodInsertHeader => "mo-wrap-method-insert-header"@,
            Rule::MoEntryNote => "mo-entry-note"@,
            Rule::MoTrapNote => "mo-trap-note"@,
            Rule::MoRollbackNote => "mo-rollback-note"@,
            Rule::MoMutationSnapshot => "mo-mutation-snapshot"@,
        }
    }

    /// The rule's name on the command line.
    pub fn as_str(self) -> (r: &'static str)
        ensures
            r@ == self.name(),
    {
        match self {
            Rule::WrapMethod => "wrap-method",
            Rule::WrapMethodInsertHeader => "wrap-method-insert-header",
            Rule::ConvertCall => "convert-call",
            Rule::EntryNote => "entry-note",
            Rule::SnapshotLocal => "snapshot-local",
            Rule::MutationSnapshot => "mutation-snapshot",
            Rule::RollbackNote => "rollback-note",
            Rule::TrapNote => "trap-note",
            Rule::MoBootstrap => "mo-bootstrap",
            Rule::MoWrapMethod => "mo-wrap-method",
            Rule::MoWrapMethodInsertHeader => "mo-wrap-method-insert-header",
            Rule::MoEntryNote => "mo-entry-note",
            Rule::MoTrapNote => "mo-trap-note",
            Rule::MoRollbackNote => "mo-rollback-note",
            Rule::MoMutationSnapshot => "mo-mutation-snapshot",
        }
    }
}

/// One place found. `byte_range` is the part of the source that the edit
/// touches; `replacement` says what becomes of it.
#[derive(Debug)]
pub struct Candidate {
    pub rule: Rule,
    pub byte_range: Range<usize>,
    pub fn_name: String,
    /// One line for the user, such as "wrap `lock_funds` with #[trace_method]".
    pub summary: String,
    /// A caution to show beneath the summary.
    pub warning: Option<String>,
    pub replacement: Replacement,
}

/// What an edit puts into the source.
#[derive(Debug)]
pub enum Replacement {
    /// Put this text in the place of the range.
    Replace(String),
    /// Insert this text at the start of the range, which is empty.
    InsertRaw(String),
    /// Insert the template, with `{KEY}` filled in.
    InsertAfterWithKey { template: String, default_key: String },
    /// Several edits that belong together.
    Multi(Vec<(Range<usize>, String)>),
    /// Insert the template, with `{KEY}` and `{VALUE}` filled in.
    InsertWithKeyAndValue { template: String, default_key: String, value_hint: String },
}

/// A candidate as a mathematical value.
pub struct CandidateView {
    pub rule: Rule,
    pub start: int,
    pub end: int,
    pub fn_name: Seq<char>,
    pub summary: Seq<char>,
    pub warning: Option<Seq<char>>,
    pub replacement: ReplacementView,
}

/// A replacement as a mathematical value.
pub enum ReplacementView {
    Replace(Seq<char>),
    InsertRaw(Seq<char>),
    InsertAfterWithKey { template: Seq<char>, default_key: Seq<char> },
    Multi(Seq<EditView>),
    InsertWithKeyAndValue { template: Seq<char>, default_key: Seq<char>, value_hint: Seq<char> },
}

/// Put `text` in the place of the bytes from `start` up to `end`.
pub struct EditView {
    pub start: int,
    pub end: int,
    pub text: Seq<char>,
}

/// The edits of a `Multi` replacement as mathematical values.
pub open spec fn edits_view(v: Seq<(Range<usize>, String)>) -> Seq<EditView> {
    Seq::new(
        v.len(),
        |i: int| EditView { start: v[i].0.start as int, end: v[i].0.end as int, text: v[i].1@ },
    )
}

impl View for Replacement {
    type V = ReplacementView;

    open spec fn view(&self) -> ReplacementView {
        match *self {
            Replacement::Replace(s) => ReplacementView::Replace(s@),
            Replacement::InsertRaw(s) => ReplacementView::InsertRaw(s@),
            Replacement::InsertAfterWithKey { template, default_key } => {
                ReplacementView::InsertAfterWithKey {
                    template: template@,
                    default_key: default_key@,
                }
            },
            Replacement::Multi(v) => ReplacementView::Multi(edits_view(v@)),
            Replacement::InsertWithKeyAndValue { template, default_key, value_hint } => {
                ReplacementView::InsertWithKeyAndValue {
                    template: template@,
                    default_key: default_key@,
                    value_hint: value_hint@,
                }
            },
        }
    }
}

/// The view of an optional string.
pub open spec fn opt_text(s: Option<String>) -> Option<Seq<char>> {
    match s {
        Some(t) => Some(t@),
        None => None,
    }
}

impl View for Candidate {
    type V = CandidateView;

    open spec fn view(&self) -> CandidateView {
        CandidateView {
            rule: self.rule,
            start: self.byte_range.start as int,
            end: self.byte_range.end as int,
            fn_name: self.fn_name@,
            summary: self.summary@,
            warning: opt_text(self.warning),
            replacement: self.replacement@,
        }
    }
}

impl Clone for Replacement {
    fn clone(&self) -> (r: Self)
        ensures
            r@ == self@,
    {
        match self {
            Replacement::Replace(s) => Replacement::Replace(s.clone()),
            Replacement::InsertRaw(s) => Replacement::InsertRaw(s.clone()),
            Replacement::InsertAfterWithKey { template, default_key } => {
                Replacement::InsertAfterWithKey {
                    template: template.clone(),
                    default_key: default_key.clone(),
                }
            },
            Replacement::Multi(v) => {
                let mut out: Vec<(Range<usize>, String)> = Vec::new();
                let mut i: usize = 0;
                while i < v.len()
                    invariant
                        i <= v@.len(),
                        edits_view(out@) == edits_view(v@).subrange(0, i as int),
                    decreases v@.len() - i,
                {
                    let ghost before = out@;
                    out.push((v[i].0.start..v[i].0.end, v[i].1.clone()));
                    i += 1;
                    assert(edits_view(out@) =~= edits_view(before).push(edits_view(v@)[i - 1]));
                    assert(edits_view(v@).subrange(0, i as int) =~= edits_view(v@).subrange(
                        0,
                        i - 1,
                    ).push(edits_view(v@)[i - 1]));
                }
                assert(edits_view(v@).subrange(0, i as int) =~= edits_view(v@));
                Replacement::Multi(out)
            },
            Replacement::InsertWithKeyAndValue { template, default_key, value_hint } => {
                Replacement::InsertWithKeyAndValue {
                    template: template.clone(),
                    default_key: default_key.clone(),
                    value_hint: value_hint.clone(),
                }
            },
        }
    }
}

impl Clone for Candidate {
    fn clone(&self) -> (r: Self)
        ensures
            r@ == self@,
    {
        let warning = match &self.warning {
            Some(w) => Some(w.clone()),
            None => None,
        };
        Candidate {
            rule: self.rule,
            byte_range: self.byte_range.start..self.byte_range.end,
            fn_name: self.fn_name.clone(),
            summary: self.summary.clone(),
            warning,
            replacement: self.replacement.clone(),
        }
    }
}

/// The views of a sequence of candidates.
pub open spec fn views(v: Seq<Candidate>) -> Seq<CandidateView> {
    Seq::new(v.len(), |i: int| v[i]@)
}

/// Candidates go by where they begin.
pub open spec fn candidate_key() -> spec_fn(CandidateView) -> int {
    |c: CandidateView| c.start
}

/// The candidates by where they begin; those that begin together keep their order.
pub open spec fn by_place(cs: Seq<CandidateView>) -> Seq<CandidateView> {
    sorted(cs, candidate_key(), cs.len())
}

/// The candidates by where they begin; those that begin together keep their order.
pub fn sort_by_place(cs: Vec<Candidate>) -> (out: Vec<Candidate>)
    ensures
        views(out@) == by_place(views(cs@)),
{
    let ghost all = views(cs@);
    let ghost key = candidate_key();
    let mut out: Vec<Candidate> = Vec::new();
    assert(views(out@) =~= sorted(all, key, 0));
    let mut i: usize = 0;
    while i < cs.len()
        invariant
            i <= cs@.len(),
            all == views(cs@),
            key == candidate_key(),
            views(out@) == sorted(all, key, i as nat),
        decreases cs@.len() - i,
    {
        let c = cs[i].clone();
        let ghost found = c@;
        assert(found == all[i as int]);
        let ghost before = views(out@);
        let mut n: usize = out.len();
        while n > 0 && out[n - 1].byte_range.start > c.byte_range.start
            invariant
                n <= out@.len(),
                c@ == found,
                key == candidate_key(),
                before == views(out@),
                slot(before, key, found.start, before.len() as int) == slot(
                    before,
                    key,
                    found.start,
                    n as int,
                ),
            decreases n,
        {
            n -= 1;
        }
        out.insert(n, c);
        assert(views(out@) =~= before.insert(n as int, found));
        i += 1;
    }
    out
}

/// Each rule goes by a name of its own, and those for Motoko have names that begin with `mo-`.
pub proof fn law_rules_have_names_of_their_own(a: Rule, b: Rule)
    ensures
        a.name() == b.name() ==> a == b,
        a is MoBootstrap || a is MoWrapMethod || a is MoWrapMethodInsertHeader || a is MoEntryNote
            || a is MoTrapNote || a is MoRollbackNote || a is MoMutationSnapshot
            <==> a.name().subrange(0, 3) == "mo-"@,
{
    reveal_strlit("wrap-method");
    reveal_strlit("wrap-method-insert-header");
    reveal_strlit("convert-call");
    reveal_strlit("entry-note");
    reveal_strlit("snapshot-local");
    reveal_strlit("mutation-snapshot");
    reveal_strlit("rollback-note");
    reveal_strlit("trap-note");
    reveal_strlit("mo-bootstrap");
    reveal_strlit("mo-wrap-method");
    reveal_strlit("mo-wrap-method-insert-header");
    reveal_strlit("mo-entry-note");
    reveal_strlit("mo-trap-note");
    reveal_strlit("mo-rollback-note");
    reveal_strlit("mo-mutation-snapshot");
    reveal_strlit("mo-");
    let x = a.name();
    let y = b.name();
    assert(x.subrange(0, 3)[0] == x[0] && x.subrange(0, 3)[1] == x[1]);
    assert("mo-"@[0] == 'm' && "mo-"@[1] == 'o');
    if a is MoBootstrap || a is MoWrapMethod || a is MoWrapMethodInsertHeader || a is MoEntryNote
        || a is MoTrapNote || a is MoRollbackNote || a is MoMutationSnapshot {
        assert(x.subrange(0, 3) =~= "mo-"@);
    }
    if x == y {
        assert(x.len() == y.len() && x[0] == y[0] && x[3] == y[3]);
    }
}

} // verus!
