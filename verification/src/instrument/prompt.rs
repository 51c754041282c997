//! Asking about each candidate.

use vstd::prelude::*;
use vstd::string::*;

use crate::instrument::edit::{flat_of, placed};
use crate::instrument::gather::all_placed;
use crate::instrument::{
    views, Candidate, CandidateView, Replacement, ReplacementView,
};
use crate::text::{chars_of, replace_str, replaced, string_of, trim, trim_of};

verus! {

/// What the user may say to a candidate.
#[derive(Debug, Clone, Copy, PartialEq, Eq, Structural)]
pub enum Choice {
    Accept,
    Decline,
    SkipRest,
    Quit,
}

impl Choice {
    /// The choice at a place of the menu: accept, decline, skip the rest of the file, quit.
    pub open spec fn at(i: int) -> Choice {
        if i == 0 {
            Choice::Accept
        } else if i == 1 {
            Choice::Decline
        } else if i == 2 {
            Choice::SkipRest
        } else {
            Choice::Quit
        }
    }

    /// The choice at a place of the menu: accept, decline, skip the rest of the file, quit.
    pub fn of_index(i: usize) -> (r: Choice)
        ensures
            r == Choice::at(i as int),
    {
        if i == 0 {
            Choice::Accept
        } else if i == 1 {
            Choice::Decline
        } else if i == 2 {
            Choice::SkipRest
        } else {
            Choice::Quit
        }
    }
}

/// What was typed, without white space around it; `otherwise` where nothing is left.
pub open spec fn typed(text: Seq<char>, otherwise: Seq<char>) -> Seq<char> {
    if trim(text).len() == 0 {
        otherwise
    } else {
        trim(text)
    }
}

/// The candidate with the key and the value filled in that were typed.
pub open spec fn settled(c: CandidateView, key: Seq<char>, value: Seq<char>) -> CandidateView {
    match c.replacement {
        ReplacementView::InsertAfterWithKey { template, default_key } => CandidateView {
            replacement: ReplacementView::InsertRaw(
                replaced(template, "{KEY}"@, typed(key, default_key)),
            ),
            ..c
        },
        ReplacementView::InsertWithKeyAndValue { template, default_key, value_hint } => CandidateView {
            replacement: ReplacementView::InsertRaw(
                replaced(
                    replaced(template, "{KEY}"@, typed(key, default_key)),
                    "{VALUE}"@,
                    typed(value, value_hint),
                ),
            ),
            ..c
        },
        _ => c,
    }
}

fn read_typed(text: &str, otherwise: &String) -> (r: String)
    ensures
        r@ == typed(text@, otherwise@),
{
    let chars = chars_of(text);
    let t = trim_of(chars.as_slice());
    if t.len() == 0 {
        otherwise.clone()
    } else {
        string_of(t)
    }
}

/// The candidate with the key and the value filled in that were typed.
pub fn settle(c: &Candidate, key: &str, value: &str) -> (r: Candidate)
    ensures
        r@ == settled(c@, key@, value@),
{
    let mut out = c.clone();
    proof {
        reveal_strlit("{KEY}");
        reveal_strlit("{VALUE}");
    }
    match &c.replacement {
        Replacement::InsertAfterWithKey { template, default_key } => {
            let k = read_typed(key, default_key);
            out.replacement = Replacement::InsertRaw(
                replace_str(template.as_str(), "{KEY}", k.as_str()),
            );
        },
        Replacement::InsertWithKeyAndValue { template, default_key, value_hint } => {
            let k = read_typed(key, default_key);
            let v = read_typed(value, value_hint);
            let keyed = replace_str(template.as_str(), "{KEY}", k.as_str());
            out.replacement = Replacement::InsertRaw(
                replace_str(keyed.as_str(), "{VALUE}", v.as_str()),
            );
        },
        _ => {},
    }
    out
}

/// What has been accepted, and whether the asking is over.
pub struct Session {
    pub accepted: Vec<Candidate>,
    pub over: bool,
}

/// A session as a mathematical value.
pub struct SessionView {
    pub accepted: Seq<CandidateView>,
    pub over: bool,
}

impl View for Session {
    type V = SessionView;

    open spec fn view(&self) -> SessionView {
        SessionView { accepted: views(self.accepted@), over: self.over }
    }
}

/// What the user said to a candidate, with what was typed for its key and its value.
pub struct Answer {
    pub choice: Choice,
    pub key: Seq<char>,
    pub value: Seq<char>,
}

/// The session after an answer to `c`. Once the asking is over nothing changes; to quit gives up
/// what was accepted.
pub open spec fn after(s: SessionView, c: CandidateView, a: Answer) -> SessionView {
    if s.over {
        s
    } else {
        match a.choice {
            Choice::Accept => SessionView {
                accepted: s.accepted.push(settled(c, a.key, a.value)),
                over: false,
            },
            Choice::Decline => s,
            Choice::SkipRest => SessionView { accepted: s.accepted, over: true },
            Choice::Quit => SessionView { accepted: Seq::empty(), over: true },
        }
    }
}

/// The session after the answers to the first `n` candidates.
pub open spec fn run(cs: Seq<CandidateView>, answers: Seq<Answer>, n: nat) -> SessionView
    decreases n,
{
    if n == 0 {
        SessionView { accepted: Seq::empty(), over: false }
    } else {
        after(run(cs, answers, (n - 1) as nat), cs[n - 1], answers[n - 1])
    }
}

impl Session {
    /// Nothing has been accepted yet.
    pub fn new() -> (s: Session)
        ensures
            s@ == (SessionView { accepted: Seq::empty(), over: false }),
    {
        let s = Session { accepted: Vec::new(), over: false };
        assert(s@.accepted =~= Seq::empty());
        s
    }

    /// Take the answer to `c`.
    pub fn answer(&mut self, c: &Candidate, choice: Choice, key: &str, value: &str)
        ensures
            final(self)@ == after(old(self)@, c@, (Answer { choice, key: key@, value: value@ })),
    {
        let ghost before = self@;
        if self.over {
            return ;
        }
        match choice {
            Choice::Accept => {
                self.accepted.push(settle(c, key, value));
                assert(self@.accepted =~= before.accepted.push(settled(c@, key@, value@)));
            },
            Choice::Decline => {},
            Choice::SkipRest => {
                self.over = true;
            },
            Choice::Quit => {
                self.accepted = Vec::new();
                self.over = true;
                assert(self@.accepted =~= Seq::empty());
            },
        }
    }
}

/// Filling in a key and a value does not move a candidate's edits.
pub proof fn law_settled_stays_placed(
    c: CandidateView,
    key: Seq<char>,
    value: Seq<char>,
    src: Seq<char>,
)
    requires
        placed(c, src),
    ensures
        placed(settled(c, key, value), src),
{
    let s = settled(c, key, value);
    assert(flat_of(c).len() == flat_of(s).len());
    assert forall|k: int| 0 <= k < flat_of(s).len() implies crate::instrument::edit::fits(
        #[trigger] flat_of(s)[k],
        vstd::utf8::encode_utf8(src),
    ) by {
        assert(flat_of(c)[k].start == flat_of(s)[k].start);
        assert(flat_of(c)[k].end == flat_of(s)[k].end);
    }
}

/// Whatever is answered, what has been accepted can be applied to the source that the candidates
/// were found in, if the candidates can.
pub proof fn law_accepted_stay_placed(
    cs: Seq<CandidateView>,
    answers: Seq<Answer>,
    src: Seq<char>,
    n: nat,
)
    requires
        n <= cs.len(),
        n <= answers.len(),
        all_placed(cs, src),
    ensures
        all_placed(run(cs, answers, n).accepted, src),
    decreases n,
{
    reveal(all_placed);
    if n > 0 {
        law_accepted_stay_placed(cs, answers, src, (n - 1) as nat);
        let a = answers[n - 1];
        assert(placed(cs[n - 1], src));
        law_settled_stays_placed(cs[n - 1], a.key, a.value, src);
    }
}

/// Once the user quits, nothing is accepted, whatever comes before or after.
pub proof fn law_quit_accepts_nothing(
    cs: Seq<CandidateView>,
    answers: Seq<Answer>,
    at: nat,
    n: nat,
)
    requires
        at < n <= cs.len(),
        n <= answers.len(),
        answers[at as int].choice == Choice::Quit,
        !run(cs, answers, at).over,
    ensures
        run(cs, answers, n).accepted.len() == 0,
        run(cs, answers, n).over,
    decreases n,
{
    if n > at + 1 {
        law_quit_accepts_nothing(cs, answers, at, (n - 1) as nat);
    }
}

/// To skip the rest keeps what was accepted before, and no more.
pub proof fn law_skip_keeps_accepted(
    cs: Seq<CandidateView>,
    answers: Seq<Answer>,
    at: nat,
    n: nat,
)
    requires
        at < n <= cs.len(),
        n <= answers.len(),
        answers[at as int].choice == Choice::SkipRest,
        !run(cs, answers, at).over,
    ensures
        run(cs, answers, n).accepted == run(cs, answers, at).accepted,
        run(cs, answers, n).over,
    decreases n,
{
    if n > at + 1 {
        law_skip_keeps_accepted(cs, answers, at, (n - 1) as nat);
    }
}

} // verus!
