//! What the wizard does with a file: which files it looks at, what it finds in
//! them, and what it does next.

use vstd::prelude::*;
use vstd::string::*;

use crate::instrument::detect;
use crate::instrument::gather::{all_placed, lemma_none_placed};
use crate::instrument::motoko;
use crate::instrument::parse::{aliases_of, collect_aliases, parse_file};
use crate::instrument::reader::parsed_file;
use crate::instrument::{views, Candidate, CandidateView, Rule};
use crate::text::{chars_of, same_text, starts_with, starts_with_str, texts};

verus! {

/// What the user asked for.
pub struct Options {
    pub path: String,
    pub dry_run: bool,
    pub diff_only: bool,
    pub apply_all: bool,
    /// Where callers in JavaScript are looked for once a method gained a header.
    pub agent_js_root: String,
    pub skip_agent_js: bool,
}

// ---------- Which files ----------

/// The languages that the wizard knows.
#[derive(Debug, Clone, Copy, PartialEq, Eq, Structural)]
pub enum Language {
    Rust,
    Motoko,
}

/// The language of files with an extension.
pub open spec fn language(ext: Seq<char>) -> Option<Language> {
    if ext == "rs"@ {
        Some(Language::Rust)
    } else if ext == "mo"@ {
        Some(Language::Motoko)
    } else {
        None
    }
}

/// The language of files with an extension.
pub fn language_of(ext: &str) -> (r: Option<Language>)
    ensures
        r == language(ext@),
{
    if same_text(ext, "rs") {
        Some(Language::Rust)
    } else if same_text(ext, "mo") {
        Some(Language::Motoko)
    } else {
        None
    }
}

/// Nobody writes source by hand in a directory of this name: it is hidden, or holds what was
/// built or brought in.
pub open spec fn holds_no_source(name: Seq<char>) -> bool {
    starts_with(name, "."@) || name == "target"@ || name == "node_modules"@ || name == "dist"@
        || name == "build"@
}

/// Whether a directory of this name is left out of the walk.
pub fn skips_dir(name: &str) -> (r: bool)
    ensures
        r == holds_no_source(name@),
{
    let chars = chars_of(name);
    starts_with_str(chars.as_slice(), ".") || same_text(name, "target") || same_text(
        name,
        "node_modules",
    ) || same_text(name, "dist") || same_text(name, "build")
}

/// Nobody writes scripts by hand in a directory of this name.
pub open spec fn holds_no_script(name: Seq<char>) -> bool {
    starts_with(name, "."@) || name == "node_modules"@ || name == "dist"@ || name == "build"@
}

/// Whether a directory of this name is left out of the walk for scripts.
pub fn skips_script_dir(name: &str) -> (r: bool)
    ensures
        r == holds_no_script(name@),
{
    let chars = chars_of(name);
    starts_with_str(chars.as_slice(), ".") || same_text(name, "node_modules") || same_text(
        name,
        "dist",
    ) || same_text(name, "build")
}

/// Files with the extension are scripts.
pub open spec fn script_extension(ext: Seq<char>) -> bool {
    ext == "mjs"@ || ext == "js"@ || ext == "cjs"@ || ext == "ts"@
}

/// Whether files with the extension are scripts.
pub fn is_script(ext: &str) -> (r: bool)
    ensures
        r == script_extension(ext@),
{
    same_text(ext, "mjs") || same_text(ext, "js") || same_text(ext, "cjs") || same_text(ext, "ts")
}

// ---------- What is found ----------

/// What is found in a Rust file that was read as `parsed`.
pub open spec fn found_in_rust(
    parsed: Result<crate::instrument::syntax::File, Seq<char>>,
    src: Seq<char>,
) -> Result<Seq<CandidateView>, Seq<char>> {
    match parsed {
        Ok(file) => Ok(detect::detected(file, src, aliases_of(file))),
        Err(message) => Err(message),
    }
}

/// What is found in a file; an error where it cannot be read as its language.
pub open spec fn found(lang: Option<Language>, src: Seq<char>, trace_path: Seq<char>) -> Result<
    Seq<CandidateView>,
    Seq<char>,
> {
    match lang {
        Some(Language::Rust) => found_in_rust(parsed_file(src), src),
        Some(Language::Motoko) => Ok(motoko::detected(src, trace_path)),
        None => Ok(Seq::empty()),
    }
}

/// What is found in a file; an error where it cannot be read as its language. `trace_path` is the
/// path to import the Motoko `Trace` module by.
pub fn find_candidates(lang: Option<Language>, src: &str, trace_path: &str) -> (r: Result<
    Vec<Candidate>,
    String,
>)
    ensures
        match r {
            Ok(cs) => found(lang, src@, trace_path@) == Ok::<Seq<CandidateView>, Seq<char>>(
                views(cs@),
            ) && all_placed(views(cs@), src@),
            Err(message) => found(lang, src@, trace_path@) == Err::<Seq<CandidateView>, Seq<char>>(
                message@,
            ),
        },
{
    match lang {
        Some(Language::Rust) => match parse_file(src) {
            Ok(file) => {
                let aliases = collect_aliases(&file);
                Ok(detect::all(&file, src, &aliases))
            },
            Err(message) => Err(message),
        },
        Some(Language::Motoko) => Ok(motoko::detect(src, trace_path)),
        None => {
            let out: Vec<Candidate> = Vec::new();
            proof {
                lemma_none_placed(src@);
                assert(views(out@) =~= Seq::<CandidateView>::empty());
            }
            Ok(out)
        },
    }
}

// ---------- What comes next ----------

/// What to do with what was found in a file.
#[derive(Debug, Clone, Copy, PartialEq, Eq, Structural)]
pub enum Action {
    /// Say that there is nothing.
    SayNone,
    /// There is nothing, and nothing is said.
    Pass,
    /// List the candidates.
    List,
    /// Take all candidates.
    AcceptAll,
    /// Ask about each candidate.
    Ask,
}

/// What to do with `count` candidates.
pub open spec fn next_action(o: Options, count: nat) -> Action {
    if count == 0 {
        if o.diff_only {
            Action::Pass
        } else {
            Action::SayNone
        }
    } else if o.dry_run {
        Action::List
    } else if o.diff_only || o.apply_all {
        Action::AcceptAll
    } else {
        Action::Ask
    }
}

/// What to do with `count` candidates.
pub fn choose_action(o: &Options, count: usize) -> (r: Action)
    ensures
        r == next_action(*o, count as nat),
{
    if count == 0 {
        if o.diff_only {
            Action::Pass
        } else {
            Action::SayNone
        }
    } else if o.dry_run {
        Action::List
    } else if o.diff_only || o.apply_all {
        Action::AcceptAll
    } else {
        Action::Ask
    }
}

/// What to do with the edited text.
#[derive(Debug, Clone, Copy, PartialEq, Eq, Structural)]
pub enum Outcome {
    /// Nothing was accepted: the file stays.
    Unchanged,
    /// Print the diff; the file stays.
    PrintDiff,
    /// Write the file.
    Write,
    /// Show the diff, and write the file if the user agrees.
    ConfirmAndWrite,
}

/// What to do once `accepted` candidates were accepted.
pub open spec fn next_outcome(o: Options, accepted: nat) -> Outcome {
    if accepted == 0 {
        Outcome::Unchanged
    } else if o.diff_only {
        Outcome::PrintDiff
    } else if o.apply_all {
        Outcome::Write
    } else {
        Outcome::ConfirmAndWrite
    }
}

/// What to do once `accepted` candidates were accepted.
pub fn choose_outcome(o: &Options, accepted: usize) -> (r: Outcome)
    ensures
        r == next_outcome(*o, accepted as nat),
{
    if accepted == 0 {
        Outcome::Unchanged
    } else if o.diff_only {
        Outcome::PrintDiff
    } else if o.apply_all {
        Outcome::Write
    } else {
        Outcome::ConfirmAndWrite
    }
}

/// A dry run and a diff leave the file and its callers as they are, whatever else was asked for.
pub proof fn law_dry_run_and_diff_write_nothing(o: Options, count: nat, accepted: nat)
    ensures
        o.dry_run ==> next_action(o, count) != Action::AcceptAll && next_action(o, count)
            != Action::Ask,
        o.diff_only ==> next_outcome(o, accepted) != Outcome::Write && next_outcome(o, accepted)
            != Outcome::ConfirmAndWrite,
        o.dry_run || o.diff_only ==> next_update(o, count) != Update::Apply && next_update(o, count)
            != Update::Ask,
{
}

/// The candidate gives a method a header, which changes what callers pass.
pub open spec fn breaks_callers(c: CandidateView) -> bool {
    c.rule == Rule::WrapMethodInsertHeader || c.rule == Rule::MoWrapMethodInsertHeader
}

/// The methods that the first `n` candidates give a header.
pub open spec fn changed_methods(cs: Seq<CandidateView>, n: nat) -> Seq<Seq<char>>
    decreases n,
{
    if n == 0 || n > cs.len() {
        Seq::empty()
    } else {
        let before = changed_methods(cs, (n - 1) as nat);
        if breaks_callers(cs[n - 1]) {
            before.push(cs[n - 1].fn_name)
        } else {
            before
        }
    }
}

/// The methods that the accepted candidates give a header, whose callers are looked for.
pub fn methods_to_update(accepted: &[Candidate]) -> (out: Vec<String>)
    ensures
        texts(out@) == changed_methods(views(accepted@), accepted@.len()),
{
    let ghost all = views(accepted@);
    let mut out: Vec<String> = Vec::new();
    assert(texts(out@) =~= changed_methods(all, 0));
    let mut i: usize = 0;
    while i < accepted.len()
        invariant
            i <= accepted@.len(),
            all == views(accepted@),
            texts(out@) == changed_methods(all, i as nat),
        decreases accepted@.len() - i,
    {
        let c = &accepted[i];
        assert(all[i as int] == c@);
        let ghost before = texts(out@);
        if c.rule == Rule::WrapMethodInsertHeader || c.rule == Rule::MoWrapMethodInsertHeader {
            out.push(c.fn_name.clone());
            assert(texts(out@) =~= before.push(c.fn_name@));
        }
        i += 1;
    }
    out
}

// ---------- Callers ----------

/// Whether scripts are searched for callers once `methods` methods gained a header.
pub open spec fn wants_scan(o: Options, methods: nat, root_exists: bool) -> bool {
    !o.skip_agent_js && methods > 0 && root_exists
}

/// Whether scripts are searched for callers once `methods` methods gained a header.
pub fn scans_scripts(o: &Options, methods: usize, root_exists: bool) -> (r: bool)
    ensures
        r == wants_scan(*o, methods as nat, root_exists),
{
    !o.skip_agent_js && methods > 0 && root_exists
}

/// What to do with the callers that were found.
#[derive(Debug, Clone, Copy, PartialEq, Eq, Structural)]
pub enum Update {
    /// Say that there are none.
    SayNone,
    /// Leave them as they are.
    Leave,
    /// Bring them into step.
    Apply,
    /// Bring them into step if the user agrees.
    Ask,
}

/// What to do with `count` callers.
pub open spec fn next_update(o: Options, count: nat) -> Update {
    if count == 0 {
        Update::SayNone
    } else if o.dry_run || o.diff_only {
        Update::Leave
    } else if o.apply_all {
        Update::Apply
    } else {
        Update::Ask
    }
}

/// What to do with `count` callers.
pub fn choose_update(o: &Options, count: usize) -> (r: Update)
    ensures
        r == next_update(*o, count as nat),
{
    if count == 0 {
        Update::SayNone
    } else if o.dry_run || o.diff_only {
        Update::Leave
    } else if o.apply_all {
        Update::Apply
    } else {
        Update::Ask
    }
}

/// Scripts are searched only if a candidate was accepted that gives a method a header.
pub proof fn law_scan_needs_changed_callers(
    o: Options,
    accepted: Seq<CandidateView>,
    root_exists: bool,
)
    requires
        forall|i: int| 0 <= i < accepted.len() ==> !breaks_callers(#[trigger] accepted[i]),
    ensures
        !wants_scan(o, changed_methods(accepted, accepted.len()).len(), root_exists),
{
    lemma_nothing_changed(accepted, accepted.len());
}

proof fn lemma_nothing_changed(cs: Seq<CandidateView>, n: nat)
    requires
        n <= cs.len(),
        forall|i: int| 0 <= i < cs.len() ==> !breaks_callers(#[trigger] cs[i]),
    ensures
        changed_methods(cs, n).len() == 0,
    decreases n,
{
    if n > 0 {
        lemma_nothing_changed(cs, (n - 1) as nat);
        assert(!breaks_callers(cs[n - 1]));
    }
}

} // verus!
