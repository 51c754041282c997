//! What becomes of candidates: which edits they make, what an answer does to
//! them, and what the wizard does with them.

use vstd::prelude::*;
use vstd::string::*;

use crate::instrument::diff::{shown, shown_changes, shown_hunks, ChangeView, HunkView};
use crate::instrument::edit::{
    edit_key, edits_of, first_overlap, flat_all, flat_of, FlatView,
};
use crate::instrument::prompt::{run, settled, Answer, Choice};
use crate::instrument::wizard::{
    changed_methods, holds_no_script, holds_no_source, language, next_action, next_outcome,
    next_update, script_extension, wants_scan, Action, Language, Options,
};
use crate::instrument::{CandidateView, EditView, ReplacementView};
use crate::order::law_sorted;
use crate::text::{is_space, law_trim, match_at, replace_from, replaced};

verus! {

// ---------- Templates ----------

proof fn lemma_replace_over(s: Seq<char>, p: Seq<char>, t: Seq<char>, i: int, j: int)
    requires
        0 <= i <= j <= s.len(),
        forall|k: int| i <= k < j ==> !#[trigger] match_at(s, k, p),
    ensures
        replace_from(s, p, t, i) == s.subrange(i, j) + replace_from(s, p, t, j),
    decreases j - i,
{
    if i < j {
        assert(!match_at(s, i, p));
        lemma_replace_over(s, p, t, i + 1, j);
        assert(s.subrange(i, j) =~= seq![s[i]] + s.subrange(i + 1, j));
        assert(seq![s[i]] + (s.subrange(i + 1, j) + replace_from(s, p, t, j)) =~= s.subrange(i, j)
            + replace_from(s, p, t, j));
    } else {
        assert(s.subrange(i, j) + replace_from(s, p, t, j) =~= replace_from(s, p, t, j));
    }
}

/// Where a mark stands once in a template, filling it in puts the text there and leaves the rest.
pub proof fn law_mark_is_filled_in(s: Seq<char>, p: Seq<char>, t: Seq<char>, k: int)
    requires
        p.len() > 0,
        match_at(s, k, p),
        forall|j: int| j != k ==> !#[trigger] match_at(s, j, p),
    ensures
        replaced(s, p, t) == s.subrange(0, k) + t + s.subrange(k + p.len(), s.len() as int),
{
    let n = s.len() as int;
    let e = k + p.len();
    lemma_replace_over(s, p, t, 0, k);
    lemma_replace_over(s, p, t, e, n);
    assert(replaced(s, p, t) =~= s.subrange(0, k) + t + s.subrange(e, n));
}

/// A template without the mark stays as it is.
pub proof fn law_no_mark_no_change(s: Seq<char>, p: Seq<char>, t: Seq<char>)
    requires
        forall|j: int| !#[trigger] match_at(s, j, p),
    ensures
        replaced(s, p, t) == s,
{
    lemma_replace_over(s, p, t, 0, s.len() as int);
    assert(replaced(s, p, t) =~= s);
}

// ---------- Edits ----------

/// `e` is an edit that the candidate makes: its text in place of its range, each of its edits where
/// it has several, and a template with what it offers for its marks.
pub open spec fn makes(c: CandidateView, e: FlatView) -> bool {
    e.rule == c.rule && match c.replacement {
        ReplacementView::Multi(es) => es.contains(
            EditView { start: e.start, end: e.end, text: e.text },
        ),
        ReplacementView::Replace(t) => e.start == c.start && e.end == c.end && e.text == t,
        ReplacementView::InsertRaw(t) => e.start == c.start && e.end == c.end && e.text == t,
        ReplacementView::InsertAfterWithKey { template, default_key } => e.start == c.start && e.end
            == c.end && e.text == replaced(template, "{KEY}"@, default_key),
        ReplacementView::InsertWithKeyAndValue { template, default_key, value_hint } => e.start
            == c.start && e.end == c.end && e.text == replaced(
            replaced(template, "{KEY}"@, default_key),
            "{VALUE}"@,
            value_hint,
        ),
    }
}

proof fn lemma_makes(c: CandidateView, e: FlatView)
    ensures
        flat_of(c).contains(e) <==> makes(c, e),
{
    match c.replacement {
        ReplacementView::Multi(es) => {
            if flat_of(c).contains(e) {
                let i = choose|i: int| 0 <= i < flat_of(c).len() && flat_of(c)[i] == e;
                assert(es[i] == EditView { start: e.start, end: e.end, text: e.text });
            }
            if makes(c, e) {
                let i = choose|i: int|
                    0 <= i < es.len() && es[i] == (EditView {
                        start: e.start,
                        end: e.end,
                        text: e.text,
                    });
                assert(flat_of(c)[i] == e);
            }
        },
        _ => {
            assert(flat_of(c).len() == 1);
            assert(makes(c, flat_of(c)[0]));
            if makes(c, e) {
                assert(flat_of(c)[0] == e);
            }
        },
    }
}

proof fn lemma_flat_all(cs: Seq<CandidateView>, n: nat, e: FlatView)
    requires
        n <= cs.len(),
    ensures
        flat_all(cs, n).contains(e) <==> exists|i: int| 0 <= i < n && makes(#[trigger] cs[i], e),
    decreases n,
{
    if n > 0 {
        lemma_flat_all(cs, (n - 1) as nat, e);
        lemma_makes(cs[n - 1], e);
        let a = flat_all(cs, (n - 1) as nat);
        let b = flat_of(cs[n - 1]);
        if a.contains(e) {
            let x = choose|x: int| 0 <= x < a.len() && a[x] == e;
            assert((a + b)[x] == e);
        }
        if b.contains(e) {
            let x = choose|x: int| 0 <= x < b.len() && b[x] == e;
            assert((a + b)[a.len() + x] == e);
        }
        if (a + b).contains(e) {
            let x = choose|x: int| 0 <= x < (a + b).len() && (a + b)[x] == e;
            if x < a.len() {
                assert(a[x] == e);
            } else {
                assert(b[x - a.len()] == e);
            }
        }
    }
}

/// The edits that are made are those of the candidates, every one of them and no others, in the
/// order of their places.
pub proof fn law_edits_are_those_of_candidates(cs: Seq<CandidateView>, e: FlatView)
    ensures
        edits_of(cs).contains(e) <==> exists|i: int|
            0 <= i < cs.len() && makes(#[trigger] cs[i], e),
        forall|j: int, k: int|
            0 <= j <= k < edits_of(cs).len() ==> (#[trigger] edits_of(cs)[j]).start <= (
            #[trigger] edits_of(cs)[k]).start,
{
    broadcast use vstd::seq_lib::group_to_multiset_ensures;

    let es = flat_all(cs, cs.len());
    let out = edits_of(cs);
    lemma_flat_all(cs, cs.len(), e);
    law_sorted(es, edit_key(), es.len());
    assert(es.subrange(0, es.len() as int) =~= es);
    assert(out.contains(e) <==> out.to_multiset().count(e) > 0);
    assert(es.contains(e) <==> es.to_multiset().count(e) > 0);
    assert forall|j: int, k: int| 0 <= j <= k < out.len() implies (#[trigger] out[j]).start <= (
    #[trigger] out[k]).start by {
        let key = edit_key();
        assert(key(out[j]) <= key(out[k]));
    }
}

/// The edit behind the one at `k` begins before that ends, and not both only insert.
pub open spec fn clash(es: Seq<FlatView>, k: int) -> bool {
    es[k].end > es[k + 1].start && (es[k].start != es[k].end || es[k + 1].start != es[k + 1].end)
}

/// Edits are refused where one begins before the one before it ends and not both only insert, and
/// only there. The first such pair is named.
pub proof fn law_only_overlaps_are_refused(es: Seq<FlatView>, i: int)
    requires
        0 <= i,
    ensures
        match first_overlap(es, i) {
            Some(k) => i <= k < es.len() - 1 && clash(es, k) && forall|j: int|
                i <= j < k ==> !#[trigger] clash(es, j),
            None => forall|j: int| i <= j < es.len() - 1 ==> !#[trigger] clash(es, j),
        },
    decreases es.len() - i,
{
    if i + 1 < es.len() {
        law_only_overlaps_are_refused(es, i + 1);
    }
}

// ---------- Answers ----------

/// To accept a candidate puts it, as it was settled, behind those accepted before; to decline it
/// changes nothing; to skip the rest keeps what was accepted; to quit keeps nothing. Both end the
/// asking, and nothing that is said after that counts.
pub proof fn law_what_an_answer_does(
    cs: Seq<CandidateView>,
    answers: Seq<Answer>,
    n: nat,
)
    requires
        n < cs.len(),
        n < answers.len(),
    ensures
        run(cs, answers, 0).accepted.len() == 0,
        !run(cs, answers, 0).over,
        ({
            let before = run(cs, answers, n);
            let now = run(cs, answers, n + 1);
            let a = answers[n as int];
            if before.over {
                now == before
            } else {
                match a.choice {
                    Choice::Accept => !now.over && now.accepted.len() == before.accepted.len() + 1
                        && now.accepted.drop_last() == before.accepted && now.accepted.last()
                        == settled(cs[n as int], a.key, a.value),
                    Choice::Decline => now == before,
                    Choice::SkipRest => now.over && now.accepted == before.accepted,
                    Choice::Quit => now.over && now.accepted.len() == 0,
                }
            }
        }),
{
    let before = run(cs, answers, n);
    let now = run(cs, answers, n + 1);
    if !before.over && answers[n as int].choice is Accept {
        assert(now.accepted.drop_last() =~= before.accepted);
    }
}

/// What was typed for a mark goes in its place without the white space around it; where nothing was
/// typed but white space, what is offered does. A candidate keeps its rule and its place, and one
/// without marks stays as it is.
pub proof fn law_what_is_typed_is_filled_in(
    c: CandidateView,
    key: Seq<char>,
    value: Seq<char>,
    a: int,
    b: int,
    x: int,
    y: int,
)
    requires
        0 <= a <= b <= key.len(),
        forall|k: int| 0 <= k < a ==> is_space(#[trigger] key[k]),
        forall|k: int| b <= k < key.len() ==> is_space(#[trigger] key[k]),
        a < b ==> !is_space(key[a]) && !is_space(key[b - 1]),
        0 <= x <= y <= value.len(),
        forall|k: int| 0 <= k < x ==> is_space(#[trigger] value[k]),
        forall|k: int| y <= k < value.len() ==> is_space(#[trigger] value[k]),
        x < y ==> !is_space(value[x]) && !is_space(value[y - 1]),
    ensures
        ({
            let s = settled(c, key, value);
            &&& s.rule == c.rule && s.start == c.start && s.end == c.end && s.fn_name == c.fn_name
            &&& s.summary == c.summary && s.warning == c.warning
            &&& match c.replacement {
                ReplacementView::InsertAfterWithKey { template, default_key } => s.replacement
                    == ReplacementView::InsertRaw(
                    replaced(
                        template,
                        "{KEY}"@,
                        if a < b {
                            key.subrange(a, b)
                        } else {
                            default_key
                        },
                    ),
                ),
                ReplacementView::InsertWithKeyAndValue {
                    template,
                    default_key,
                    value_hint,
                } => s.replacement == ReplacementView::InsertRaw(
                    replaced(
                        replaced(
                            template,
                            "{KEY}"@,
                            if a < b {
                                key.subrange(a, b)
                            } else {
                                default_key
                            },
                        ),
                        "{VALUE}"@,
                        if x < y {
                            value.subrange(x, y)
                        } else {
                            value_hint
                        },
                    ),
                ),
                _ => s == c,
            }
        }),
{
    law_trim(key, a, b);
    law_trim(value, x, y);
}

/// The menu offers to accept, to decline, to skip the rest and to quit, in this order.
pub proof fn law_menu()
    ensures
        Choice::at(0) is Accept,
        Choice::at(1) is Decline,
        Choice::at(2) is SkipRest,
        Choice::at(3) is Quit,
{
}

// ---------- The wizard ----------

/// Files of Rust and of Motoko are searched, and no others; scripts are files of JavaScript and
/// TypeScript.
pub proof fn law_which_files_are_searched(ext: Seq<char>)
    ensures
        language(ext) == Some(Language::Rust) <==> ext == "rs"@,
        language(ext) == Some(Language::Motoko) <==> ext == "mo"@,
        script_extension(ext) <==> ext == "js"@ || ext == "mjs"@ || ext == "cjs"@ || ext == "ts"@,
{
    reveal_strlit("rs");
    reveal_strlit("mo");
    assert("rs"@[0] == 'r' && "mo"@[0] == 'm');
}

/// Hidden directories, and those of what was built or brought in, are left out of both walks; the
/// directory `target` is left out of the walk for sources alone.
pub proof fn law_which_directories_are_left_out(name: Seq<char>)
    ensures
        name.len() > 0 && name[0] == '.' ==> holds_no_source(name) && holds_no_script(name),
        name == "node_modules"@ || name == "dist"@ || name == "build"@ ==> holds_no_source(name)
            && holds_no_script(name),
        name == "target"@ ==> holds_no_source(name) && !holds_no_script(name),
        !(name.len() > 0 && name[0] == '.') && name != "node_modules"@ && name != "dist"@ && name
            != "build"@ && name != "target"@ ==> !holds_no_source(name) && !holds_no_script(name),
{
    reveal_strlit(".");
    reveal_strlit("target");
    reveal_strlit("node_modules");
    reveal_strlit("dist");
    reveal_strlit("build");
    assert("target"@[0] == 't' && "node_modules"@[0] == 'n' && "dist"@[0] == 'd' && "build"@[0]
        == 'b');
    if name.len() > 0 {
        assert(name.subrange(0, 1)[0] == name[0]);
        if name[0] == '.' {
            assert(name.subrange(0, 1) =~= "."@);
        }
    }
}

/// The user is asked about each candidate, and before the file is written, unless a listing, a diff
/// or everything at once was asked for. Nothing is listed, taken or asked where nothing was found,
/// and nothing is written where nothing was accepted.
pub proof fn law_user_is_asked(o: Options, count: nat)
    ensures
        count == 0 ==> next_action(o, count) == if o.diff_only {
            Action::Pass
        } else {
            Action::SayNone
        },
        count > 0 ==> {
            &&& next_action(o, count) is List <==> o.dry_run
            &&& next_action(o, count) is AcceptAll <==> !o.dry_run && (o.diff_only || o.apply_all)
            &&& next_action(o, count) is Ask <==> !o.dry_run && !o.diff_only && !o.apply_all
        },
        next_outcome(o, count) is Unchanged <==> count == 0,
        count > 0 ==> {
            &&& next_outcome(o, count) is PrintDiff <==> o.diff_only
            &&& next_outcome(o, count) is Write <==> o.apply_all && !o.diff_only
            &&& next_outcome(o, count) is ConfirmAndWrite <==> !o.apply_all && !o.diff_only
        },
        next_update(o, count) is SayNone <==> count == 0,
        count > 0 ==> {
            &&& next_update(o, count) is Leave <==> o.dry_run || o.diff_only
            &&& next_update(o, count) is Apply <==> o.apply_all && !o.dry_run && !o.diff_only
            &&& next_update(o, count) is Ask <==> !o.apply_all && !o.dry_run && !o.diff_only
        },
{
}

/// The methods whose callers are looked for are those that an accepted candidate gives the header,
/// in either language, all of them and no others.
pub proof fn law_changed_methods(cs: Seq<CandidateView>, n: nat, name: Seq<char>)
    requires
        n <= cs.len(),
    ensures
        changed_methods(cs, n).contains(name) <==> exists|i: int|
            0 <= i < n && (#[trigger] cs[i]).fn_name == name && (cs[i].rule
                is WrapMethodInsertHeader || cs[i].rule is MoWrapMethodInsertHeader),
    decreases n,
{
    if n > 0 {
        law_changed_methods(cs, (n - 1) as nat, name);
        let before = changed_methods(cs, (n - 1) as nat);
        let now = changed_methods(cs, n);
        let own = cs[n - 1].fn_name;
        if cs[n - 1].rule is WrapMethodInsertHeader || cs[n - 1].rule is MoWrapMethodInsertHeader {
            assert(now == before.push(own));
            assert(now[before.len() as int] == own);
            if before.contains(name) {
                let x = choose|x: int| 0 <= x < before.len() && before[x] == name;
                assert(now[x] == name);
            }
            if now.contains(name) && own != name {
                let x = choose|x: int| 0 <= x < now.len() && now[x] == name;
                assert(before[x] == name);
            }
        } else {
            assert(now == before);
        }
        assert(cs[n - 1] == cs[n - 1]);
    }
}

/// Scripts are searched where a method gained the header and there is a place to search, unless
/// the user wants none of it.
pub proof fn law_when_scripts_are_searched(o: Options, methods: nat, root_exists: bool)
    ensures
        wants_scan(o, methods, root_exists) <==> methods > 0 && root_exists && !o.skip_agent_js,
{
}

// ---------- The diff ----------

/// A diff shows each line behind a sign that tells what becomes of it: a line that goes behind `-`,
/// one that comes behind `+`, and one that stays behind a space. A line without a line feed has it
/// added, with a remark.
pub proof fn law_signs_tell_what_changes(cs: Seq<ChangeView>, n: nat)
    requires
        n < cs.len(),
    ensures
        shown_changes(cs, 0).len() == 0,
        ({
            let c = cs[n as int];
            let sign = if c.tag is Delete {
                '-'
            } else if c.tag is Insert {
                '+'
            } else {
                ' '
            };
            let whole = c.text.len() > 0 && c.text.last() == '\n';
            &&& whole ==> shown_changes(cs, n + 1) == shown_changes(cs, n) + (seq![sign] + c.text)
            &&& !whole ==> shown_changes(cs, n + 1) == shown_changes(cs, n) + (seq![sign] + c.text
                + "\n\\ No newline at end of file\n"@)
        }),
{
    reveal_strlit("-");
    reveal_strlit("+");
    reveal_strlit(" ");
    reveal_strlit("\n");
    let c = cs[n as int];
    assert("-"@ =~= seq!['-']);
    assert("+"@ =~= seq!['+']);
    assert(" "@ =~= seq![' ']);
    let t = c.text;
    if t.len() > 0 {
        let e = t.subrange(t.len() - 1, t.len() as int);
        assert(e[0] == t.last());
        assert(t.last() == '\n' ==> e =~= "\n"@);
    }
    assert(seq!['-'] + t + Seq::empty() =~= seq!['-'] + t);
    assert(seq!['+'] + t + Seq::empty() =~= seq!['+'] + t);
    assert(seq![' '] + t + Seq::empty() =~= seq![' '] + t);
}

/// A diff names the file before and behind, and shows each hunk with its header and its lines.
pub proof fn law_diff_shows_every_hunk(path: Seq<char>, hs: Seq<HunkView>, n: nat)
    requires
        n < hs.len(),
    ensures
        shown(path, hs) == "--- "@ + path + "\n+++ "@ + path + "\n"@ + shown_hunks(hs, hs.len()),
        shown_hunks(hs, 0).len() == 0,
        shown_hunks(hs, n + 1) == shown_hunks(hs, n) + (hs[n as int].header + "\n"@
            + shown_changes(hs[n as int].changes, hs[n as int].changes.len())),
{
}

} // verus!
