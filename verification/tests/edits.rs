//! Edits, the questions about them, and the diff that is shown of them.

use ic_debug::instrument::diff::{render, unified, Change, Hunk, Tag};
use ic_debug::instrument::edit::apply;
use ic_debug::instrument::prompt::{settle, Choice, Session};
use ic_debug::instrument::report::{line_of_offset, show_context, show_list, show_question};
use ic_debug::instrument::{Candidate, Replacement, Rule};
use ic_debug::text::{
    chars_of, decimal, decimal_int, hex_prefix, join, pad, parse_u128, rank_text, replace_str,
    short_principal, split_lines, utf8_len, Rank,
};
use std::ops::Range;

fn candidate(rule: Rule, byte_range: Range<usize>, replacement: Replacement) -> Candidate {
    Candidate {
        rule,
        byte_range,
        fn_name: "f".to_string(),
        summary: "do it".to_string(),
        warning: None,
        replacement,
    }
}

fn insert(at: usize, text: &str) -> Candidate {
    candidate(Rule::EntryNote, at..at, Replacement::InsertRaw(text.to_string()))
}

fn replace(range: Range<usize>, text: &str) -> Candidate {
    candidate(Rule::ConvertCall, range, Replacement::Replace(text.to_string()))
}

#[test]
fn edits_are_made_where_they_belong() {
    let out = apply("abcdef", &[replace(4..6, "EF!"), insert(0, ">"), replace(1..2, "")]);
    assert_eq!(out.unwrap(), ">acdEF!");
    assert_eq!(apply("abc", &[]).unwrap(), "abc");
}

#[test]
fn texts_inserted_at_one_place_come_in_the_order_given() {
    assert_eq!(apply("ab", &[insert(1, "1"), insert(1, "2")]).unwrap(), "a12b");
}

#[test]
fn several_bytes_make_one_character() {
    assert_eq!(apply("é→x", &[insert(2, "|"), replace(5..6, "ü")]).unwrap(), "é|→ü");
}

#[test]
fn parts_of_one_candidate_are_all_made() {
    let c = candidate(
        Rule::WrapMethodInsertHeader,
        0..0,
        Replacement::Multi(vec![(0..0, "A".to_string()), (2..2, "B".to_string())]),
    );
    assert_eq!(apply("xyz", &[c]).unwrap(), "AxyBz");
}

#[test]
fn defaults_stand_in_for_answers() {
    let key = candidate(
        Rule::SnapshotLocal,
        0..0,
        Replacement::InsertAfterWithKey {
            template: "s(\"{KEY}\", {KEY});".to_string(),
            default_key: "lock".to_string(),
        },
    );
    assert_eq!(apply("", &[key]).unwrap(), "s(\"lock\", lock);");
    let both = candidate(
        Rule::MutationSnapshot,
        0..0,
        Replacement::InsertWithKeyAndValue {
            template: "s(\"{KEY}\", {VALUE});".to_string(),
            default_key: "k".to_string(),
            value_hint: "&v".to_string(),
        },
    );
    assert_eq!(apply("", &[both]).unwrap(), "s(\"k\", &v);");
}

#[test]
fn overlapping_edits_are_refused() {
    let e = apply("abcdef", &[replace(2..5, "x"), replace(0..3, "y")]).unwrap_err();
    assert_eq!(e.message(), "conflicting edits: convert-call (0..3) overlaps convert-call (2..5)");
    let e = apply("abcdef", &[replace(0..3, "y"), insert(2, "x")]).unwrap_err();
    assert_eq!(e.message(), "conflicting edits: convert-call (0..3) overlaps entry-note (2..2)");
    assert_eq!(apply("abcdef", &[replace(0..3, "y"), insert(3, "x")]).unwrap(), "yxdef");
}

#[test]
fn diff_shows_the_lines_around_a_change() {
    let old = "a\nb\nc\nd\ne\nf\ng\nh\n";
    let new = "a\nb\nc\nd\nE\nf\ng\nh\n";
    assert_eq!(
        unified(old, new, "x.rs"),
        "--- x.rs\n+++ x.rs\n@@ -2,7 +2,7 @@\n b\n c\n d\n-e\n+E\n f\n g\n h\n"
    );
    assert_eq!(unified(old, old, "x.rs"), "--- x.rs\n+++ x.rs\n");
}

#[test]
fn diff_is_rendered_from_its_hunks() {
    let hunk = Hunk {
        header: "@@ h @@".to_string(),
        changes: vec![
            Change { tag: Tag::Equal, text: "a\n".to_string() },
            Change { tag: Tag::Delete, text: "b\n".to_string() },
            Change { tag: Tag::Insert, text: "c\n".to_string() },
        ],
    };
    assert_eq!(render("p", &vec![hunk]), "--- p\n+++ p\n@@ h @@\n a\n-b\n+c\n");
}

#[test]
fn line_without_a_line_feed_is_marked() {
    assert_eq!(
        unified("a\nb", "a\nc", "x"),
        "--- x\n+++ x\n@@ -1,2 +1,2 @@\n a\n-b\n\\ No newline at end of file\n+c\n\\ No newline at end of file\n"
    );
    assert_eq!(unified("a\n", "", "x"), "--- x\n+++ x\n@@ -1 +0,0 @@\n-a\n");
}

#[test]
fn choices_come_in_the_order_offered() {
    assert_eq!(Choice::of_index(0), Choice::Accept);
    assert_eq!(Choice::of_index(1), Choice::Decline);
    assert_eq!(Choice::of_index(2), Choice::SkipRest);
    assert_eq!(Choice::of_index(3), Choice::Quit);
    assert_eq!(Choice::of_index(9), Choice::Quit);
}

fn keyed() -> Candidate {
    candidate(
        Rule::MutationSnapshot,
        3..3,
        Replacement::InsertWithKeyAndValue {
            template: "{KEY}={VALUE}".to_string(),
            default_key: "k".to_string(),
            value_hint: "&v".to_string(),
        },
    )
}

fn raw_text(c: &Candidate) -> &str {
    match &c.replacement {
        Replacement::InsertRaw(t) => t,
        r => panic!("{r:?}"),
    }
}

#[test]
fn answers_are_filled_in() {
    let c = settle(&keyed(), " balance ", "&b\n");
    assert_eq!(raw_text(&c), "balance=&b");
    assert_eq!((c.rule, c.byte_range.clone()), (Rule::MutationSnapshot, 3..3));
    assert_eq!(raw_text(&settle(&keyed(), "  ", "")), "k=&v");
    assert_eq!(raw_text(&settle(&insert(0, "t"), "x", "y")), "t");
}

#[test]
fn session_gathers_what_is_accepted() {
    let mut s = Session::new();
    s.answer(&insert(0, "a"), Choice::Accept, "", "");
    s.answer(&insert(1, "b"), Choice::Decline, "", "");
    assert!(!s.over);
    s.answer(&insert(2, "c"), Choice::Accept, "", "");
    s.answer(&insert(3, "d"), Choice::SkipRest, "", "");
    assert!(s.over);
    assert_eq!(s.accepted.iter().map(raw_text).collect::<Vec<_>>(), vec!["a", "c"]);
}

#[test]
fn quitting_drops_what_was_accepted() {
    let mut s = Session::new();
    s.answer(&insert(0, "a"), Choice::Accept, "", "");
    s.answer(&insert(1, "b"), Choice::Quit, "", "");
    assert!(s.over);
    assert!(s.accepted.is_empty());
}

const SRC: &str = "one\ntwo é\nthree\nfour\nfive\nsix\n";

#[test]
fn lines_are_counted_from_one() {
    assert_eq!(line_of_offset(SRC, 0), 1);
    assert_eq!(line_of_offset(SRC, 3), 1);
    assert_eq!(line_of_offset(SRC, 4), 2);
    assert_eq!(line_of_offset(SRC, 11), 3);
    assert_eq!(line_of_offset(SRC, 9_999), 7);
}

#[test]
fn candidates_are_listed() {
    let mut c = insert(4, "x");
    c.warning = Some("careful".to_string());
    assert_eq!(
        show_list(&[c, replace(0..1, "y")], SRC),
        "found 2 candidates:\n\n  [1] entry-note (line 2, fn `f`) — do it\n       ⚠ careful\n  [2] \
         convert-call (line 1, fn `f`) — do it\n"
    );
}

#[test]
fn context_marks_its_line() {
    assert_eq!(
        show_context(SRC, 11, 1),
        "        2 │ two é\n   ▶    3 │ three\n        4 │ four\n"
    );
    assert_eq!(show_context(SRC, 0, 1), "   ▶    1 │ one\n        2 │ two é\n");
}

#[test]
fn question_shows_the_source() {
    let mut c = insert(0, "x");
    c.warning = Some("careful".to_string());
    assert_eq!(
        show_question(&c, "one\n", 1, 4),
        "\n── [1/4] entry-note (line 1, fn `f`)\n   do it\n   ⚠ careful\n   ┄┄┄ source ┄┄┄\n   ▶    \
         1 │ one\n"
    );
}

#[test]
fn rules_have_names() {
    let names: Vec<&str> = [
        Rule::WrapMethod,
        Rule::WrapMethodInsertHeader,
        Rule::ConvertCall,
        Rule::EntryNote,
        Rule::SnapshotLocal,
        Rule::MutationSnapshot,
        Rule::RollbackNote,
        Rule::TrapNote,
        Rule::MoBootstrap,
        Rule::MoWrapMethod,
        Rule::MoWrapMethodInsertHeader,
        Rule::MoEntryNote,
        Rule::MoTrapNote,
        Rule::MoRollbackNote,
        Rule::MoMutationSnapshot,
    ]
    .iter()
    .map(|r| r.as_str())
    .collect();
    assert_eq!(
        names,
        vec![
            "wrap-method",
            "wrap-method-insert-header",
            "convert-call",
            "entry-note",
            "snapshot-local",
            "mutation-snapshot",
            "rollback-note",
            "trap-note",
            "mo-bootstrap",
            "mo-wrap-method",
            "mo-wrap-method-insert-header",
            "mo-entry-note",
            "mo-trap-note",
            "mo-rollback-note",
            "mo-mutation-snapshot",
        ]
    );
}

#[test]
fn numbers_are_written_and_read() {
    assert_eq!(decimal(0), "0");
    assert_eq!(decimal(u128::MAX), "340282366920938463463374607431768211455");
    assert_eq!(decimal_int(-120), "-120");
    assert_eq!(decimal_int(i128::MIN), "-170141183460469231731687303715884105728");
    assert_eq!(parse_u128("007"), Some(7));
    assert_eq!(parse_u128(&decimal(u128::MAX)), Some(u128::MAX));
    assert_eq!(parse_u128("340282366920938463463374607431768211456"), None);
    assert_eq!(hex_prefix(&[0, 0xff, 0x1a], 2), "00ff…");
    assert_eq!(hex_prefix(&[0, 0xff], 2), "00ff");
}

#[test]
fn text_is_taken_apart_and_put_together() {
    assert_eq!(short_principal("abc-def-ghi"), "abc");
    assert_eq!(short_principal("abc"), "abc");
    assert_eq!(short_principal("-a"), "");
    assert_eq!(replace_str("aaa{K}{K}", "{K}", "{K}!"), "aaa{K}!{K}!");
    assert_eq!(join(&vec!["a".to_string(), "b".to_string()], ", "), "a, b");
    assert_eq!(join(&vec![], ", "), "");
    assert_eq!(pad("7", 4), "   7");
    assert_eq!(pad("12345", 4), "12345");
    assert_eq!(split_lines(&chars_of("a\r\nb\n\nc")), vec!["a", "b", "", "c"]);
    assert_eq!(split_lines(&chars_of("a\n")), vec!["a"]);
    assert!(split_lines(&chars_of("")).is_empty());
    assert_eq!(utf8_len("é→x"), 6);
    assert_eq!(rank_text("a", "ab"), Rank::Before);
    assert_eq!(rank_text("b", "ab"), Rank::After);
    assert_eq!(rank_text("ab", "ab"), Rank::Same);
}
