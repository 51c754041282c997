//! The rules for Motoko sources.

use ic_debug::instrument::edit;
use ic_debug::instrument::motoko;
use ic_debug::instrument::motoko::actor::{find_actor_body, find_tracer_field, parse};
use ic_debug::instrument::motoko::funcs::{find_public_funcs, PubFunc};
use ic_debug::instrument::motoko::scan::{find_in_code, find_name_in_code};
use ic_debug::instrument::motoko::rules::guess_trace_import_path;
use ic_debug::instrument::Rule;

fn mo_rules(src: &str) -> Vec<Rule> {
    motoko::detect(src, "test.mo")
        .into_iter()
        .map(|c| c.rule)
        .collect()
}

// A minimal actor skeleton that already has the tracer field.  Tests for
// individual rules add their own methods inside the body.
fn mo_actor(method_body: &str) -> String {
    format!(
        r#"import Trace "../../../../motoko/src/Trace";
persistent actor self {{
  transient let tracer = Trace.Tracer(Principal.fromActor(self));
  var balance : Nat = 0;
  var items : [Nat] = [];
  {method_body}
  public query func __debug_drain() : async Blob {{ tracer.drain() }};
}}"#
    )
}

// --- Rule 6: mo-rollback-note ---

#[test]
fn mo_rule_6_fires_on_throw_in_traced_method() {
    let src = mo_actor(
        r#"public shared(msg) func withdraw(header : ?Trace.TraceHeader, amount : Nat) : async Nat {
    ignore tracer.beginTrace(header);
    tracer.methodEntered("withdraw", msg.caller, []);
    if (amount > 100) {
      throw Error.reject("too much");
    };
    tracer.methodExited(null);
    amount
  };"#,
    );
    let rules = mo_rules(&src);
    assert!(rules.contains(&Rule::MoRollbackNote), "got {:?}", rules);
}

#[test]
fn mo_rule_6_skips_when_not_traced() {
    let src = mo_actor(
        r#"public shared(msg) func withdraw(header : ?Trace.TraceHeader, amount : Nat) : async Nat {
    if (amount > 100) {
      throw Error.reject("too much");
    };
    amount
  };"#,
    );
    let rules = mo_rules(&src);
    assert!(!rules.contains(&Rule::MoRollbackNote), "got {:?}", rules);
}

#[test]
fn mo_rule_6_skips_when_rollback_note_already_present() {
    let src = mo_actor(
        r#"public shared(msg) func withdraw(header : ?Trace.TraceHeader, amount : Nat) : async Nat {
    ignore tracer.beginTrace(header);
    tracer.methodEntered("withdraw", msg.caller, []);
    if (amount > 100) {
      tracer.note("withdraw:rollback");
      throw Error.reject("too much");
    };
    tracer.methodExited(null);
    amount
  };"#,
    );
    let rules = mo_rules(&src);
    assert!(!rules.contains(&Rule::MoRollbackNote), "got {:?}", rules);
}

#[test]
fn mo_rule_6_does_not_match_throw_inside_string() {
    // "throw" inside a string literal must not trigger the rule.
    let src = mo_actor(
        r#"public shared(msg) func safe(header : ?Trace.TraceHeader) : async Text {
    ignore tracer.beginTrace(header);
    tracer.methodEntered("safe", msg.caller, []);
    let msg2 = "will throw if needed";
    tracer.methodExited(null);
    msg2
  };"#,
    );
    let rules = mo_rules(&src);
    assert!(!rules.contains(&Rule::MoRollbackNote), "got {:?}", rules);
}

// --- Rule 7: mo-mutation-snapshot ---

#[test]
fn mo_rule_7_fires_on_actor_var_assignment_in_traced_method() {
    let src = mo_actor(
        r#"public shared(msg) func deposit(header : ?Trace.TraceHeader, amount : Nat) : async () {
    ignore tracer.beginTrace(header);
    tracer.methodEntered("deposit", msg.caller, []);
    balance := balance + amount;
    tracer.methodExited(null);
  };"#,
    );
    let rules = mo_rules(&src);
    assert!(rules.contains(&Rule::MoMutationSnapshot), "got {:?}", rules);
}

#[test]
fn mo_rule_7_skips_when_not_traced() {
    let src = mo_actor(
        r#"public shared(msg) func deposit(header : ?Trace.TraceHeader, amount : Nat) : async () {
    balance := balance + amount;
  };"#,
    );
    let rules = mo_rules(&src);
    assert!(!rules.contains(&Rule::MoMutationSnapshot), "got {:?}", rules);
}

#[test]
fn mo_rule_7_skips_when_snapshot_already_follows() {
    let src = mo_actor(
        r#"public shared(msg) func deposit(header : ?Trace.TraceHeader, amount : Nat) : async () {
    ignore tracer.beginTrace(header);
    tracer.methodEntered("deposit", msg.caller, []);
    balance := balance + amount;
    tracer.snapshotText("balance", debug_show balance);
    tracer.methodExited(null);
  };"#,
    );
    let rules = mo_rules(&src);
    assert!(!rules.contains(&Rule::MoMutationSnapshot), "got {:?}", rules);
}

#[test]
fn mo_rule_7_skips_record_field_update() {
    // `record.field :=` must not fire — only bare var idents are safe.
    let src = mo_actor(
        r#"public shared(msg) func update_field(header : ?Trace.TraceHeader) : async () {
    ignore tracer.beginTrace(header);
    tracer.methodEntered("update_field", msg.caller, []);
    let r = { field = 0 };
    r.field := 1;
    tracer.methodExited(null);
  };"#,
    );
    let rules = mo_rules(&src);
    assert!(!rules.contains(&Rule::MoMutationSnapshot), "got {:?}", rules);
}

#[test]
fn mo_rule_7_skips_unknown_var() {
    // A `:=` on a var not declared at actor scope must not fire.
    let src = mo_actor(
        r#"public shared(msg) func go(header : ?Trace.TraceHeader) : async () {
    ignore tracer.beginTrace(header);
    tracer.methodEntered("go", msg.caller, []);
    let localVar = 0;
    localVar := 1;
    tracer.methodExited(null);
  };"#,
    );
    let rules = mo_rules(&src);
    assert!(!rules.contains(&Rule::MoMutationSnapshot), "got {:?}", rules);
}

#[test]
fn mo_rule_7_skips_local_shadow_of_actor_var() {
    // If the function declares `var balance` locally, `:=` targets the
    // local, not the actor-level state — must not fire.
    let src = mo_actor(
        r#"public shared(msg) func go(header : ?Trace.TraceHeader) : async () {
    ignore tracer.beginTrace(header);
    tracer.methodEntered("go", msg.caller, []);
    var balance = 0;
    balance := 42;
    tracer.methodExited(null);
  };"#,
    );
    let rules = mo_rules(&src);
    assert!(!rules.contains(&Rule::MoMutationSnapshot), "got {:?}", rules);
}


// --- The other rules, and what they put there ---

fn by_rule(src: &str, rule: Rule) -> Vec<String> {
    motoko::detect(src, "motoko/src/Trace")
        .into_iter()
        .filter(|c| c.rule == rule)
        .map(|c| c.fn_name)
        .collect()
}

const ALL: &str = r#"import Debug "mo:base/Debug";
import Trace "../motoko/src/Trace";

persistent actor self {
  transient let tracer = Trace.Tracer(Principal.fromActor(self));
  var balance : Nat = 0;
  var owner : Text = "";
  var arr : [var Nat] = [var 0];

  public shared(msg) func m2_wrap_method(header : ?Trace.TraceHeader, n : Nat) : async Nat {
    let x = n + 1;
    x
  };

  public func m3_insert_header(n : Nat) : async Nat {
    n
  };

  public shared(msg) func m4_entry_note(header : ?Trace.TraceHeader) : async () {
    ignore tracer.beginTrace(header);
    tracer.methodEntered("m4_entry_note", msg.caller, []);
    tracer.methodExited(null);
  };

  public shared(msg) func m5_trap(header : ?Trace.TraceHeader) : async () {
    ignore tracer.beginTrace(header);
    tracer.methodEntered("m5_trap", msg.caller, []);
    tracer.note("m5_trap:enter");
    if (balance == 0) {
      Debug.trap("empty");
    };
    tracer.methodExited(null);
  };

  public shared(msg) func m5_negative_not_traced(header : ?Trace.TraceHeader) : async () {
    Debug.trap("not traced");
  };

  public shared(msg) func m6_rollback(header : ?Trace.TraceHeader) : async () {
    ignore tracer.beginTrace(header);
    tracer.methodEntered("m6_rollback", msg.caller, []);
    tracer.note("m6_rollback:enter");
    if (balance == 0) {
      throw Error.reject("empty");
    };
    tracer.methodExited(null);
  };

  public shared(msg) func m7_mutation(header : ?Trace.TraceHeader, n : Nat) : async () {
    ignore tracer.beginTrace(header);
    tracer.methodEntered("m7_mutation", msg.caller, []);
    tracer.note("m7_mutation:enter");
    balance := balance + n;
    // one
    // two
    // three
    // four
    // five
    // six
    owner := "me";
    arr[0] := 1;
    tracer.methodExited(null);
  };

  public query func neg_query_excluded(n : Nat) : async Nat { n };

  public query func __debug_drain() : async Blob { tracer.drain() };
}
"#;

#[test]
fn mo_each_function_gets_its_rule() {
    assert_eq!(by_rule(ALL, Rule::MoBootstrap), Vec::<String>::new());
    assert_eq!(
        by_rule(ALL, Rule::MoWrapMethod),
        vec!["m2_wrap_method", "m5_negative_not_traced"]
    );
    assert_eq!(by_rule(ALL, Rule::MoWrapMethodInsertHeader), vec!["m3_insert_header"]);
    assert_eq!(by_rule(ALL, Rule::MoEntryNote), vec!["m4_entry_note"]);
    assert_eq!(by_rule(ALL, Rule::MoTrapNote), vec!["m5_trap"]);
    assert_eq!(by_rule(ALL, Rule::MoRollbackNote), vec!["m6_rollback"]);
    assert_eq!(by_rule(ALL, Rule::MoMutationSnapshot), vec!["m7_mutation", "m7_mutation"]);
}

const BARE: &str = r#"import Principal "mo:base/Principal";
actor self {
  var count : Nat = 0;

  public func bump(n : Nat) : async Nat {
    count := count + n;
    count
  };
}
"#;

#[test]
fn mo_tracer_comes_before_all_else() {
    let cs = motoko::detect(BARE, "../motoko/src/Trace");
    assert_eq!(cs.iter().map(|c| c.rule).collect::<Vec<_>>(), vec![Rule::MoBootstrap]);
    let out = edit::apply(BARE, &cs).unwrap();
    assert_eq!(
        out,
        r#"import Principal "mo:base/Principal";
import Trace "../motoko/src/Trace";
actor self {
  transient let tracer = Trace.Tracer(Principal.fromActor(self));
  var count : Nat = 0;

  public func bump(n : Nat) : async Nat {
    count := count + n;
    count
  };

  public query func __debug_drain() : async Blob { tracer.drain() };
}
"#
    );
}

#[test]
fn mo_runs_come_to_an_end() {
    let mut src = BARE.to_string();
    let mut seen = Vec::new();
    for _ in 0..4 {
        let cs = motoko::detect(&src, "../motoko/src/Trace");
        seen.push(cs.iter().map(|c| c.rule).collect::<Vec<_>>());
        src = edit::apply(&src, &cs).unwrap();
    }
    assert_eq!(
        seen,
        vec![
            vec![Rule::MoBootstrap],
            vec![Rule::MoWrapMethodInsertHeader],
            vec![Rule::MoEntryNote, Rule::MoMutationSnapshot],
            vec![],
        ]
    );
    assert_eq!(
        src,
        r#"import Principal "mo:base/Principal";
import Trace "../motoko/src/Trace";
actor self {
  transient let tracer = Trace.Tracer(Principal.fromActor(self));
  var count : Nat = 0;

  public func bump(header : ?Trace.TraceHeader, n : Nat) : async Nat {
    ignore tracer.beginTrace(header);
    tracer.methodEntered("bump", Principal.fromActor(self), []);
    tracer.note("bump:enter");
    count := count + n;
    tracer.snapshotText("count", debug_show count);
    tracer.methodExited(null);
    count
  };

  public query func __debug_drain() : async Blob { tracer.drain() };
}
"#
    );
}

#[test]
fn mo_notes_are_written_once() {
    let mut src = ALL.to_string();
    for _ in 0..3 {
        let cs = motoko::detect(&src, "../motoko/src/Trace");
        src = edit::apply(&src, &cs).unwrap();
    }
    assert!(motoko::detect(&src, "../motoko/src/Trace").is_empty(), "{src}");
    assert_eq!(src.matches("m5_trap:trapped").count(), 1);
    assert_eq!(src.matches("m6_rollback:rollback").count(), 1);
    assert!(src.contains("      tracer.note(\"m5_trap:trapped\");\n      Debug.trap(\"empty\");"));
    assert!(src.contains("      tracer.note(\"m6_rollback:rollback\");\n      throw Error"));
}

#[test]
fn mo_other_names_for_the_module_and_the_tracer_are_taken_up() {
    let src = r#"import T "../motoko/src/Trace";
actor self {
  let log = T.Tracer(Principal.fromActor(self));
  public func bump() : async () {
    throw Error.reject("x");
  };
}
"#;
    let cs = motoko::detect(src, "x");
    let out = edit::apply(src, &cs).unwrap();
    assert!(out.contains("bump(header : ?T.TraceHeader) : async ()"), "{out}");
    assert!(out.contains("ignore log.beginTrace(header);"), "{out}");
}

#[test]
fn mo_no_actor_gives_nothing() {
    assert!(motoko::detect("module { public func f() {} }", "x").is_empty());
    assert!(motoko::detect("", "x").is_empty());
    assert!(motoko::detect("actor {", "x").is_empty());
}

#[test]
fn mo_path_to_the_module_is_looked_for_upwards() {
    assert_eq!(guess_trace_import_path(false, &[]), "../motoko/src/Trace");
    assert_eq!(guess_trace_import_path(true, &[true]), "motoko/src/Trace");
    assert_eq!(guess_trace_import_path(true, &[false, false, true]), "../../motoko/src/Trace");
    assert_eq!(
        guess_trace_import_path(true, &[false; 11]),
        "../motoko/src/Trace /* TODO: fix import path */"
    );
    let mut far = vec![false; 12];
    far[11] = true;
    assert_eq!(
        guess_trace_import_path(true, &far),
        "../motoko/src/Trace /* TODO: fix import path */"
    );
}

// --- What counts as code ---

fn chars(src: &str) -> Vec<char> {
    src.chars().collect()
}

fn funcs(body: &str) -> Vec<PubFunc> {
    find_public_funcs(&chars(body), 0, "Trace", "tracer", &vec!["x".to_string()])
}

#[test]
fn mo_shared_with_a_message_is_shared() {
    let fs = funcs("public shared(msg) func f() : async () {};\npublic func g() : async () {};");
    assert_eq!(fs.iter().map(|f| f.is_shared).collect::<Vec<_>>(), vec![true, false]);
    assert!(funcs("public shared (msg) func f() : async () {};")[0].is_shared);
    assert!(funcs("public shared query(msg) func f() : async () {};")[0].is_query);
}

#[test]
fn mo_words_in_comments_are_no_modifiers() {
    assert!(funcs("// public\nfunc f() : async () {};").is_empty());
    assert!(funcs("let s = \"public\"; func f() : async () {};").is_empty());
    let fs = funcs("public /* query shared */ func f() : async () {};");
    assert_eq!(fs.len(), 1);
    assert!(!fs[0].is_query && !fs[0].is_shared);
}

#[test]
fn mo_body_opens_behind_the_return_type() {
    let f = &funcs("public func f() : async { a : Nat } { g() };")[0];
    assert_eq!((f.body_open, f.body_close), (36, 42));
    let f = &funcs("public func f() : async ({ a : Nat }, Nat) { g() };")[0];
    assert_eq!((f.body_open, f.body_close), (43, 49));
}

#[test]
fn mo_tracer_field_is_bound_by_let() {
    assert_eq!(find_tracer_field(&chars("foo(Trace.Tracer(p));"), "Trace"), None);
    assert_eq!(find_tracer_field(&chars("let f = foo(Trace.Tracer(p));"), "Trace"), None);
    assert_eq!(
        find_tracer_field(&chars("foo(Trace.Tracer(p)); let tr = Trace.Tracer(p);"), "Trace"),
        Some("tr".to_string())
    );
}

#[test]
fn mo_actor_is_a_word() {
    assert_eq!(find_actor_body(&chars("type Factor = {};\nactor {x}")), Some((25, 26)));
    assert_eq!(find_actor_body(&chars("type Factor = {};")), None);
    assert!(parse(&chars("type Factor = { func f() {} };")).is_none());
}

#[test]
fn mo_exit_is_noted_behind_a_statement_of_the_body() {
    let src = mo_actor(
        "public func f(header : ?Trace.TraceHeader) : async Nat {\n    let a = 1;\n    if (a == 1) { g(); h() } else { 2 }\n  };",
    );
    let out = edit::apply(&src, &motoko::detect(&src, "x")).unwrap();
    assert!(
        out.contains("    let a = 1;\n    tracer.methodExited(null);\n    if (a == 1) { g(); h() }"),
        "{out}"
    );
}

#[test]
fn mo_trap_is_noted_by_the_tracer_of_the_actor() {
    let src = "import Trace \"../motoko/src/Trace\";\nactor self {\n  let tr = Trace.Tracer(p);\n  public func f(header : ?Trace.TraceHeader) : async () {\n    ignore tr.beginTrace(header);\n    Debug.trap(\"x\");\n  };\n}\n";
    let out = edit::apply(src, &motoko::detect(src, "x")).unwrap();
    assert!(out.contains("    tr.note(\"f:trapped\");\n    Debug.trap"), "{out}");
    assert!(!out.contains("tracer.note"), "{out}");
}

fn traced(statement: &str) -> String {
    mo_actor(&format!(
        "public func f(header : ?Trace.TraceHeader) : async () {{\n    ignore tracer.beginTrace(header);\n    {statement}\n  }};"
    ))
}

#[test]
fn mo_assignments_inside_statements_count() {
    let src = traced("if (c) balance := 1;");
    let out = edit::apply(&src, &motoko::detect(&src, "x")).unwrap();
    assert!(
        out.contains(
            "if (c) balance := 1;\n    tracer.snapshotText(\"balance\", debug_show balance);"
        ),
        "{out}"
    );
    assert!(!mo_rules(&out).contains(&Rule::MoMutationSnapshot), "{out}");
}

#[test]
fn mo_last_assignment_of_a_block_gets_its_semicolon() {
    let src = traced("if (c) { balance := 1 };");
    let out = edit::apply(&src, &motoko::detect(&src, "x")).unwrap();
    assert!(
        out.contains(
            "{ balance := 1;\n    tracer.snapshotText(\"balance\", debug_show balance); };"
        ),
        "{out}"
    );
    assert!(!mo_rules(&out).contains(&Rule::MoMutationSnapshot), "{out}");
}

#[test]
fn mo_entry_note_is_looked_for_near_the_top() {
    let body = |before: &str, note: &str, behind: &str| {
        let gap = "    // one more\n".repeat(20);
        let front = if before.is_empty() { String::new() } else { gap.clone() };
        let rest = if behind.is_empty() { String::new() } else { gap };
        mo_actor(&format!(
            "public func f(header : ?Trace.TraceHeader) : async () {{\n    ignore tracer.beginTrace(header);\n{front}    tracer.methodEntered(\"f\", p, []);\n{note}{rest}{behind}  }};"
        ))
    };
    let fires = |src: &str| mo_rules(src).contains(&Rule::MoEntryNote);
    let note = "    tracer.note(\"f:enter\");\n";
    assert!(fires(&body("", "", "")));
    assert!(!fires(&body("", note, "")));
    // Far below the top, and not behind `methodEntered`.
    assert!(fires(&body("", "", note)));
    // Far below the top, behind `methodEntered`.
    assert!(fires(&body("x", "", "")));
    assert!(!fires(&body("x", note, "")));
    let src = body("x", "", note);
    let out = edit::apply(&src, &motoko::detect(&src, "x")).unwrap();
    assert!(!fires(&out), "{out}");
}

#[test]
fn mo_all_that_one_pass_finds_can_be_applied() {
    for src in [ALL, BARE] {
        assert!(edit::apply(src, &motoko::detect(src, "x")).is_ok());
    }
    let src = "actor { public func f() : async () {};\n/* a\nimport b */\n\n}";
    let out = edit::apply(src, &motoko::detect(src, "x")).unwrap();
    assert!(out.starts_with("import Trace \"x\";\nactor {"), "{out}");
    let src = "actor { public func f() : async () {};\nimport b\n\n}";
    let e = edit::apply(src, &motoko::detect(src, "x")).unwrap_err();
    assert_eq!(e.message(), "conflicting edits: mo-bootstrap (47..49) overlaps mo-bootstrap (48..48)");
}

#[test]
fn mo_comments_import_and_drain_nothing() {
    let src = "/*\nimport Trace \"../motoko/src/Trace\";\n*/\nactor self {\n  // func __debug_drain\n  public func f() : async () {};\n}\n";
    let out = edit::apply(src, &motoko::detect(src, "p/Trace")).unwrap();
    assert!(out.starts_with("import Trace \"p/Trace\";\n/*"), "{out}");
    assert!(out.contains("public query func __debug_drain() : async Blob"), "{out}");
}

#[test]
fn mo_names_are_whole_words() {
    let src = traced("MyDebug.trap(1);");
    assert!(!mo_rules(&src).contains(&Rule::MoTrapNote));
    let src = mo_actor(
        "public func f(header : ?Trace.TraceHeader) : async () {\n    mytracer.beginTrace(header);\n  };",
    );
    assert!(mo_rules(&src).contains(&Rule::MoWrapMethod));
    let src = BARE.replace("bump", "__debug_drain_later");
    assert!(motoko::detect(&src, "x")[0].summary.contains("`__debug_drain`"));
}

#[test]
fn mo_text_is_found_in_the_middle_of_a_word() {
    let s = chars("xab.ab");
    let code = vec![true; 6];
    assert_eq!(find_in_code(&s, &code, "ab", 0), Some(1));
    assert_eq!(find_name_in_code(&s, &code, "ab", 0), Some(4));
    assert_eq!(find_in_code(&s, &code, "ab", 2), Some(4));
    assert_eq!(find_in_code(&s, &[true, false, true, true, true, true], "ab", 0), Some(4));
    assert_eq!(find_in_code(&s, &code, "", 0), None);
    assert_eq!(find_in_code(&s, &code, "ab", 9), None);
    assert_eq!(find_name_in_code(&s, &code, "", 0), None);
    assert_eq!(find_name_in_code(&s, &code, ".ab", 0), Some(3));
}

// --- A second pass ---

#[test]
fn mo_second_pass_asks_less_often() {
    let count = |src: &str, rule: Rule, name: &str| {
        motoko::detect(src, "x")
            .iter()
            .filter(|c| c.rule == rule && c.fn_name == name)
            .count()
    };
    let two = mo_actor(
        "public func f(header : ?Trace.TraceHeader) : async () {\n    ignore tracer.beginTrace(header);\n    tracer.methodEntered(\"f\", p, []);\n    Debug.trap(\"a\"); Debug.trap(\"b\");\n    if (c) {\n      Debug.trap(\"d\");\n    };\n    throw e; throw g;\n    throw h;\n  };",
    );
    for src in [ALL, BARE, two.as_str()] {
        for c in motoko::detect(src, "x") {
            let (rule, name) = (c.rule, c.fn_name.clone());
            let before = count(src, rule, &name);
            let new = edit::apply(src, &[c]).unwrap();
            let after = count(&new, rule, &name);
            assert!(after < before, "{rule:?} {name}: {before} {after}\n{new}");
            if !matches!(rule, Rule::MoTrapNote | Rule::MoRollbackNote | Rule::MoMutationSnapshot) {
                assert_eq!((before, after), (1, 0), "{rule:?} {name}");
            }
        }
    }
    assert_eq!(count(&two, Rule::MoTrapNote, "f"), 3);
    assert_eq!(count(&two, Rule::MoRollbackNote, "f"), 3);
}
