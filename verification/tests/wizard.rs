//! The wizard on a whole file: one method for each rule, and methods that no
//! rule may touch.

use ic_debug::instrument::edit;
use ic_debug::instrument::wizard::{
    choose_action, choose_outcome, choose_update, find_candidates, is_script, language_of,
    methods_to_update, scans_scripts, skips_dir, skips_script_dir, Action, Language, Options,
    Outcome, Update,
};
use ic_debug::instrument::{Candidate, Rule};

const SOURCE: &str = r##"use std::cell::RefCell;
use candid::Principal;

#[allow(non_camel_case_types)]
struct TraceHeader;

macro_rules! trace_event { ($($t:tt)*) => {}; }
macro_rules! trace_state { ($($t:tt)*) => {}; }
macro_rules! call_traced { ($($t:tt)*) => { Ok::<((),), String>(((),)) }; }

macro_rules! cdk_stub {
    ($name:ident) => {
        #[allow(unused_attributes)]
        #[doc = stringify!($name)]
        struct $name;
    };
}

thread_local! {
    static COUNTER: RefCell<u64> = RefCell::new(0);
    static USERS: RefCell<Vec<String>> = RefCell::new(Vec::new());
}

mod ic_cdk {
    use super::Principal;
    pub async fn call<A, R>(_: Principal, _: &str, _: A) -> Result<R, String> {
        unimplemented!()
    }
    pub fn trap(_: &str) -> ! { unreachable!() }
    pub mod api { pub fn trap(_: &str) -> ! { unreachable!() } }
}

mod helpers {
    use super::Principal;
    pub async fn send<A, R>(_: Principal, _: &str, _: A) -> Result<R, String> {
        unimplemented!()
    }
}

#[update]
fn rule_1_wrap(header: TraceHeader, x: u64) -> u64 {
    let _ = header;
    x + 1
}

#[update]
fn rule_1b_insert_header(amount: u64) -> u64 {
    amount * 2
}

#[query]
fn neg_query_excluded(_: u64) -> u64 { 0 }

#[init]
fn rule_1b_init() {}

#[trace_method]
#[update]
fn already_instrumented(header: TraceHeader, x: u64) -> u64 {
    let _ = header;
    trace_event!("already_instrumented:enter");
    x + 4
}

#[trace_method]
#[update]
async fn rule_2_call(header: TraceHeader, target: Principal) -> Result<u64, String> {
    let _ = header;
    trace_event!("rule_2_call:enter");
    let (n,): (u64,) = ic_cdk::call(target, "remote_method", (42u64,))
        .await
        .map_err(|e| format!("{:?}", e))?;
    Ok(n)
}

#[trace_method]
#[update]
fn rule_2_negative(header: TraceHeader) -> u64 {
    let _ = header;
    trace_event!("rule_2_negative:enter");
    let _description = "ic_cdk::call(target, \"x\", ())";
    // ic_cdk::call(target, "x", ()) -- comment
    let _ = helpers::send::<(u64,), u64>;
    0
}

#[trace_method]
#[update]
fn rule_3_entry_note(header: TraceHeader) -> u64 {
    let _ = header;
    let x = 7u64;
    x
}

#[derive(Debug)]
struct Payment { id: u64, amount: u64 }

#[trace_method]
#[update]
fn rule_4_snapshot_local(header: TraceHeader) -> u64 {
    let _ = header;
    trace_event!("rule_4_snapshot_local:enter");
    let payment = Payment { id: 1, amount: 100 };
    payment.amount
}

#[trace_method]
#[update]
fn rule_5_rollback(header: TraceHeader, ok: bool) -> Result<u64, String> {
    let _ = header;
    trace_event!("rule_5_rollback:enter");
    let p = Payment { id: 1, amount: 100 };
    trace_state!("payment", &p);
    if !ok {
        return Err("bad".into());
    }
    Ok(p.amount)
}

#[trace_method]
#[update]
fn rule_5_negative_question_mark(header: TraceHeader, s: &str) -> Result<u64, String> {
    let _ = header;
    trace_event!("rule_5_negative_question_mark:enter");
    let p = Payment { id: 1, amount: 100 };
    trace_state!("payment", &p);
    let n = s.parse::<u64>().map_err(|e| e.to_string())?;
    Ok(n)
}

#[trace_method]
#[update]
fn rule_5_negative_no_state(header: TraceHeader, ok: bool) -> Result<u64, String> {
    let _ = header;
    trace_event!("rule_5_negative_no_state:enter");
    if !ok {
        return Err("no state to roll back".into());
    }
    Ok(0)
}

#[trace_method]
#[update]
fn rule_6_trap(header: TraceHeader, n: u64) {
    let _ = header;
    trace_event!("rule_6_trap:enter");
    if n == 0 {
        ic_cdk::trap("zero not allowed");
    }
}

#[trace_method]
#[update]
fn rule_6_trap_api(header: TraceHeader, n: u64) {
    let _ = header;
    trace_event!("rule_6_trap_api:enter");
    if n > 100 {
        ic_cdk::api::trap("too big");
    }
}

#[trace_method]
#[update]
fn rule_7_mutation(header: TraceHeader, n: u64, who: String) -> u64 {
    let _ = header;
    trace_event!("rule_7_mutation:enter");
    COUNTER.with(|c| *c.borrow_mut() += n);
    USERS.with(|u| u.borrow_mut().push(who));
    COUNTER.with(|c| *c.borrow())
}

#[trace_method]
#[update]
fn rule_7_negative_unknown(header: TraceHeader, n: u64) {
    let _ = header;
    trace_event!("rule_7_negative_unknown:enter");
    UNKNOWN_STATE.with(|s| *s.borrow_mut() += n);
}

struct UnknownState;
impl UnknownState {
    fn with<R>(&self, _f: impl FnOnce(&RefCell<u64>) -> R) -> R {
        unimplemented!()
    }
}
#[allow(non_upper_case_globals)]
const UNKNOWN_STATE: UnknownState = UnknownState;

#[update]
async fn combined_method(
    header: TraceHeader,
    target: Principal,
    n: u64,
) -> Result<u64, String> {
    let _ = header;
    let payment = Payment { id: 1, amount: n };
    let (_r,): (u64,) = ic_cdk::call(target, "remote", (payment.amount,))
        .await
        .map_err(|e| format!("{:?}", e))?;
    if n == 0 {
        ic_cdk::trap("zero");
    }
    COUNTER.with(|c| *c.borrow_mut() += n);
    if n > 1000 {
        return Err("too big".into());
    }
    Ok(n)
}

cdk_stub!(stub_marker);
"##;

fn found(src: &str) -> Vec<Candidate> {
    find_candidates(Some(Language::Rust), src, "").expect("parse")
}

fn rules_of(cs: &[Candidate], name: &str) -> Vec<Rule> {
    cs.iter().filter(|c| c.fn_name == name).map(|c| c.rule).collect()
}

#[test]
fn each_method_gets_its_rule() {
    let cs = found(SOURCE);
    assert_eq!(rules_of(&cs, "rule_1_wrap"), vec![Rule::WrapMethod, Rule::EntryNote]);
    assert_eq!(rules_of(&cs, "rule_1b_insert_header"), vec![Rule::WrapMethodInsertHeader]);
    assert_eq!(rules_of(&cs, "rule_1b_init"), vec![Rule::WrapMethodInsertHeader]);
    assert_eq!(rules_of(&cs, "rule_2_call"), vec![Rule::ConvertCall]);
    assert_eq!(rules_of(&cs, "rule_3_entry_note"), vec![Rule::EntryNote]);
    assert_eq!(rules_of(&cs, "rule_4_snapshot_local"), vec![Rule::SnapshotLocal]);
    assert_eq!(rules_of(&cs, "rule_5_rollback"), vec![Rule::RollbackNote]);
    assert_eq!(rules_of(&cs, "rule_6_trap"), vec![Rule::TrapNote]);
    assert_eq!(rules_of(&cs, "rule_6_trap_api"), vec![Rule::TrapNote]);
    assert_eq!(
        rules_of(&cs, "rule_7_mutation"),
        vec![Rule::MutationSnapshot, Rule::MutationSnapshot]
    );
}

#[test]
fn methods_that_only_come_close_are_left_alone() {
    let cs = found(SOURCE);
    for name in [
        "neg_query_excluded",
        "already_instrumented",
        "rule_2_negative",
        "rule_5_negative_question_mark",
        "rule_5_negative_no_state",
        "rule_7_negative_unknown",
    ] {
        assert!(rules_of(&cs, name).is_empty(), "{name}: {:?}", rules_of(&cs, name));
    }
}

#[test]
fn one_method_can_get_many_rules() {
    let cs = found(SOURCE);
    let rules = rules_of(&cs, "combined_method");
    for rule in [
        Rule::WrapMethod,
        Rule::EntryNote,
        Rule::ConvertCall,
        Rule::SnapshotLocal,
        Rule::TrapNote,
        Rule::MutationSnapshot,
    ] {
        assert!(rules.contains(&rule), "{:?} is not among {:?}", rule, rules);
    }
}

#[test]
fn candidates_come_in_the_order_of_the_source() {
    let cs = found(SOURCE);
    for w in cs.windows(2) {
        assert!(w[0].byte_range.start <= w[1].byte_range.start);
    }
}

#[test]
fn applying_again_and_again_comes_to_an_end() {
    let mut src = SOURCE.to_string();
    let mut counts = Vec::new();
    for _ in 0..4 {
        let cs = found(&src);
        counts.push(cs.len());
        src = edit::apply(&src, &cs).expect("no conflict");
    }
    assert_eq!(counts[3], 0, "{:?}", counts);
    assert!(src.contains("trace_event!(\"combined_method:rollback\");"), "{src}");
    assert!(src.contains("fn rule_1b_init(header: TraceHeader) {}"), "{src}");
}

#[test]
fn the_worked_example_takes_three_runs() {
    let first = "#[update]\nfn lock_funds(payment_id: u64, amount: u64) -> u64 {\n    payment_id + amount\n}\n";
    let cs = found(first);
    assert_eq!(cs.len(), 1);
    assert_eq!(
        cs[0].summary,
        "wrap `lock_funds` with #[trace_method] AND insert `header: TraceHeader` first param"
    );
    assert!(cs[0].warning.as_ref().unwrap().starts_with("BREAKING API CHANGE: every caller"));
    let second = edit::apply(first, &cs).unwrap();
    assert_eq!(
        second,
        "#[trace_method]\n#[update]\nfn lock_funds(header: TraceHeader, payment_id: u64, amount: u64) -> u64 {\n    payment_id + amount\n}\n"
    );
    let cs = found(&second);
    assert_eq!(cs.iter().map(|c| c.rule).collect::<Vec<_>>(), vec![Rule::EntryNote]);
    let third = edit::apply(&second, &cs).unwrap();
    assert_eq!(
        third,
        "#[trace_method]\n#[update]\nfn lock_funds(header: TraceHeader, payment_id: u64, amount: u64) -> u64 {\n    trace_event!(\"lock_funds:enter\");\n    payment_id + amount\n}\n"
    );
    assert!(found(&third).is_empty());
}

#[test]
fn positions_count_characters_that_take_several_bytes() {
    let src = "// é → ü\n#[update]\nfn f(s: &str) {}\n";
    let cs = found(src);
    let out = edit::apply(src, &cs).unwrap();
    assert_eq!(
        out,
        "// é → ü\n#[trace_method]\n#[update]\nfn f(header: TraceHeader, s: &str) {}\n"
    );
    let src = "#[trace_method]\nfn g(h: TraceHeader) {\n    let t = \"é→\"; ic_cdk::trap(\"é\");\n}\n";
    let cs = found(src);
    assert_eq!(
        cs.iter().map(|c| c.rule).collect::<Vec<_>>(),
        vec![Rule::TrapNote, Rule::EntryNote]
    );
}

#[test]
fn a_call_is_rewritten_with_its_own_arguments() {
    let src = "#[trace_method]\nfn f(h: TraceHeader) {\n    trace_event!(\"f:enter\");\n    let _ = ic_cdk::call(t, \"m\", (1u64, \"é\"));\n}\n";
    let cs = found(src);
    assert_eq!(cs.len(), 1);
    let out = edit::apply(src, &cs).unwrap();
    assert_eq!(
        out,
        "#[trace_method]\nfn f(h: TraceHeader) {\n    trace_event!(\"f:enter\");\n    let _ = call_traced!(t, \"m\", (1u64, \"é\"))  /* TODO: confirm return type */;\n}\n"
    );
}

#[test]
fn a_changed_container_is_offered_under_its_name_in_lower_case() {
    let src = "thread_local! { static LOCKS: u8 = 0; }\n#[trace_method]\nfn f(h: TraceHeader) {\n    trace_event!(\"f:enter\");\n    LOCKS.with(|l| l.borrow_mut().clear());\n}\n";
    let cs = found(src);
    assert_eq!(cs.len(), 1);
    let out = edit::apply(src, &cs).unwrap();
    assert!(out.contains("    LOCKS.with(|l| l.borrow_mut().clear());\n    trace_state!(\"locks\", &locks);\n"), "{out}");
}

#[test]
fn what_is_no_rust_is_an_error() {
    assert!(find_candidates(Some(Language::Rust), "fn {", "").is_err());
    assert!(find_candidates(None, "anything", "").unwrap().is_empty());
}

#[test]
fn files_are_told_by_their_names() {
    assert_eq!(language_of("rs"), Some(Language::Rust));
    assert_eq!(language_of("mo"), Some(Language::Motoko));
    assert_eq!(language_of("js"), None);
    for d in ["target", "node_modules", "dist", "build", ".git", "."] {
        assert!(skips_dir(d), "{d}");
    }
    assert!(!skips_dir("src"));
    assert!(!skips_script_dir("target"));
    assert!(skips_script_dir("node_modules") && skips_script_dir(".cache"));
    for e in ["mjs", "js", "cjs", "ts"] {
        assert!(is_script(e), "{e}");
    }
    assert!(!is_script("rs"));
}

fn options() -> Options {
    Options {
        path: "lib.rs".to_string(),
        dry_run: false,
        diff_only: false,
        apply_all: false,
        agent_js_root: "agent-js".to_string(),
        skip_agent_js: false,
    }
}

#[test]
fn options_say_what_comes_next() {
    let mut o = options();
    assert_eq!(choose_action(&o, 0), Action::SayNone);
    assert_eq!(choose_action(&o, 2), Action::Ask);
    assert_eq!(choose_outcome(&o, 0), Outcome::Unchanged);
    assert_eq!(choose_outcome(&o, 1), Outcome::ConfirmAndWrite);
    assert_eq!(choose_update(&o, 0), Update::SayNone);
    assert_eq!(choose_update(&o, 3), Update::Ask);
    assert!(scans_scripts(&o, 1, true));
    assert!(!scans_scripts(&o, 0, true));
    assert!(!scans_scripts(&o, 1, false));
    o.skip_agent_js = true;
    assert!(!scans_scripts(&o, 1, true));
    o.diff_only = true;
    assert_eq!(choose_action(&o, 0), Action::Pass);
    assert_eq!(choose_action(&o, 2), Action::AcceptAll);
    assert_eq!(choose_outcome(&o, 1), Outcome::PrintDiff);
    assert_eq!(choose_update(&o, 0), Update::SayNone);
    assert_eq!(choose_update(&o, 3), Update::Leave);
    o.apply_all = true;
    assert_eq!(choose_update(&o, 3), Update::Leave);
    o.diff_only = false;
    o.apply_all = true;
    assert_eq!(choose_action(&o, 2), Action::AcceptAll);
    assert_eq!(choose_outcome(&o, 1), Outcome::Write);
    assert_eq!(choose_update(&o, 3), Update::Apply);
    o.dry_run = true;
    assert_eq!(choose_action(&o, 2), Action::List);
    assert_eq!(choose_update(&o, 3), Update::Leave);
}

#[test]
fn callers_of_changed_methods_are_looked_for() {
    let cs = found(SOURCE);
    assert_eq!(methods_to_update(&cs), vec!["rule_1b_insert_header", "rule_1b_init"]);
}
