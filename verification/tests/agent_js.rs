//! References to a method in JavaScript clients.

use ic_debug::instrument::agent_js::{
    apply, by_path, find_references, match_actor_call, match_idl_func, name_char, receiver_ends,
    RefKind, Reference,
};
use ic_debug::instrument::report::show_references;

fn reffrom(line: &str, method: &str) -> Vec<Reference> {
    let mut out = Vec::new();
    if let Some(r) = match_idl_func(line, method, "x.mjs", 1) {
        out.push(r);
    }
    if let Some(r) = match_actor_call(line, method, "x.mjs", 1) {
        out.push(r);
    }
    out
}

#[test]
fn matches_idl_func() {
    let line = "  lock_funds: IDL.Func([IDL.Nat64, IDL.Nat64], [Lock], []),";
    let r = reffrom(line, "lock_funds");
    assert_eq!(r.len(), 1);
    assert_eq!(r[0].kind, RefKind::IdlFunc);
}

#[test]
fn skips_idl_func_when_header_already_first() {
    let line = "  lock_funds: IDL.Func([Header, IDL.Nat64], [Lock], []),";
    let r = reffrom(line, "lock_funds");
    assert!(r.iter().all(|r| r.kind != RefKind::IdlFunc), "{:?}", r);
}

#[test]
fn matches_actor_call() {
    let line = "  await escrow.lock_funds(payment_id, 100n);";
    let r = reffrom(line, "lock_funds");
    let calls: Vec<_> = r.iter().filter(|r| r.kind == RefKind::ActorCall).collect();
    assert_eq!(calls.len(), 1);
}

#[test]
fn skips_actor_call_when_header_already_present() {
    let line = "  await escrow.lock_funds(trace.header(), payment_id, 100n);";
    let r = reffrom(line, "lock_funds");
    assert!(r.iter().all(|r| r.kind != RefKind::ActorCall), "{:?}", r);
}

#[test]
fn does_not_match_substring() {
    // `lock_funds_v2` should not match `lock_funds`.
    let line = "  lock_funds_v2: IDL.Func([IDL.Nat64], [Lock], []),";
    let r = reffrom(line, "lock_funds");
    assert!(r.is_empty(), "{:?}", r);
}

#[test]
fn does_not_match_dot_method_at_line_start() {
    let line = ".lock_funds(payment_id);";
    let r = reffrom(line, "lock_funds");
    assert!(
        r.iter().all(|r| r.kind != RefKind::ActorCall),
        "got {:?}",
        r
    );
}

#[test]
fn header_goes_first_among_the_arguments() {
    let src = "const idl = {\n  lock_funds: IDL.Func([IDL.Nat64], [Lock], []),\n};\nawait escrow.lock_funds(id, 100n);\n";
    let refs = find_references("lock_funds", "a.mjs", src);
    assert_eq!(refs.len(), 2);
    assert_eq!((refs[0].line_no, refs[0].insert_col), (2, 24));
    assert_eq!((refs[1].line_no, refs[1].insert_col), (4, 24));
    assert_eq!(refs[1].kind.as_str(), "actor call");
    assert_eq!(refs[0].kind.as_str(), "IDL.Func");
    let (out, n) = apply(src, &refs);
    assert_eq!(n, 2);
    assert_eq!(
        out,
        "const idl = {\n  lock_funds: IDL.Func([Header, IDL.Nat64], [Lock], []),\n};\nawait escrow.lock_funds(trace.header(), id, 100n);\n"
    );
}

#[test]
fn stub_of_a_longer_name_is_another() {
    assert!(reffrom("  relock_funds: IDL.Func([IDL.Nat64], [], []),", "lock_funds").is_empty());
    assert!(reffrom("  $lock_funds: IDL.Func([IDL.Nat64], [], []),", "lock_funds").is_empty());
    assert!(reffrom("  élock_funds: IDL.Func([IDL.Nat64], [], []),", "lock_funds").is_empty());
    let line = "relock: IDL.Func([A], []), lock: IDL.Func([B], [])";
    assert_eq!(match_idl_func(line, "lock", "a.js", 1).unwrap().insert_col, 43);
    assert!(name_char('a', true) && name_char('$', false) && name_char('é', true));
    assert!(!name_char('·', false) && !name_char(' ', false) && !name_char('+', true));
}

#[test]
fn stub_is_one_piece() {
    assert!(reffrom("  lock: 1, other: IDL.Func([IDL.Nat64], [], []),", "lock").is_empty());
    assert!(reffrom("  lock: IDL.Func(args, [IDL.Nat64], []),", "lock").is_empty());
    assert_eq!(reffrom("  lock:IDL.Func( [IDL.Nat64], [], []),", "lock").len(), 1);
    assert_eq!(match_idl_func("m:c.IDL.Func([A]", "m", "a.js", 1).unwrap().insert_col, 14);
    assert!(match_idl_func("m:cIDL.Func([A]", "m", "a.js", 1).is_none());
    let line = "lock: 1, lock:  IDL.Func([B], [])";
    assert_eq!(match_idl_func(line, "lock", "a.js", 1).unwrap().insert_col, 26);
}

#[test]
fn a_second_run_finds_nothing() {
    let src = "a.pay(1); pay: IDL.Func([], []), b\r\n  x].pay( )\r\r\npay: IDL.Func([.pay(";
    let refs = find_references("pay", "a.js", src);
    assert!(!refs.is_empty());
    let (out, n) = apply(src, &refs);
    assert_eq!(n, refs.len());
    assert!(find_references("pay", "a.js", &out).is_empty(), "{out}");
    let (again, n) = apply(&out, &find_references("pay", "a.js", &out));
    assert_eq!(n, 0);
    assert_eq!(find_references("pay", "a.js", &again).len(), 0);
}

#[test]
fn names_that_stand_in_a_stub_take_one_run() {
    let again = |method: &str, src: &str| {
        let (out, _) = apply(src, &find_references(method, "a.js", src));
        find_references(method, "a.js", &out).len()
    };
    assert_eq!(again("Func", "Func: IDL.Func([N]), Func: IDL.Func([M])"), 0);
    assert_eq!(again("Func", "Func: IDL.Func([N])"), 0);
    assert_eq!(again("header", "header: IDL.Func([N]), x.header(1)"), 0);
    assert_eq!(
        again("Func:IDL.Func", "Func:IDL.Func:IDL.Func([N]), Func:IDL.Func:IDL.Func([M])"),
        0
    );
    assert_eq!(again("a[b", "a[b: IDL.Func([a[b(.a[b("), 0);
    let (out, n) = apply(
        "Func: IDL.Func([N]), Func: IDL.Func([M])",
        &find_references("Func", "a.js", "Func: IDL.Func([N]), Func: IDL.Func([M])"),
    );
    assert_eq!(n, 2);
    assert_eq!(out, "Func: IDL.Func(trace.header(), [Header, N]), Func: IDL.Func([M])");
}

#[test]
fn names_with_spaces_or_brackets_may_take_another_run() {
    let again = |method: &str, src: &str| {
        let (out, _) = apply(src, &find_references(method, "a.js", src));
        find_references(method, "a.js", &out).len()
    };
    assert_eq!(again("trace.header(), x", "a.trace.header(), x(x: IDL.Func([N])"), 1);
    assert_eq!(again("-(-", "a.-(-(-:IDL.Func([N]) -(-:IDL.Func([M])"), 1);
}

#[test]
fn both_references_of_a_line_are_updated() {
    let src = "a.pay(1); pay: IDL.Func([], [])";
    let (out, n) = apply(src, &find_references("pay", "a.js", src));
    assert_eq!(n, 2);
    assert_eq!(out, "a.pay(trace.header(), 1); pay: IDL.Func([Header, ], [])");
}

#[test]
fn columns_count_bytes() {
    let src = "/* é */ actor.é_pay(1)";
    let refs = find_references("é_pay", "a.js", src);
    assert_eq!(refs.len(), 1);
    assert_eq!(refs[0].insert_col, 22);
    assert_eq!(apply(src, &refs).0, "/* é */ actor.é_pay(trace.header(), 1)");
}

#[test]
fn receivers_may_end_in_letters_of_any_alphabet() {
    assert!(match_actor_call("é.pay(1)", "pay", "a.js", 1).is_some());
    assert!(match_actor_call("actors[0].pay(1)", "pay", "a.js", 1).is_some());
    assert!(match_actor_call("actor().pay(1)", "pay", "a.js", 1).is_some());
    assert!(match_actor_call("a_.pay(1)", "pay", "a.js", 1).is_some());
    assert!(match_actor_call("! .pay(1)", "pay", "a.js", 1).is_none());
    assert!(match_actor_call("+.pay(1)", "pay", "a.js", 1).is_none());
    assert!(receiver_ends('x', true));
    assert!(!receiver_ends('+', false));
    assert!(!receiver_ends(' ', false));
    assert!(receiver_ends(')', false));
}

#[test]
fn references_to_lines_that_are_gone_are_passed_over() {
    let refs = find_references("pay", "a.js", "a.pay(1)\nb.pay(2)\n");
    assert_eq!(refs.len(), 2);
    let (out, n) = apply("a.pay(1)\n", &refs);
    assert_eq!(n, 1);
    assert_eq!(out, "a.pay(trace.header(), 1)\n");
    let (out, n) = apply("", &refs);
    assert_eq!(n, 0);
    assert_eq!(out, "");
}

#[test]
fn references_are_grouped_by_file() {
    let mut refs = find_references("pay", "b.js", "a.pay(1)\nc.pay(2)");
    refs.extend(find_references("pay", "a.js", "a.pay(1)"));
    refs.extend(find_references("get", "b.js", "a.get(1)"));
    let files = by_path(refs);
    let shape: Vec<(&str, usize)> = files.iter().map(|g| (g.a.as_str(), g.items.len())).collect();
    assert_eq!(shape, vec![("a.js", 1), ("b.js", 3)]);
}

#[test]
fn references_are_listed_with_their_lines() {
    let refs = find_references("pay", "a.js", "  a.pay(1)  \n");
    assert_eq!(
        show_references("pay", &refs),
        "  `pay` referenced in 1 place(s):\n    actor call a.js:1  a.pay(1)\n"
    );
    assert_eq!(show_references("pay", &[]), "");
}
