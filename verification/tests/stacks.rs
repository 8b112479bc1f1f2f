use memapi::interner::CallstackInterner;
use memapi::location::{CallSiteId, FunctionId, FunctionLocation};
use memapi::memorytracking::{callstack_at, finish_call, new_line_number, start_call};
use memapi::stack::Callstack;
use std::collections::HashMap;

#[test]
fn functionlocation_and_functionid_strings() {
    let func = FunctionLocation::from_strings("a", "af");
    let fid = FunctionId::new(&func);
    assert_eq!(fid.get_filename(), "a");
    assert_eq!(fid.get_function_name(), "af");
}

#[test]
fn callstack_line_numbers() {
    let func1 = FunctionLocation::from_strings("a", "af");
    let func3 = FunctionLocation::from_strings("b", "bf");
    let func5 = FunctionLocation::from_strings("c", "cf");

    let fid1 = FunctionId::new(&func1);
    let fid3 = FunctionId::new(&func3);
    let fid5 = FunctionId::new(&func5);

    // Parent line number does nothing if it's first call:
    let mut cs1 = Callstack::new();
    let id1 = CallSiteId::new(fid1, 2);
    let id2 = CallSiteId::new(fid3, 45);
    let id3 = CallSiteId::new(fid5, 6);
    cs1.start_call(123, id1);
    assert_eq!(*cs1.calls(), vec![id1]);

    // Parent line number does nothing if it's 0:
    cs1.start_call(0, id2);
    assert_eq!(*cs1.calls(), vec![id1, id2]);

    // Parent line number overrides previous level if it's non-0:
    let mut cs2 = Callstack::new();
    cs2.start_call(0, id1);
    cs2.start_call(10, id2);
    cs2.start_call(12, id3);
    assert_eq!(
        *cs2.calls(),
        vec![CallSiteId::new(fid1, 10), CallSiteId::new(fid3, 12), id3]
    );
}

#[test]
fn callstackinterner_notices_duplicates() {
    let func1 = FunctionLocation::from_strings("a", "af");
    let func3 = FunctionLocation::from_strings("b", "bf");
    let fid1 = FunctionId::new(&func1);
    let fid3 = FunctionId::new(&func3);

    let mut cs1 = Callstack::new();
    cs1.start_call(0, CallSiteId::new(fid1, 2));
    let cs1b = cs1.clone();
    let mut cs2 = Callstack::new();
    cs2.start_call(0, CallSiteId::new(fid3, 4));
    let cs3 = Callstack::new();
    let cs3b = Callstack::new();

    let mut interner = CallstackInterner::new();

    let mut new = false;
    let id1 = interner.get_or_insert_id(&cs1, || new = true);
    assert!(new);

    new = false;
    let id1b = interner.get_or_insert_id(&cs1b, || new = true);
    assert!(!new);

    new = false;
    let id2 = interner.get_or_insert_id(&cs2, || new = true);
    assert!(new);

    new = false;
    let id3 = interner.get_or_insert_id(&cs3, || new = true);
    assert!(new);

    new = false;
    let id3b = interner.get_or_insert_id(&cs3b, || new = true);
    assert!(!new);

    assert_eq!(id1, id1b);
    assert_ne!(id1, id2);
    assert_ne!(id1, id3);
    assert_ne!(id2, id3);
    assert_eq!(id3, id3b);
    let mut expected = HashMap::default();
    expected.insert(id1, &cs1);
    expected.insert(id2, &cs2);
    expected.insert(id3, &cs3);
    assert_eq!(interner.get_reverse_map(), expected);
}

#[test]
fn interner_numbers_stacks_from_zero_in_order_of_arrival() {
    let func = FunctionLocation::from_strings("f.py", "f");
    let fid = FunctionId::new(&func);
    let mut interner = CallstackInterner::new();
    assert_eq!(interner.len(), 0);
    for line in 1..=5u16 {
        let mut cs = Callstack::new();
        cs.start_call(0, CallSiteId::new(fid, line));
        assert_eq!(interner.intern(&cs), ((line - 1) as u32, true));
    }
    for line in 1..=5u16 {
        let mut cs = Callstack::new();
        cs.start_call(0, CallSiteId::new(fid, line));
        assert_eq!(interner.find(&cs), Some((line - 1) as u32));
        assert_eq!(interner.intern(&cs), ((line - 1) as u32, false));
        assert!(interner.get((line - 1) as u32).same_as(&cs));
    }
    assert_eq!(interner.len(), 5);
    let mut unseen = Callstack::new();
    unseen.start_call(0, CallSiteId::new(fid, 99));
    assert_eq!(interner.find(&unseen), None);
}

#[test]
fn call_sites_in_functions_of_the_same_names_are_the_same() {
    let one = FunctionLocation::from_strings("m.py", "run");
    let other = FunctionLocation::from_strings("m.py", "run");
    let elsewhere = FunctionLocation::from_strings("n.py", "run");
    let renamed = FunctionLocation::from_strings("m.py", "walk");
    let a = CallSiteId::new(FunctionId::new(&one), 7);
    assert!(a.same_site(&CallSiteId::new(FunctionId::new(&other), 7)));
    assert!(!a.same_site(&CallSiteId::new(FunctionId::new(&other), 8)));
    assert!(!a.same_site(&CallSiteId::new(FunctionId::new(&elsewhere), 7)));
    assert!(!a.same_site(&CallSiteId::new(FunctionId::new(&renamed), 7)));
    assert!(FunctionId::new(&one).same_function(&FunctionId::new(&other)));
    assert_eq!(a.line_number(), 7);
    assert_eq!(a.at_line(9).line_number(), 9);
    assert_eq!(a.function().get_function_name(), "run");
}

#[test]
fn finish_call_and_new_line_on_an_empty_stack_do_nothing() {
    let mut cs = Callstack::new();
    assert!(!cs.in_python());
    cs.finish_call();
    cs.new_line_number(5);
    assert!(cs.calls().is_empty());
    assert!(!cs.in_python());
}

#[test]
fn new_line_number_changes_the_innermost_call_only() {
    let f = FunctionLocation::from_strings("a", "af");
    let g = FunctionLocation::from_strings("b", "bf");
    let mut cs = Callstack::new();
    cs.start_call(0, CallSiteId::new(FunctionId::new(&f), 1));
    cs.start_call(0, CallSiteId::new(FunctionId::new(&g), 2));
    cs.new_line_number(77);
    assert_eq!(
        *cs.calls(),
        vec![
            CallSiteId::new(FunctionId::new(&f), 1),
            CallSiteId::new(FunctionId::new(&g), 77)
        ]
    );
    cs.finish_call();
    assert_eq!(*cs.calls(), vec![CallSiteId::new(FunctionId::new(&f), 1)]);
    assert!(cs.in_python());
}

#[test]
fn thread_entry_points_drive_the_stack() {
    let f = FunctionLocation::from_strings("a", "af");
    let g = FunctionLocation::from_strings("b", "bf");
    let h = FunctionLocation::from_strings("c", "cf");
    let mut cs = Callstack::new();
    start_call(&mut cs, FunctionId::new(&f), 0, 3);
    start_call(&mut cs, FunctionId::new(&g), 10, 4);
    start_call(&mut cs, FunctionId::new(&h), 12, 5);
    assert_eq!(cs.as_string(false), "a:10 (af);b:12 (bf);c:5 (cf)");
    new_line_number(&mut cs, 6);
    assert_eq!(cs.as_string(false), "a:10 (af);b:12 (bf);c:6 (cf)");
    finish_call(&mut cs);
    assert_eq!(cs.as_string(false), "a:10 (af);b:12 (bf)");
    finish_call(&mut cs);
    finish_call(&mut cs);
    finish_call(&mut cs);
    assert_eq!(cs.as_string(false), "[No Python stack]");
}

#[test]
fn callstack_at_sets_the_line_on_a_copy() {
    let f = FunctionLocation::from_strings("a", "af");
    let mut cs = Callstack::new();
    cs.start_call(0, CallSiteId::new(FunctionId::new(&f), 3));
    let site = callstack_at(&cs, 40);
    assert_eq!(site.as_string(false), "a:40 (af)");
    assert_eq!(cs.as_string(false), "a:3 (af)");
    assert!(callstack_at(&cs, 0).same_as(&cs));
    let empty = Callstack::new();
    assert!(callstack_at(&empty, 40).same_as(&empty));
}

#[test]
fn as_string_writes_frames_outermost_first() {
    let f = FunctionLocation::from_strings("dir/a.py", "outer");
    let g = FunctionLocation::from_strings("b.py", "<lambda>");
    let mut cs = Callstack::new();
    assert_eq!(cs.as_string(false), "[No Python stack]");
    assert_eq!(cs.as_string(true), "[No Python stack]");
    cs.start_call(0, CallSiteId::new(FunctionId::new(&f), 0));
    assert_eq!(cs.as_string(false), "dir/a.py:0 (outer)");
    assert_eq!(cs.as_string(true), "dir/a.py:0 (outer);TB@@dir/a.py:0@@TB");
    cs.start_call(0, CallSiteId::new(FunctionId::new(&g), 65535));
    assert_eq!(cs.as_string(false), "dir/a.py:0 (outer);b.py:65535 (<lambda>)");
    assert_eq!(
        cs.as_string(true),
        "dir/a.py:0 (outer);TB@@dir/a.py:0@@TB;b.py:65535 (<lambda>);TB@@b.py:65535@@TB"
    );
}

#[test]
fn snapshot_is_a_stack_of_its_own() {
    let f = FunctionLocation::from_strings("a", "af");
    let mut cs = Callstack::new();
    cs.start_call(0, CallSiteId::new(FunctionId::new(&f), 3));
    let copy = cs.snapshot();
    assert!(copy.same_as(&cs));
    cs.new_line_number(4);
    assert!(!copy.same_as(&cs));
    assert_eq!(*copy.calls(), vec![CallSiteId::new(FunctionId::new(&f), 3)]);
    cs.finish_call();
    assert!(!copy.same_as(&cs));
}

#[test]
fn stacks_that_share_a_key_get_numbers_of_their_own() {
    let f = FunctionLocation::from_strings("a", "af");
    let g = FunctionLocation::from_strings("b", "bf");
    let mut in_f = Callstack::new();
    in_f.start_call(0, CallSiteId::new(FunctionId::new(&f), 5));
    let mut in_g = Callstack::new();
    in_g.start_call(0, CallSiteId::new(FunctionId::new(&g), 5));
    assert_eq!(in_f.key(), in_g.key());

    let mut interner = CallstackInterner::new();
    assert_eq!(interner.intern(&in_f), (0, true));
    assert_eq!(interner.intern(&in_g), (1, true));
    assert_eq!(interner.intern(&in_f), (0, false));
    assert_eq!(interner.intern(&in_g), (1, false));
    assert_eq!(interner.find(&in_g), Some(1));
    assert!(interner.get(1).same_as(&in_g));
}

#[test]
fn the_key_of_a_stack_is_made_from_its_lines() {
    let f = FunctionLocation::from_strings("a", "af");
    let fid = FunctionId::new(&f);
    let mut cs = Callstack::new();
    assert_eq!(cs.key(), 0);
    cs.start_call(0, CallSiteId::new(fid, 2));
    assert_eq!(cs.key(), 2);
    cs.start_call(0, CallSiteId::new(fid, 3));
    assert_eq!(cs.key(), 2 * 31 + 3);
    cs.start_call(0, CallSiteId::new(fid, 65535));
    assert_eq!(cs.key(), 65 * 31 + 65535);
    for _ in 0..20 {
        cs.start_call(0, CallSiteId::new(fid, 65535));
    }
    assert!(cs.key() < (1 << 37));
}
