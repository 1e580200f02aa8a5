use resource_scrambler::calls::{call_regex, scan_regex, CallRegex};
use resource_scrambler::events::EventRegexes;
use resource_scrambler::names::{extract_into, extract_into_filtered, NameList};
use resource_scrambler::rewrite::{build_map, rewrite, NameMap};
use vstd::hash_set::StringHashSet;

fn strings(items: &[&str]) -> Vec<String> {
    items.iter().map(|s| s.to_string()).collect()
}

fn map_of(pairs: &[(&str, &str)]) -> NameMap {
    let old: Vec<String> = pairs.iter().map(|p| p.0.to_string()).collect();
    let new: Vec<String> = pairs.iter().map(|p| p.1.to_string()).collect();
    build_map(&old, &new)
}

fn rewritten(code: &[u8], func: &str, pairs: &[(&str, &str)]) -> Vec<u8> {
    let map = map_of(pairs);
    rewrite(code, &call_regex(func), &[&map])
}

fn names(code: &[u8], re: &CallRegex) -> Vec<String> {
    let mut list = NameList::new();
    extract_into(re, code, &mut list);
    list.names().clone()
}

#[test]
fn pattern_escapes_the_function() {
    assert_eq!(
        scan_regex("lib.callback").pattern,
        "(?s)lib\\.callback\\(\\s*['\"](?P<name>[^'\"]*)['\"]"
    );
    assert_eq!(
        call_regex("lib.callback").pattern,
        "lib\\.callback\\(\\s*[\"']([^\"']*)[\"']"
    );
    assert_eq!(call_regex("TriggerEvent").func, "TriggerEvent");
}

#[test]
fn expressions_for_events_are_those_that_scan() {
    let re = EventRegexes::new();
    assert_eq!(re.oxlib_callback.func, "lib.callback");
    assert_eq!(re.oxlib_callback.pattern, scan_regex("lib.callback").pattern);
    assert_eq!(
        re.register_net_event.pattern,
        "(?s)RegisterNetEvent\\(\\s*['\"](?P<name>[^'\"]*)['\"]"
    );
    assert_eq!(
        re.qbcore_trigger_callback.pattern,
        "(?s)QBCore\\.Functions\\.TriggerCallback\\(\\s*['\"](?P<name>[^'\"]*)['\"]"
    );
}

#[test]
fn dot_of_the_function_is_literal() {
    assert_eq!(
        rewritten(b"lib.callback('a') libXcallback('a')", "lib.callback", &[("a", "b")]),
        b"lib.callback('b') libXcallback('a')"
    );
}

#[test]
fn names_come_in_order_and_once() {
    let code = b"TriggerEvent('b')\nTriggerEvent(\"a\", 1)\nTriggerEvent( 'b' )";
    assert_eq!(names(code, &scan_regex("TriggerEvent")), strings(&["b", "a"]));
}

#[test]
fn white_space_may_stand_before_the_name() {
    let code = "AddEventHandler(\n\t 'a', f) AddEventHandler(\u{a0}\u{2003}\"b\")".as_bytes();
    assert_eq!(names(code, &scan_regex("AddEventHandler")), strings(&["a", "b"]));
}

#[test]
fn quotation_marks_need_not_match() {
    assert_eq!(names(b"F('a\")", &scan_regex("F")), strings(&["a"]));
}

#[test]
fn a_name_may_be_empty_or_span_lines() {
    assert_eq!(names(b"F('') F('x\ny')", &scan_regex("F")), strings(&["", "x\ny"]));
}

#[test]
fn a_variable_is_no_name() {
    assert!(names(b"TriggerEvent(name, 'x')", &scan_regex("TriggerEvent")).is_empty());
    assert!(names(b"TriggerEvent ('x')", &scan_regex("TriggerEvent")).is_empty());
    assert!(names(b"TriggerEvent('x", &scan_regex("TriggerEvent")).is_empty());
}

#[test]
fn a_name_that_is_not_utf8_is_no_name() {
    assert!(names(b"F('\xff')", &scan_regex("F")).is_empty());
    assert_eq!(rewritten(b"F('\xff') F('a')", "F", &[("a", "b")]), b"F('\xff') F('b')");
}

#[test]
fn longer_function_names_are_not_mistaken() {
    let code = b"lib.callback.register('a') lib.callback.await('b') lib.callback('c')";
    assert_eq!(names(code, &scan_regex("lib.callback")), strings(&["c"]));
    assert_eq!(names(code, &scan_regex("lib.callback.await")), strings(&["b"]));
}

#[test]
fn the_end_of_a_longer_name_counts() {
    assert_eq!(names(b"MyTriggerEvent('a')", &scan_regex("TriggerEvent")), strings(&["a"]));
}

#[test]
fn blocked_names_are_left_out() {
    let mut block = StringHashSet::new();
    block.insert("a".to_string());
    let mut list = NameList::new();
    extract_into_filtered(&scan_regex("F"), b"F('a')F('b')F('a')F('b')", &mut list, &block);
    assert_eq!(*list.names(), strings(&["b"]));
}

#[test]
fn known_names_are_replaced_and_the_rest_stays() {
    let code = b"-- \xe9\nRegisterServerEvent( \"old\" , function() end)\nRegisterServerEvent('other')";
    assert_eq!(
        rewritten(code, "RegisterServerEvent", &[("old", "new")]),
        b"-- \xe9\nRegisterServerEvent('new' , function() end)\nRegisterServerEvent('other')"
    );
}

#[test]
fn a_name_that_is_replaced_by_itself_gets_plain_quotation_marks() {
    assert_eq!(rewritten(b"F( \"a\")", "F", &[("a", "a")]), b"F('a')");
}

#[test]
fn unknown_names_change_nothing() {
    let code = b"F( \"a\") G('b')";
    assert_eq!(rewritten(code, "F", &[("b", "c")]), code);
    assert_eq!(rewritten(b"", "F", &[("b", "c")]), b"");
}

#[test]
fn rewriting_again_changes_nothing() {
    let once = rewritten(b"F( \"a\") F('b')", "F", &[("a", "x"), ("b", "b")]);
    assert_eq!(once, b"F('x') F('b')");
    assert_eq!(rewritten(&once, "F", &[("a", "x"), ("b", "b")]), once);
}

#[test]
fn the_first_table_that_knows_a_name_counts() {
    let first = map_of(&[("a", "1")]);
    let second = map_of(&[("a", "2"), ("b", "3")]);
    assert_eq!(
        rewrite(b"F('a')F('b')F('c')", &call_regex("F"), &[&first, &second]),
        b"F('1')F('3')F('c')"
    );
}

#[test]
fn the_first_of_equal_old_names_counts() {
    let map = build_map(&strings(&["a", "a", "b"]), &strings(&["1", "2"]));
    assert_eq!(map.get("a"), Some(&"1".to_string()));
    assert_eq!(map.get("b"), None);
}

#[test]
fn calls_after_rewriting_have_the_new_names() {
    let code = b"F('a') x F(\n'b') F('a')";
    let out = rewritten(code, "F", &[("a", "1"), ("b", "2")]);
    assert_eq!(out, b"F('1') x F('2') F('1')");
    assert_eq!(names(&out, &scan_regex("F")), strings(&["1", "2"]));
}

#[test]
fn overlapping_calls_are_not_separate() {
    let code = b"F(\"G(\"x\")";
    let out = rewritten(code, "F", &[("G(", "n")]);
    assert_eq!(out, b"F('n'x\")");
    assert!(names(&out, &scan_regex("G")).is_empty());
}
