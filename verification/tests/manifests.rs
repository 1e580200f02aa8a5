use resource_scrambler::manifest::{
    evaluate, list_of, lua_array_to_strings, Evaluation, LuaEntry, LuaKey, ScriptTables,
};
use resource_scrambler::sandbox::Sandbox;
use resource_scrambler::scrambler::{ResourceScrambler, DEFAULT_LOADER_LUA};

fn entry(key: LuaKey, value: &[u8]) -> Option<LuaEntry> {
    Some(LuaEntry { key, value: Some(value.to_vec()) })
}

fn strings(items: &[&str]) -> Vec<String> {
    items.iter().map(|s| s.to_string()).collect()
}

fn run(loader: &str, manifest: &str) -> Evaluation {
    evaluate(&mut Sandbox::new(), loader, manifest)
}

fn tables(evaluation: Evaluation) -> ScriptTables {
    match evaluation {
        Evaluation::Ran { scripts: Ok(tables), .. } => tables,
        other => panic!("{:?}", other),
    }
}

fn listed(manifest: &str) -> (Vec<String>, Vec<String>) {
    let tables = tables(run(DEFAULT_LOADER_LUA, manifest));
    (list_of(&tables.server), list_of(&tables.client))
}

#[test]
fn strings_come_in_the_order_of_their_keys() {
    let entries = vec![
        entry(LuaKey::Integer(3), b"c"),
        entry(LuaKey::Integer(-1), b"a"),
        entry(LuaKey::Integer(2), b"b"),
    ];
    assert_eq!(lua_array_to_strings(&entries), strings(&["a", "b", "c"]));
}

#[test]
fn strings_at_one_place_keep_their_order() {
    let entries = vec![
        entry(LuaKey::Number(1), b"x"),
        entry(LuaKey::Integer(1), b"y"),
        entry(LuaKey::Integer(0), b"z"),
        entry(LuaKey::Number(1), b"w"),
    ];
    assert_eq!(lua_array_to_strings(&entries), strings(&["z", "x", "y", "w"]));
}

#[test]
fn what_is_no_listed_string_is_left_out() {
    let entries = vec![
        None,
        entry(LuaKey::Other, b"k"),
        Some(LuaEntry { key: LuaKey::Integer(1), value: None }),
        entry(LuaKey::Integer(2), b"\xff"),
        entry(LuaKey::Integer(3), "\u{e9}".as_bytes()),
    ];
    assert_eq!(lua_array_to_strings(&entries), strings(&["\u{e9}"]));
}

#[test]
fn a_missing_table_lists_nothing() {
    assert!(list_of(&None).is_empty());
}

#[test]
fn scripts_of_a_manifest() {
    let (server, client) = listed(
        "resource_manifest_version '05cfa83c'\n\
         description 'x' version '1'\n\
         data_file 'A' 'b'\n\
         server_script 'one.lua'\n\
         server_scripts { 'two.lua', '@other/three.lua' }\n\
         client_script('c.lua')\n\
         client_scripts { 'd.lua' }",
    );
    assert_eq!(server, strings(&["one.lua", "two.lua", "@other/three.lua"]));
    assert_eq!(client, strings(&["c.lua", "d.lua"]));
}

#[test]
fn shared_scripts_are_for_both_sides() {
    let (server, client) = listed("shared_script 'a.lua'\nclient_script 'b.lua'");
    assert_eq!(server, strings(&["a.lua"]));
    assert_eq!(client, strings(&["a.lua", "b.lua"]));
}

#[test]
fn what_a_manifest_listed_before_it_failed_counts() {
    match run(DEFAULT_LOADER_LUA, "server_script 'a.lua'\nno_such_directive 'x'\nserver_script 'b.lua'") {
        Evaluation::Ran { failure: Some(message), scripts: Ok(tables) } => {
            assert!(message.contains("no_such_directive"));
            assert_eq!(list_of(&tables.server), strings(&["a.lua"]));
        }
        other => panic!("{:?}", other),
    }
}

#[test]
fn a_manifest_with_a_syntax_error_lists_nothing() {
    match run(DEFAULT_LOADER_LUA, "server_script 'a.lua'\n}") {
        Evaluation::Ran { failure: Some(_), scripts: Ok(tables) } => {
            assert!(list_of(&tables.server).is_empty());
        }
        other => panic!("{:?}", other),
    }
}

#[test]
fn a_loader_that_fails_is_told_of() {
    match run("error('broken')", "server_script 'a.lua'") {
        Evaluation::LoaderFailed(message) => assert!(message.contains("broken")),
        other => panic!("{:?}", other),
    }
}

#[test]
fn a_loader_without_tables() {
    match run("", "x = 1") {
        Evaluation::Ran { failure: None, scripts: Err(message) } => assert!(!message.is_empty()),
        other => panic!("{:?}", other),
    }
    let tables = tables(run("__SCRIPTS = { server = 1 }", "y = 2"));
    assert!(tables.server.is_none() && tables.client.is_none());
}

#[test]
fn keys_and_values_are_told_apart() {
    let tables = tables(run(
        "__SCRIPTS = { server = { [3] = 'c', [1.5] = 'b', a = 'n', [2] = 7, [-2] = 'a', [4] = '\\255' } }",
        "",
    ));
    assert_eq!(list_of(&tables.server), strings(&["a", "b", "c"]));
    let entries = tables.server.unwrap();
    assert_eq!(entries.len(), 6);
    assert_eq!(entries.iter().filter(|e| matches!(e, Some(LuaEntry { key: LuaKey::Number(1), .. }))).count(), 1);
    assert_eq!(entries.iter().filter(|e| matches!(e, Some(LuaEntry { key: LuaKey::Other, .. }))).count(), 1);
    assert_eq!(entries.iter().filter(|e| matches!(e, Some(LuaEntry { value: None, .. }))).count(), 1);
}

#[test]
fn sandboxes_are_apart() {
    let mut sandbox = Sandbox::new();
    assert_eq!(sandbox.run("n = 1"), None);
    assert_eq!(sandbox.run("assert(n == 1)"), None);
    assert!(Sandbox::new().run("assert(n == 1)").is_some());
}

#[test]
fn tables_of_scripts_lie_in_their_own_table() {
    let mut sandbox = Sandbox::new();
    assert_eq!(sandbox.run("server = { 'wrong' } __SCRIPTS = { client = { 'c.lua' } }"), None);
    let tables = sandbox.scripts().unwrap();
    assert!(tables.server.is_none());
    assert_eq!(list_of(&tables.client), strings(&["c.lua"]));
    assert!(Sandbox::new().scripts().unwrap_err().contains("table"));
}

#[test]
fn manifests_do_not_see_each_other() {
    let scrambler = ResourceScrambler::new();
    scrambler.run_manifest("server_script 'a.lua'");
    let tables = tables(scrambler.run_manifest("server_script 'b.lua'").0);
    assert_eq!(list_of(&tables.server), strings(&["b.lua"]));
}

#[test]
fn a_scrambler_runs_its_own_loader() {
    let scrambler = ResourceScrambler::with_loader_source("__SCRIPTS = { server = {} } function s(x) __SCRIPTS.server[1] = x end".to_string());
    let tables = tables(scrambler.run_manifest("s 'x.lua'").0);
    assert_eq!(list_of(&tables.server), strings(&["x.lua"]));
    assert!(list_of(&tables.client).is_empty());
}

#[test]
fn the_table_of_the_server_is_read_before_that_of_the_client_is_looked_up() {
    let tables = tables(run(
        "local server = { 'a.lua' }\n\
         __SCRIPTS = setmetatable({ server = server }, { __index = function(_, key)\n\
           server[1] = 'changed.lua'\n\
           return { key .. '.lua' }\n\
         end })",
        "",
    ));
    assert_eq!(list_of(&tables.server), strings(&["a.lua"]));
    assert_eq!(list_of(&tables.client), strings(&["client.lua"]));
}
