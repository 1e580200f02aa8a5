use resource_scrambler::path_order::sort_paths;
use resource_scrambler::paths::{get_components, get_file_name, get_parent, has_lua_extension, join, same_path, split_path};
use resource_scrambler::scripts::{add_existing, add_parents, add_path, filter_manifests, find_candidate, find_candidates, find_undeclared, get_temporary_path, is_manifest_path, is_system_path, runs_on_side, system_resource_names};

fn paths(items: &[&str]) -> Vec<Vec<u8>> {
    items.iter().map(|s| s.as_bytes().to_vec()).collect()
}

#[test]
fn file_names() {
    assert_eq!(get_file_name(b"a/b.lua"), Some(&b"b.lua"[..]));
    assert_eq!(get_file_name(b"a/b/"), Some(&b"b"[..]));
    assert_eq!(get_file_name(b"a/b/."), Some(&b"b"[..]));
    assert_eq!(get_file_name(b"a/.."), None);
    assert_eq!(get_file_name(b"/"), None);
    assert_eq!(get_file_name(b""), None);
}

#[test]
fn parents() {
    assert_eq!(get_parent(b"a/b.lua"), Some(&b"a"[..]));
    assert_eq!(get_parent(b"b.lua"), Some(&b""[..]));
    assert_eq!(get_parent(b"/b"), Some(&b"/"[..]));
    assert_eq!(get_parent(b"a//./b"), Some(&b"a"[..]));
    assert_eq!(get_parent(b"/"), None);
    assert_eq!(get_parent(b""), None);
}

#[test]
fn joining() {
    assert_eq!(join(b"a", b"b"), b"a/b");
    assert_eq!(join(b"a/", b"b"), b"a/b");
    assert_eq!(join(b"", b"b"), b"b");
    assert_eq!(join(b"a", b"/b"), b"/b");
    assert_eq!(join(b"a", b""), b"a/");
}

#[test]
fn lua_extension() {
    assert!(has_lua_extension(b"x/a.lua"));
    assert!(has_lua_extension(b"a.b.lua"));
    assert!(!has_lua_extension(b".lua"));
    assert!(!has_lua_extension(b"a.LUA"));
    assert!(!has_lua_extension(b"a.lua.txt"));
}

#[test]
fn splitting() {
    assert_eq!(split_path(b"a/b//c"), paths(&["a", "b", "", "c"]));
    assert_eq!(split_path(b""), paths(&[""]));
}

#[test]
fn components_of_paths() {
    assert_eq!(get_components(b"/a/./b//c/.."), paths(&["/", "a", "b", "c", ".."]));
    assert_eq!(get_components(b"./a/."), paths(&[".", "a"]));
    assert!(same_path(b"a//b/", b"a/./b"));
    assert!(!same_path(b"./a", b"a"));
}

#[test]
fn sorting_goes_by_components() {
    assert_eq!(
        sort_paths(paths(&["r/a-b/x", "r/a/x", "r/a", "/r", "q"])),
        paths(&["/r", "q", "r/a", "r/a/x", "r/a-b/x"])
    );
}

#[test]
fn sorting_is_stable() {
    assert_eq!(
        sort_paths(paths(&["b", "a//x", "a/./x", "a/x"])),
        paths(&["a//x", "a/./x", "a/x", "b"])
    );
}

#[test]
fn system_paths() {
    assert_eq!(system_resource_names().len(), 26);
    assert!(is_system_path(b"out/ox_lib/init.lua"));
    assert!(is_system_path(b"out/[sys]/chat/cl_chat.lua"));
    assert!(!is_system_path(b"chat/cl_chat.lua"));
    assert!(!is_system_path(b"out/my-chat/cl_chat.lua"));
    assert!(!is_system_path(b"out/chat"));
    assert!(is_system_path(b"\xff/race/x.lua"));
}

#[test]
fn manifests() {
    assert!(is_manifest_path(b"a/__resource.lua"));
    assert!(is_manifest_path(b"fxmanifest.lua"));
    assert!(!is_manifest_path(b"a/my_fxmanifest.lua"));
    assert_eq!(
        filter_manifests(&paths(&["a/x.lua", "a/fxmanifest.lua", "b/__resource.lua"])),
        paths(&["a/fxmanifest.lua", "b/__resource.lua"])
    );
}

#[test]
fn a_path_is_listed_once() {
    let mut list = paths(&["a/b"]);
    add_path(&mut list, b"a//b".to_vec());
    add_path(&mut list, b"a/c".to_vec());
    assert_eq!(list, paths(&["a/b", "a/c"]));
}

#[test]
fn directories_of_manifests_are_listed_once() {
    let mut list = Vec::new();
    add_parents(&mut list, &paths(&["r/a/__resource.lua", "r/a/fxmanifest.lua", "fxmanifest.lua"]));
    assert_eq!(list, paths(&["r/a", ""]));
}

#[test]
fn only_scripts_that_are_there_are_listed_and_once() {
    let mut list = Vec::new();
    add_existing(&mut list, &paths(&["a.lua", "b.lua", "a.lua"]), &vec![true, false, true]);
    assert_eq!(list, paths(&["a.lua"]));
}

#[test]
fn sides_by_path() {
    assert!(runs_on_side(b"r/server/x.lua", true));
    assert!(!runs_on_side(b"r/server/x.lua", false));
    assert!(runs_on_side(b"r/cl_x.lua", false));
    assert!(!runs_on_side(b"r/cl_x.lua", true));
    assert!(runs_on_side(b"r/shared.lua", true));
    assert!(runs_on_side(b"r/shared.lua", false));
    assert!(runs_on_side(b"r/server/client.lua", true));
    assert!(runs_on_side(b"r/server/client.lua", false));
    assert!(!runs_on_side(b"sv-x.lua", false));
    assert!(!runs_on_side(b"client.lua", true));
    assert!(runs_on_side(b"my-server.lua", false));
}

#[test]
fn undeclared_scripts_are_found() {
    let found = paths(&[
        "r/fxmanifest.lua",
        "r/sv_a.lua",
        "r/cl_b.lua",
        "r/c.lua",
        "r/readme.md",
        "r/c.lua",
    ]);
    assert_eq!(
        find_undeclared(&found, &paths(&["r//sv_a.lua"]), true),
        paths(&["r/c.lua", "r/c.lua"])
    );
    assert_eq!(
        find_undeclared(&found, &Vec::new(), false),
        paths(&["r/cl_b.lua", "r/c.lua", "r/c.lua"])
    );
}

#[test]
fn declared_scripts_are_looked_for() {
    let dirs = paths(&["out/one", "out/two", "out/x/two"]);
    assert_eq!(find_candidate(&dirs, b"out/one", b"a/b.lua"), Some(b"out/one/a/b.lua".to_vec()));
    assert_eq!(find_candidate(&dirs, b"out/one", b"@two/lib/c.lua"), Some(b"out/two/lib/c.lua".to_vec()));
    assert_eq!(find_candidate(&dirs, b"out/one", b"@three/c.lua"), None);
    assert_eq!(find_candidate(&dirs, b"out/one", b"a.js"), None);
    assert_eq!(find_candidate(&dirs, b"out/one", b"@two"), None);
    assert_eq!(find_candidate(&dirs, b"out/one", b"/abs/x.lua"), Some(b"/abs/x.lua".to_vec()));
    assert_eq!(
        find_candidates(
            &dirs,
            b"out/one",
            &vec!["a.lua".to_string(), "b.js".to_string(), "@one/c.lua".to_string()]
        ),
        paths(&["out/one/a.lua", "out/one/c.lua"])
    );
}

#[test]
fn temporary_paths_are_siblings() {
    assert_eq!(get_temporary_path(b"r/a.lua"), b"r/a.lua.scrambler-tmp");
    assert_eq!(get_temporary_path(b"a.lua"), b"a.lua.scrambler-tmp");
    assert_eq!(get_temporary_path(b"/a.lua"), b"/a.lua.scrambler-tmp");
    assert_eq!(get_temporary_path(b"/"), b"./.scrambler-tmp");
    assert_eq!(get_parent(&get_temporary_path(b"r/a.lua")), get_parent(b"r/a.lua"));
}
