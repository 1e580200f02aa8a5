use resource_scrambler::manifest::{Evaluation, LuaEntry, LuaKey};
use resource_scrambler::output::{
    changed_pairs, find_watched, merge_names, EventPair, EventsTable,
};
use resource_scrambler::replacement::{assign_names, draw_supply, draw_uuids};
use resource_scrambler::scrambler::ResourceScrambler;
use resource_scrambler::uuids::UuidSource;

fn strings(items: &[&str]) -> Vec<String> {
    items.iter().map(|s| s.to_string()).collect()
}

fn paths(items: &[&str]) -> Vec<Vec<u8>> {
    items.iter().map(|s| s.as_bytes().to_vec()).collect()
}

fn pairs(list: &[EventPair]) -> Vec<(&str, &str)> {
    list.iter().map(|p| (p.original.as_str(), p.new.as_str())).collect()
}

fn text(bytes: &[u8]) -> &str {
    std::str::from_utf8(bytes).unwrap()
}

fn uuid_form(text: &str) -> bool {
    let b = text.as_bytes();
    b.len() == 36
        && b.iter().enumerate().all(|(i, c)| match i {
            8 | 13 | 18 | 23 => *c == b'-',
            _ => c.is_ascii_digit() || (b'a'..=b'f').contains(c),
        })
        && b[14] == b'4'
        && b"89ab".contains(&b[19])
}

/// A scrambler with one system and one other script on each side.
fn loaded(server: &[u8], client: &[u8]) -> ResourceScrambler {
    let mut scrambler = ResourceScrambler::new();
    let manifests = scrambler.load_scripts(
        b"out",
        &paths(&["out/two/fxmanifest.lua", "out/chat/__resource.lua", "out/two/server.lua"]),
    );
    assert_eq!(manifests, paths(&["out/chat/__resource.lua", "out/two/fxmanifest.lua"]));
    assert_eq!(*scrambler.directories(), paths(&["out/chat", "out/two"]));
    scrambler.resolve_scripts(
        &paths(&["out/chat/sv.lua", "out/two/server.lua", "out/two/gone.lua"]),
        &vec![true, true, false],
        true,
    );
    scrambler.resolve_scripts(
        &paths(&["out/chat/cl.lua", "out/two/client.lua"]),
        &vec![true, true],
        false,
    );
    assert_eq!(*scrambler.server_scripts(), paths(&["out/chat/sv.lua", "out/two/server.lua"]));
    assert_eq!(*scrambler.client_scripts(), paths(&["out/chat/cl.lua", "out/two/client.lua"]));
    let server_codes = vec![Some(b"RegisterServerEvent('sys') lib.callback.register('ox')".to_vec()), Some(server.to_vec())];
    let client_codes = vec![Some(b"RegisterNetEvent('sysnet') AddEventHandler('syscl', f)".to_vec()), Some(client.to_vec())];
    scrambler.load_system_server_events(&server_codes);
    scrambler.load_system_client_events(&client_codes);
    scrambler.load_custom_server_events(&server_codes);
    scrambler.load_custom_client_events(&client_codes);
    scrambler
}

const SERVER: &[u8] = b"RegisterServerEvent('s1')\nRegisterNetEvent('n1')\nAddEventHandler('s1', f)\nTriggerEvent('sys')\nTriggerClientEvent('n1', 1)\nTriggerClientEvent('nobody')\nESX.RegisterServerCallback('e1', f)\nlib.callback.register('o1', f)\nlib.callback.await('ox')\nlib.callback('o2')\nQBCore.Functions.CreateCallback('q1', f)\n";

const CLIENT: &[u8] = b"TriggerServerEvent('s1')\nRegisterNetEvent('n1')\nAddEventHandler('n1', f)\nAddEventHandler('c1', f)\nTriggerEvent('sysnet')\nESX.TriggerServerCallback('e1', f)\nlib.callback('o1')\nlib.callback.register('n1')\nQBCore.Functions.TriggerCallback('q1', f)\n";

fn finished() -> ResourceScrambler {
    let mut scrambler = loaded(SERVER, CLIENT);
    // Server: s1. Net: n1. Client: n1 and c1. ox_lib: o1, o2 and n1. QBCore: q1.
    scrambler.replace_events(&strings(&["A", "B", "C", "D", "E", "F"]), strings(&["X"]));
    scrambler.generate_matching_system_events();
    scrambler
}

#[test]
fn scripts_get_the_new_names() {
    let (writer, tasks) = finished().write_scripts();
    assert_eq!(
        text(&writer.rewrite_script(SERVER, true)),
        "RegisterServerEvent('A')\nRegisterNetEvent('B')\nAddEventHandler('A', f)\nTriggerEvent('sys')\nTriggerClientEvent('B', 1)\nTriggerClientEvent('nobody')\nESX.RegisterServerCallback('X', f)\nlib.callback.register('D', f)\nlib.callback.await('ox')\nlib.callback('E')\nQBCore.Functions.CreateCallback('F', f)\n"
    );
    assert_eq!(
        text(&writer.rewrite_script(CLIENT, false)),
        "TriggerServerEvent('A')\nRegisterNetEvent('B')\nAddEventHandler('B', f)\nAddEventHandler('C', f)\nTriggerEvent('sysnet')\nESX.TriggerServerCallback('X', f)\nlib.callback('D')\nlib.callback.register('B')\nQBCore.Functions.TriggerCallback('F', f)\n"
    );
    let order: Vec<(bool, &str, usize, usize)> = tasks
        .iter()
        .map(|t| (t.server, text(&t.path), t.index, t.total))
        .collect();
    assert_eq!(
        order,
        vec![
            (true, "out/chat/sv.lua", 1, 2),
            (true, "out/two/server.lua", 2, 2),
            (false, "out/chat/cl.lua", 1, 2),
            (false, "out/two/client.lua", 2, 2),
        ]
    );
}

#[test]
fn scripts_of_both_sides_get_the_names_of_both() {
    let (writer, _) = finished().write_scripts();
    let code = b"RegisterNetEvent('n1') AddEventHandler('s1', f) AddEventHandler('c1', f) TriggerEvent('n1') TriggerServerEvent('s1') lib.callback('o2')";
    let once = writer.rewrite_script(code, true);
    assert_eq!(
        text(&writer.rewrite_script(&once, false)),
        "RegisterNetEvent('B') AddEventHandler('A', f) AddEventHandler('C', f) TriggerEvent('B') TriggerServerEvent('A') lib.callback('E')"
    );
}

#[test]
fn every_function_of_either_side_gets_its_names_in_a_shared_script() {
    let (writer, _) = finished().write_scripts();
    let code = b"RegisterServerEvent('s1') TriggerClientEvent('n1', 1) TriggerClientEvent('nobody') ESX.RegisterServerCallback('e1', f) lib.callback.register('o1', f) lib.callback.await('o2') QBCore.Functions.CreateCallback('q1', f) TriggerServerEvent('s1') TriggerServerEvent('n1') TriggerServerEvent('other') ESX.TriggerServerCallback('e1', f) QBCore.Functions.TriggerCallback('q1', f)";
    let once = writer.rewrite_script(code, true);
    assert_eq!(
        text(&once),
        "RegisterServerEvent('A') TriggerClientEvent('B', 1) TriggerClientEvent('nobody') ESX.RegisterServerCallback('X', f) lib.callback.register('D', f) lib.callback.await('E') QBCore.Functions.CreateCallback('F', f) TriggerServerEvent('s1') TriggerServerEvent('n1') TriggerServerEvent('other') ESX.TriggerServerCallback('e1', f) QBCore.Functions.TriggerCallback('q1', f)"
    );
    let twice = "RegisterServerEvent('A') TriggerClientEvent('B', 1) TriggerClientEvent('nobody') ESX.RegisterServerCallback('X', f) lib.callback.register('D', f) lib.callback.await('E') QBCore.Functions.CreateCallback('F', f) TriggerServerEvent('A') TriggerServerEvent('B') TriggerServerEvent('other') ESX.TriggerServerCallback('X', f) QBCore.Functions.TriggerCallback('F', f)";
    assert_eq!(text(&writer.rewrite_script(&once, false)), twice);
    assert_eq!(text(&writer.rewrite_script(twice.as_bytes(), true)), twice);
    assert_eq!(text(&writer.rewrite_script(twice.as_bytes(), false)), twice);
}

#[test]
fn a_run_leaves_no_name_in_a_shared_script() {
    let mut scrambler = ResourceScrambler::new();
    scrambler.load_scripts(b"out", &Vec::new());
    let scripts = paths(&["out/chat/sh.lua", "out/b/sh.lua"]);
    scrambler.resolve_scripts(&scripts, &vec![true, true], true);
    scrambler.resolve_scripts(&scripts, &vec![true, true], false);
    let system: &[u8] = b"RegisterNetEvent('sys') RegisterServerEvent('boot') lib.callback('ask')";
    let shared: &[u8] = b"RegisterServerEvent('a') AddEventHandler('b', f) ESX.RegisterServerCallback('c', f) ESX.TriggerServerCallback('d', f) QBCore.Functions.CreateCallback('e', f) TriggerEvent('sys') TriggerServerEvent('away')";
    let codes = vec![Some(system.to_vec()), Some(shared.to_vec())];
    scrambler.scramble(&codes, &codes);
    let (writer, tasks) = scrambler.write_scripts();
    let mut now = vec![system.to_vec(), shared.to_vec()];
    for task in &tasks {
        let at = scripts.iter().position(|p| *p == task.path).unwrap();
        now[at] = writer.rewrite_script(&now[at], task.server);
    }
    assert_eq!(tasks.len(), 4);
    assert_eq!(now[0], system);
    let names: Vec<&str> = text(&now[1]).split('\'').skip(1).step_by(2).collect();
    assert_eq!(names.len(), 7);
    assert!(names[..5].iter().all(|name| uuid_form(name)), "{:?}", names);
    assert_eq!(names[5..].to_vec(), vec!["sys", "away"]);
}

#[test]
fn a_net_event_is_triggered_under_its_new_name() {
    let mut scrambler = loaded(b"RegisterNetEvent('pay', f)", b"TriggerServerEvent('pay', 1)");
    scrambler.replace_events(&strings(&["U"]), Vec::new());
    scrambler.generate_matching_system_events();
    let (writer, _) = scrambler.write_scripts();
    assert_eq!(
        text(&writer.rewrite_script(b"RegisterNetEvent('pay', f)", true)),
        "RegisterNetEvent('U', f)"
    );
    assert_eq!(
        text(&writer.rewrite_script(b"TriggerServerEvent('pay', 1)", false)),
        "TriggerServerEvent('U', 1)"
    );
    let detector = scrambler.cheat_detector("UID");
    assert!(detector.files[1].text.starts_with("local events = {\n  'pay',\n}\n"));
    assert!(detector.files[2].text.starts_with("local events = {\n}\n"));
}

#[test]
fn replacing_again_keeps_one_replacement_for_each_name() {
    let mut scrambler = loaded(b"ESX.RegisterServerCallback('cb', f)", b"");
    scrambler.replace_events(&Vec::new(), strings(&["X"]));
    scrambler.replace_events(&Vec::new(), strings(&["Y"]));
    let (writer, _) = scrambler.write_scripts();
    assert_eq!(
        text(&writer.rewrite_script(b"ESX.RegisterServerCallback('cb', f)", true)),
        "ESX.RegisterServerCallback('Y', f)"
    );
}

#[test]
fn scrambling_gathers_and_replaces() {
    let mut scrambler = ResourceScrambler::new();
    scrambler.load_scripts(b"out", &Vec::new());
    scrambler.resolve_scripts(&paths(&["out/ox_lib/a.lua", "out/b/b.lua"]), &vec![true, true], true);
    let codes = vec![
        Some(b"RegisterServerEvent('sys')".to_vec()),
        Some(b"RegisterServerEvent('own') TriggerEvent('sys')".to_vec()),
    ];
    scrambler.scramble(&codes, &Vec::new());
    let table = scrambler.write_events_table();
    assert_eq!(table.server.len(), 1);
    assert_eq!(table.server[0].original, "own");
    let (writer, _) = scrambler.write_scripts();
    assert_eq!(
        text(&writer.rewrite_script(b"RegisterServerEvent('own') TriggerEvent('sys')", true)),
        format!("RegisterServerEvent('{}') TriggerEvent('sys')", table.server[0].new)
    );
    assert!(scrambler.is_server_matched());
}

#[test]
fn finding_scripts_again_changes_nothing() {
    let mut scrambler = loaded(b"", b"");
    let found = paths(&["out/two/x.lua", "out/two/x.lua", "out/two/server.lua"]);
    scrambler.discover_undeclared_scripts(&found);
    let before = (
        scrambler.server_scripts().clone(),
        scrambler.client_scripts().clone(),
        scrambler.directories().clone(),
    );
    scrambler.load_scripts(b"out", &paths(&["out/two/fxmanifest.lua", "out/chat/__resource.lua"]));
    scrambler.resolve_scripts(&paths(&["out/chat/sv.lua", "out/two/server.lua"]), &vec![true, true], true);
    scrambler.resolve_scripts(&paths(&["out/chat/cl.lua"]), &vec![true], false);
    scrambler.discover_undeclared_scripts(&found);
    assert_eq!(*scrambler.server_scripts(), before.0);
    assert_eq!(*scrambler.client_scripts(), before.1);
    assert_eq!(*scrambler.directories(), before.2);
}

#[test]
fn a_name_that_only_the_other_side_triggers_stays() {
    let (writer, _) = finished().write_scripts();
    assert_eq!(
        text(&writer.rewrite_script(b"TriggerServerEvent('nobody') TriggerServerEvent('s1')", false)),
        "TriggerServerEvent('nobody') TriggerServerEvent('A')"
    );
}

#[test]
fn scripts_of_system_resources_keep_their_names() {
    let (writer, _) = finished().write_scripts();
    let server = b"RegisterServerEvent('sys') lib.callback.register('ox')";
    assert_eq!(writer.rewrite_script(server, true), server);
    let client = b"RegisterNetEvent('sysnet') AddEventHandler('syscl', f)";
    assert_eq!(writer.rewrite_script(client, false), client);
}

#[test]
fn other_calls_stay() {
    let (writer, _) = finished().write_scripts();
    let code = b"TriggerServerEvent('s1') print('s1') RegisterServerEvent(name)";
    assert_eq!(writer.rewrite_script(code, true), code);
    assert_eq!(writer.rewrite_script(b"\xff\x00", false), b"\xff\x00");
}

#[test]
fn system_names_stay_on_every_side() {
    let (writer, _) = finished().write_scripts();
    for server in [true, false] {
        for func in ["RegisterNetEvent", "AddEventHandler", "TriggerEvent", "lib.callback"] {
            for name in ["sys", "sysnet", "syscl", "ox", "scrambler:injectionDetected"] {
                let code = format!("{}('{}')", func, name);
                assert_eq!(text(&writer.rewrite_script(code.as_bytes(), server)), code);
            }
        }
    }
}

#[test]
fn a_name_of_the_system_is_not_gathered_again() {
    let scrambler = finished();
    let system = scrambler.all_system_events();
    for name in ["sys", "sysnet", "syscl", "ox", "scrambler:injectionDetected"] {
        assert!(system.contains(name));
    }
    assert!(!system.contains("s1"));
}

#[test]
fn the_table_holds_what_was_replaced() {
    let table: EventsTable = finished().write_events_table();
    assert_eq!(table.path, b"out/scrambler-events.json");
    assert_eq!(pairs(&table.server), vec![("s1", "A")]);
    assert_eq!(pairs(&table.net), vec![("n1", "B")]);
    assert_eq!(pairs(&table.client), vec![("n1", "B"), ("c1", "C")]);
}

#[test]
fn the_detector_watches_the_names_of_before() {
    let detector = finished().cheat_detector("UID");
    assert_eq!(detector.directory, b"out/scrambler-vac");
    let files: Vec<(&str, &str)> =
        detector.files.iter().map(|f| (text(&f.path), f.text.as_str())).collect();
    assert_eq!(
        files,
        vec![
            (
                "out/scrambler-vac/__resource.lua",
                "resource_manifest_version '44febabe-d386-4d18-afbe-5e627f4af937'\n\nclient_script 'client.lua'\nserver_script 'server.lua'\n\n"
            ),
            (
                "out/scrambler-vac/server.lua",
                "local events = {\n  's1',\n  'n1',\n}\n\nRegisterServerEvent('UID')\nAddEventHandler('UID', function(name)\n  local _source = source\n  TriggerEvent('scrambler:injectionDetected', name, _source, false)\nend)\n\n\nfor i=1, #events, 1 do\n  RegisterServerEvent(events[i])\n  AddEventHandler(events[i], function()\n    local _source = source\n    TriggerEvent('scrambler:injectionDetected', events[i], _source, true)\n  end)\nend\n"
            ),
            (
                "out/scrambler-vac/client.lua",
                "local events = {\n  'n1',\n  'c1',\n}\n\n\nfor i=1, #events, 1 do\n  AddEventHandler(events[i], function()\n    TriggerServerEvent('UID', events[i])\n  end)\nend\n\n"
            ),
        ]
    );
}

#[test]
fn a_random_detector_reports_by_a_uuid() {
    let detector = finished().write_cheat_detector();
    let server = &detector.files[1].text;
    let start = server.find("RegisterServerEvent('").unwrap() + "RegisterServerEvent('".len();
    let uid = &server[start..start + 36];
    assert!(uuid_form(uid));
    assert!(detector.files[2].text.contains(&format!("TriggerServerEvent('{}', events[i])", uid)));
}

#[test]
fn client_events_are_held_against_server_replacements() {
    assert_eq!(
        find_watched(&strings(&["a", "b", "c", "d"]), &strings(&["a", "x"]), &strings(&["d"])),
        strings(&["b", "c"])
    );
    assert_eq!(
        merge_names(&strings(&["a", "b"]), &strings(&["c", "a", "c"])),
        strings(&["a", "b", "c"])
    );
    assert_eq!(pairs(&changed_pairs(&strings(&["a", "b"]), &strings(&["a", "c", "d"]))), vec![("b", "c")]);
}

#[test]
fn random_names_are_uuids_and_consistent() {
    let mut scrambler = loaded(SERVER, CLIENT);
    scrambler.generate_random_matching_events();
    scrambler.generate_matching_system_events();
    assert!(scrambler.is_matched());
    let table = scrambler.write_events_table();
    let all: Vec<&EventPair> = table.server.iter().chain(&table.net).chain(&table.client).collect();
    assert_eq!(all.len(), 4);
    for pair in &all {
        assert!(uuid_form(&pair.new), "{}", pair.new);
        for other in &all {
            assert_eq!(pair.original == other.original, pair.new == other.new);
        }
    }
    let (writer, _) = scrambler.write_scripts();
    let server = writer.rewrite_script(SERVER, true);
    assert!(!text(&server).contains("'s1'"));
    assert!(!text(&server).contains("'e1'"));
    let n1 = &table.net[0].new;
    assert!(text(&server).contains(&format!("TriggerClientEvent('{}', 1)", n1)));
    let client = writer.rewrite_script(CLIENT, false);
    assert!(text(&client).contains(&format!("AddEventHandler('{}', f)", n1)));
    assert!(text(&client).contains(&format!("lib.callback.register('{}')", n1)));
}

#[test]
fn names_take_replacements_in_the_order_in_which_they_are_seen() {
    let a = strings(&["x", "y"]);
    let b = strings(&["y", "z", "x"]);
    let lists = [&a, &b];
    assert_eq!(
        assign_names(&lists, &strings(&["1", "2", "3", "4"])),
        vec![strings(&["1", "2"]), strings(&["2", "3", "1"])]
    );
    let mut source = UuidSource::new();
    let supply = draw_supply(&mut source, &lists);
    assert_eq!(supply.len(), 3);
    assert!(supply.iter().all(|u| uuid_form(u)));
    assert!(supply[0] != supply[1] && supply[1] != supply[2] && supply[0] != supply[2]);
    let more = draw_uuids(&mut source, 2);
    assert_eq!(more.len(), 2);
    assert!(more.iter().all(|u| uuid_form(u) && !supply.contains(u)) && more[0] != more[1]);
    assert!(draw_uuids(&mut source, 0).is_empty());
}

#[test]
fn scripts_that_cannot_be_read_count_for_nothing() {
    let mut scrambler = ResourceScrambler::new();
    scrambler.load_scripts(b"out", &Vec::new());
    scrambler.resolve_scripts(&paths(&["out/a/x.lua", "out/a/y.lua"]), &vec![true, true], true);
    scrambler.load_custom_server_events(&vec![None, Some(b"TriggerEvent('a')".to_vec())]);
    scrambler.replace_events(&strings(&["1"]), Vec::new());
    assert_eq!(pairs(&scrambler.write_events_table().server), vec![("a", "1")]);
}

#[test]
fn scripts_without_replacements_are_not_matched() {
    let scrambler = loaded(SERVER, CLIENT);
    assert!(!scrambler.is_matched());
    assert_eq!(scrambler.target_directory(), Some(&b"out".to_vec()));
    assert_eq!(ResourceScrambler::new().target_directory(), None);
}

#[test]
fn undeclared_scripts_are_added() {
    let mut scrambler = loaded(b"", b"");
    scrambler.discover_undeclared_scripts(&paths(&[
        "out/two/fxmanifest.lua",
        "out/two/server.lua",
        "out/two/client.lua",
        "out/two/shared/util.lua",
        "out/two/html/x.js",
    ]));
    assert_eq!(
        *scrambler.server_scripts(),
        paths(&["out/chat/sv.lua", "out/two/server.lua", "out/two/shared/util.lua"])
    );
    assert_eq!(
        *scrambler.client_scripts(),
        paths(&["out/chat/cl.lua", "out/two/client.lua", "out/two/shared/util.lua"])
    );
}

#[test]
fn manifests_lead_to_scripts() {
    let mut scrambler = ResourceScrambler::new();
    scrambler.load_scripts(b"out", &paths(&["out/b/fxmanifest.lua", "out/a/fxmanifest.lua"]));
    let (evaluation, _) = scrambler.run_manifest(
        "server_scripts { '@b/lib.lua', 'x/main.lua', 'main.js', '@none/x.lua' }",
    );
    match evaluation {
        Evaluation::Ran { failure: None, scripts: Ok(tables) } => {
            assert_eq!(
                scrambler.script_candidates(b"out/a/fxmanifest.lua", &tables.server),
                paths(&["out/b/lib.lua", "out/a/x/main.lua"])
            );
            assert!(scrambler.script_candidates(b"out/a/fxmanifest.lua", &tables.client).is_empty());
        }
        other => panic!("{:?}", other),
    }
    let table = Some(vec![Some(LuaEntry { key: LuaKey::Integer(1), value: Some(b"m.lua".to_vec()) })]);
    assert_eq!(scrambler.script_candidates(b"fxmanifest.lua", &table), paths(&["m.lua"]));
}
