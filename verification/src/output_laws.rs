//! What holds of the table of replaced names and of the detector.
use crate::gathering_laws::{is_custom_name, prepared};
use crate::names::lemma_position;
use crate::output::{
    changed, client_script, event_table, is_detector, is_events_table, server_script, table_lines,
    watched, watched_client, watched_server, CheatDetector, EventsTable,
};
use crate::paths::joined;
use crate::replacement::{first_seen, lemma_first_seen, replacement, replacements};
use crate::scrambling_laws::{
    lemma_concat_contains, lemma_shared_contains, supplied, system_of,
};
use crate::selection::{lemma_pick_none, lemma_pick_same, lemma_pick_step};
use crate::state::{finished, is_system_name, shared_names, State};
use crate::uuids::{all_uuids, is_uuid};
use crate::writer::{bucket_of, Sort};
use crate::text_laws::{law_views, lemma_encode_concat};
use vstd::prelude::*;
use vstd::utf8::*;

verus! {

/// What stands in a list of changed names.
proof fn lemma_changed(
    old: Seq<Seq<char>>,
    new: Seq<Seq<char>>,
    pair: (Seq<char>, Seq<char>),
)
    requires
        old.len() <= new.len(),
    ensures
        changed(old, new).contains(pair) <==> exists|i: int|
            0 <= i < old.len() && #[trigger] old[i] == pair.0 && new[i] == pair.1 && pair.0
                != pair.1,
    decreases old.len(),
{
    if old.len() > 0 {
        let k = old.len() - 1;
        let front = old.drop_last();
        let before = changed(front, new);
        let after = changed(old, new);
        lemma_changed(front, new, pair);
        if before.contains(pair) {
            let j = choose|j: int| 0 <= j < before.len() && before[j] == pair;
            assert(after[j] == pair);
            let i = choose|i: int|
                0 <= i < front.len() && #[trigger] front[i] == pair.0 && new[i] == pair.1
                    && pair.0 != pair.1;
            assert(old[i] == pair.0);
        }
        if after.contains(pair) && !before.contains(pair) {
            let j = choose|j: int| 0 <= j < after.len() && after[j] == pair;
            if j < before.len() {
                assert(before[j] == pair);
            }
            assert(old[k] == pair.0 && new[k] == pair.1 && pair.0 != pair.1);
        }
        if exists|i: int|
            0 <= i < old.len() && #[trigger] old[i] == pair.0 && new[i] == pair.1 && pair.0
                != pair.1 {
            let i = choose|i: int|
                0 <= i < old.len() && #[trigger] old[i] == pair.0 && new[i] == pair.1 && pair.0
                    != pair.1;
            if i < k {
                assert(front[i] == pair.0);
            } else {
                assert(after[before.len() as int] == pair);
            }
        }
    }
}

/// What stands in a list of watched names.
proof fn lemma_watched(
    old: Seq<Seq<char>>,
    new: Seq<Seq<char>>,
    system: Seq<Seq<char>>,
    name: Seq<char>,
)
    ensures
        watched(old, new, system).contains(name) <==> !system.contains(name) && exists|i: int|
            0 <= i < old.len() && #[trigger] old[i] == name && !(i < new.len() && new[i] == name),
    decreases old.len(),
{
    if old.len() > 0 {
        let k = old.len() - 1;
        let front = old.drop_last();
        let before = watched(front, new, system);
        let after = watched(old, new, system);
        lemma_watched(front, new, system, name);
        if before.contains(name) {
            let j = choose|j: int| 0 <= j < before.len() && before[j] == name;
            assert(after[j] == name);
            let i = choose|i: int|
                0 <= i < front.len() && #[trigger] front[i] == name && !(i < new.len() && new[i]
                    == name);
            assert(old[i] == name);
        }
        if after.contains(name) && !before.contains(name) {
            let j = choose|j: int| 0 <= j < after.len() && after[j] == name;
            if j < before.len() {
                assert(before[j] == name);
            }
            assert(old[k] == name && !(k < new.len() && new[k] == name));
        }
        if !system.contains(name) && exists|i: int|
            0 <= i < old.len() && #[trigger] old[i] == name && !(i < new.len() && new[i] == name) {
            let i = choose|i: int|
                0 <= i < old.len() && #[trigger] old[i] == name && !(i < new.len() && new[i]
                    == name);
            if i < k {
                assert(front[i] == name);
            } else {
                assert(after[before.len() as int] == name);
            }
        }
    }
}

/// The table lists a name with its replacement exactly where it is a name of a resource that is
/// not of the system and the replacement differs from it. Names of the system are not listed.
pub proof fn law_table_lists_replaced_names(
    s: State,
    supply: Seq<Seq<char>>,
    esx: Seq<Seq<char>>,
    sort: Sort,
    name: Seq<char>,
    new: Seq<char>,
)
    requires
        supplied(s, supply, esx),
        sort is Server || sort is Net || sort is Client,
    ensures
        ({
            let bucket = bucket_of(finished(s, supply, esx), sort);
            changed(bucket.old.names, bucket.new).contains((name, new)) <==> {
                &&& bucket_of(s, sort).old.names.contains(name)
                &&& new == replacement(shared_names(s), supply, name)
                &&& new != name
            }
        }),
{
    let all = shared_names(s);
    let bucket = bucket_of(finished(s, supply, esx), sort);
    let old = bucket_of(s, sort).old.names;
    let fixed = system_of(s, sort);
    let reps = replacements(all, supply, old);
    assert(bucket.old.names =~= old + fixed);
    assert(bucket.new =~= reps + fixed);
    lemma_changed(bucket.old.names, bucket.new, (name, new));
    if changed(bucket.old.names, bucket.new).contains((name, new)) {
        let i = choose|i: int|
            0 <= i < bucket.old.names.len() && #[trigger] bucket.old.names[i] == name
                && bucket.new[i] == new && name != new;
        if i < old.len() {
            assert(old[i] == name && reps[i] == new);
        } else {
            assert(bucket.old.names[i] == fixed[i - old.len()]);
            assert(bucket.new[i] == fixed[i - old.len()]);
        }
    }
    if old.contains(name) && new == replacement(all, supply, name) && new != name {
        let i = choose|i: int| 0 <= i < old.len() && old[i] == name;
        assert(bucket.old.names[i] == name);
        assert(bucket.new[i] == reps[i]);
    }
}

/// The names of one sort that a detector would watch by themselves: those of resources that are not
/// of the system whose replacements differ from them.
proof fn lemma_watched_sort(
    s: State,
    supply: Seq<Seq<char>>,
    esx: Seq<Seq<char>>,
    sort: Sort,
    name: Seq<char>,
)
    requires
        prepared(s),
        supplied(s, supply, esx),
        sort is Server || sort is Net,
    ensures
        ({
            let bucket = bucket_of(finished(s, supply, esx), sort);
            watched(bucket.old.names, bucket.new, system_of(s, sort)).contains(name)
                <==> bucket_of(s, sort).old.names.contains(name) && replacement(
                shared_names(s),
                supply,
                name,
            ) != name
        }),
{
    let all = shared_names(s);
    let bucket = bucket_of(finished(s, supply, esx), sort);
    let old = bucket_of(s, sort).old.names;
    let fixed = system_of(s, sort);
    let reps = replacements(all, supply, old);
    assert(bucket.old.names =~= old + fixed);
    assert(bucket.new =~= reps + fixed);
    lemma_watched(bucket.old.names, bucket.new, fixed, name);
    if watched(bucket.old.names, bucket.new, fixed).contains(name) {
        let i = choose|i: int|
            0 <= i < bucket.old.names.len() && #[trigger] bucket.old.names[i] == name && !(i
                < bucket.new.len() && bucket.new[i] == name);
        if i < old.len() {
            assert(old[i] == name);
            assert(bucket.new[i] == reps[i]);
        } else {
            assert(fixed[i - old.len()] == name);
        }
    }
    if old.contains(name) && replacement(all, supply, name) != name {
        let i = choose|i: int| 0 <= i < old.len() && old[i] == name;
        assert(bucket.old.names[i] == name);
        assert(bucket.new[i] == reps[i]);
        assert(is_custom_name(s, name));
    }
}

/// The server script of the detector watches an event exactly where it is a server or a net event
/// of a resource that is not of the system and its replacement differs from it. It watches no
/// event twice.
pub proof fn law_detector_watches_server_events(
    s: State,
    supply: Seq<Seq<char>>,
    esx: Seq<Seq<char>>,
    name: Seq<char>,
)
    requires
        prepared(s),
        supplied(s, supply, esx),
    ensures
        watched_server(finished(s, supply, esx)).contains(name) <==> {
            &&& s.server.old.names.contains(name) || s.net.old.names.contains(name)
            &&& replacement(shared_names(s), supply, name) != name
        },
        watched_server(finished(s, supply, esx)).no_duplicates(),
{
    let t = finished(s, supply, esx);
    let a = watched(t.server.old.names, t.server.new, t.system_server.names);
    let b = watched(t.net.old.names, t.net.new, t.system_net.names);
    lemma_watched_sort(s, supply, esx, Sort::Server, name);
    lemma_watched_sort(s, supply, esx, Sort::Net, name);
    lemma_first_seen(a + b);
    lemma_concat_contains(a, b, name);
}

/// The detector watches no client events but those of resources that are not of the system. Of
/// these it watches all that are not the text of a UUID.
pub proof fn law_detector_watches_client_events(
    s: State,
    supply: Seq<Seq<char>>,
    esx: Seq<Seq<char>>,
    name: Seq<char>,
)
    requires
        prepared(s),
        supplied(s, supply, esx),
        all_uuids(supply),
    ensures
        watched_client(finished(s, supply, esx)).contains(name) ==> s.client.old.names.contains(
            name,
        ),
        s.client.old.names.contains(name) && !is_uuid(name) ==> watched_client(
            finished(s, supply, esx),
        ).contains(name),
{
    let all = shared_names(s);
    let t = finished(s, supply, esx);
    let old = s.client.old.names;
    let fixed = s.system_client.names;
    let reps = replacements(all, supply, s.server.old.names);
    assert(t.client.old.names =~= old + fixed);
    assert(t.server.new =~= reps + s.system_server.names);
    lemma_watched(t.client.old.names, t.server.new, fixed, name);
    if watched_client(t).contains(name) {
        let i = choose|i: int|
            0 <= i < t.client.old.names.len() && #[trigger] t.client.old.names[i] == name && !(i
                < t.server.new.len() && t.server.new[i] == name);
        if i < old.len() {
            assert(old[i] == name);
        } else {
            assert(fixed[i - old.len()] == name);
        }
    }
    if old.contains(name) && !is_uuid(name) {
        let i = choose|i: int| 0 <= i < old.len() && old[i] == name;
        assert(t.client.old.names[i] == name);
        assert(is_custom_name(s, name));
        if i < t.server.new.len() && t.server.new[i] == name {
            if i < reps.len() {
                let other = s.server.old.names[i];
                lemma_shared_contains(s, Sort::Server, other);
                lemma_first_seen(all);
                let seen = first_seen(all);
                assert(seen.contains(other));
                let k = choose|k: int| 0 <= k < seen.len() && seen[k] == other;
                lemma_position(seen, other);
                assert(is_uuid(reps[i]));
            } else {
                assert(s.system_server.names[i - reps.len()] == name);
                assert(is_system_name(s, name));
            }
        }
    }
}

/// The table holds the names that differ from what takes their place, all of them and in order.
pub proof fn law_changed_names(old: Seq<Seq<char>>, new: Seq<Seq<char>>)
    ensures
        changed(old, new) == Seq::new(old.len(), |i: int| i).filter(
            |i: int| old[i] != new[i],
        ).map_values(|i: int| (old[i], new[i])),
    decreases old.len(),
{
    let p = |i: int| old[i] != new[i];
    let f = |i: int| (old[i], new[i]);
    if old.len() > 0 {
        let front = old.drop_last();
        let n = front.len();
        law_changed_names(front, new);
        lemma_pick_same(n, |i: int| front[i] != new[i], |i: int| (front[i], new[i]), p, f);
        lemma_pick_step(n, p, f);
    } else {
        lemma_pick_none(p, f);
    }
}

/// What is watched of a list of names: all that are neither kept by what takes their place nor
/// names of the system, in order.
pub proof fn law_watched_names(
    old: Seq<Seq<char>>,
    new: Seq<Seq<char>>,
    system: Seq<Seq<char>>,
)
    ensures
        watched(old, new, system) == Seq::new(old.len(), |i: int| i).filter(
            |i: int|
                !(i < new.len() && old[i] == new[i]) && forall|j: int|
                    0 <= j < system.len() ==> #[trigger] system[j] != old[i],
        ).map_values(|i: int| old[i]),
    decreases old.len(),
{
    let p = |i: int|
        !(i < new.len() && old[i] == new[i]) && forall|j: int|
            0 <= j < system.len() ==> #[trigger] system[j] != old[i];
    let f = |i: int| old[i];
    if old.len() > 0 {
        let front = old.drop_last();
        let n = front.len();
        law_watched_names(front, new, system);
        lemma_pick_same(
            n,
            |i: int|
                !(i < new.len() && front[i] == new[i]) && forall|j: int|
                    0 <= j < system.len() ==> #[trigger] system[j] != front[i],
            |i: int| front[i],
            p,
            f,
        );
        lemma_pick_step(n, p, f);
        assert(system.contains(old[n as int]) <==> exists|j: int|
            0 <= j < system.len() && #[trigger] system[j] == old[n as int]);
    } else {
        lemma_pick_none(p, f);
    }
}

/// The scripts of the detector begin with a table that has a line for every watched name, with the
/// name in quotation marks, and no other lines. What follows watches the names of the table: the
/// server reports who triggers one, or what a client tells it by the event `uid`, and a client
/// tells it by that event.
pub proof fn law_detector_scripts(names: Seq<Seq<char>>, uid: Seq<char>)
    ensures
        server_script(names, uid) == "local events = {\n"@ + names.map_values(
            |name: Seq<char>| "  '"@ + name + "',\n"@,
        ).flatten() + "}\n\n"@ + "RegisterServerEvent('"@ + uid + "')\nAddEventHandler('"@ + uid
            + "', function(name)\n  local _source = source\n  TriggerEvent('scrambler:injectionDetected', name, _source, false)\nend)\n\n"@
            + "\nfor i=1, #events, 1 do\n  RegisterServerEvent(events[i])\n  AddEventHandler(events[i], function()\n    local _source = source\n    TriggerEvent('scrambler:injectionDetected', events[i], _source, true)\n  end)\nend\n"@,
        client_script(names, uid) == "local events = {\n"@ + names.map_values(
            |name: Seq<char>| "  '"@ + name + "',\n"@,
        ).flatten() + "}\n\n"@
            + "\nfor i=1, #events, 1 do\n  AddEventHandler(events[i], function()\n    TriggerServerEvent('"@
            + uid + "', events[i])\n  end)\nend\n\n"@,
{
    lemma_table_lines(names);
}

proof fn lemma_table_lines(names: Seq<Seq<char>>)
    ensures
        table_lines(names) == names.map_values(
            |name: Seq<char>| "  '"@ + name + "',\n"@,
        ).flatten(),
    decreases names.len(),
{
    let line = |name: Seq<char>| "  '"@ + name + "',\n"@;
    let lines = names.map_values(line);
    if names.len() > 0 {
        let front = names.drop_last();
        lemma_table_lines(front);
        assert(lines =~= front.map_values(line).push(line(names.last())));
        front.map_values(line).lemma_flatten_push(line(names.last()));
        assert(table_lines(names) =~= front.map_values(line).flatten() + line(names.last()));
    } else {
        assert(lines.flatten() =~= Seq::empty());
    }
}

/// Every watched name has its line in the scripts of the detector.
pub proof fn law_detector_names_every_event(names: Seq<Seq<char>>, uid: Seq<char>, k: int)
    requires
        0 <= k < names.len(),
    ensures
        exists|a: Seq<char>, b: Seq<char>|
            server_script(names, uid) == #[trigger] (a + ("  '"@ + names[k] + "',\n"@) + b),
        exists|a: Seq<char>, b: Seq<char>|
            client_script(names, uid) == #[trigger] (a + ("  '"@ + names[k] + "',\n"@) + b),
{
    let line = "  '"@ + names[k] + "',\n"@;
    lemma_line(names, k);
    let (x, y) = choose|x: Seq<char>, y: Seq<char>|
        event_table(names) == #[trigger] (x + ("  '"@ + names[k] + "',\n"@) + y);
    let table = event_table(names);
    let n = table.len() as int;
    let server = server_script(names, uid);
    let client = client_script(names, uid);
    assert(server.take(n) =~= table);
    assert(client.take(n) =~= table);
    assert(server =~= x + line + (y + server.skip(n))) by {
        assert(server =~= server.take(n) + server.skip(n));
    }
    assert(client =~= x + line + (y + client.skip(n))) by {
        assert(client =~= client.take(n) + client.skip(n));
    }
}

proof fn lemma_line(names: Seq<Seq<char>>, k: int)
    requires
        0 <= k < names.len(),
    ensures
        exists|x: Seq<char>, y: Seq<char>|
            event_table(names) == #[trigger] (x + ("  '"@ + names[k] + "',\n"@) + y),
{
    lemma_table_line(names, k);
    let line = "  '"@ + names[k] + "',\n"@;
    let (x, y) = choose|x: Seq<char>, y: Seq<char>|
        table_lines(names) == #[trigger] (x + ("  '"@ + names[k] + "',\n"@) + y);
    assert(event_table(names) =~= ("local events = {\n"@ + x) + line + (y + "}\n\n"@));
}

proof fn lemma_table_line(names: Seq<Seq<char>>, k: int)
    requires
        0 <= k < names.len(),
    ensures
        exists|x: Seq<char>, y: Seq<char>|
            table_lines(names) == #[trigger] (x + ("  '"@ + names[k] + "',\n"@) + y),
    decreases names.len(),
{
    let line = "  '"@ + names[k] + "',\n"@;
    let front = names.drop_last();
    if k < front.len() {
        lemma_table_line(front, k);
        let (x, y) = choose|x: Seq<char>, y: Seq<char>|
            table_lines(front) == #[trigger] (x + ("  '"@ + front[k] + "',\n"@) + y);
        let more = "  '"@ + names.last() + "',\n"@;
        assert(table_lines(names) =~= x + line + (y + more));
    } else {
        assert(table_lines(names) =~= table_lines(front) + line + Seq::empty());
    }
}

/// The detector is a directory `scrambler-vac` of three files: a manifest that lists the two
/// scripts, the script of the server and that of the client.
pub proof fn law_detector_files(
    detector: CheatDetector,
    s: State,
    target: Seq<u8>,
    uid: Seq<char>,
)
    requires
        is_detector(detector, s, target, uid),
        target.len() > 0,
        target.last() != 0x2f,
    ensures
        detector.directory@ == target + encode_utf8("/scrambler-vac"@),
        detector.files@.len() == 3,
        detector.files@[0].path@ == target + encode_utf8("/scrambler-vac/__resource.lua"@),
        detector.files@[0].text@
            == "resource_manifest_version '44febabe-d386-4d18-afbe-5e627f4af937'\n\nclient_script 'client.lua'\nserver_script 'server.lua'\n\n"@,
        detector.files@[1].path@ == target + encode_utf8("/scrambler-vac/server.lua"@),
        detector.files@[1].text@ == server_script(watched_server(s), uid),
        detector.files@[2].path@ == target + encode_utf8("/scrambler-vac/client.lua"@),
        detector.files@[2].text@ == client_script(watched_client(s), uid),
{
    law_views(detector.files@);
    reveal_strlit("scrambler-vac");
    reveal_strlit("/scrambler-vac");
    reveal_strlit("__resource.lua");
    reveal_strlit("server.lua");
    reveal_strlit("client.lua");
    reveal_strlit("/scrambler-vac/__resource.lua");
    reveal_strlit("/scrambler-vac/server.lua");
    reveal_strlit("/scrambler-vac/client.lua");
    reveal_strlit("/");
    assert("/"@ + "scrambler-vac"@ =~= "/scrambler-vac"@);
    lemma_below(target, "scrambler-vac"@, "/scrambler-vac"@);
    assert("/scrambler-vac"@ + ("/"@ + "__resource.lua"@) =~= "/scrambler-vac/__resource.lua"@);
    assert("/scrambler-vac"@ + ("/"@ + "server.lua"@) =~= "/scrambler-vac/server.lua"@);
    assert("/scrambler-vac"@ + ("/"@ + "client.lua"@) =~= "/scrambler-vac/client.lua"@);
    lemma_in_detector(target, "__resource.lua"@, "/scrambler-vac/__resource.lua"@);
    lemma_in_detector(target, "server.lua"@, "/scrambler-vac/server.lua"@);
    lemma_in_detector(target, "client.lua"@, "/scrambler-vac/client.lua"@);
}

/// A name below a directory.
proof fn lemma_below(dir: Seq<u8>, name: Seq<char>, full: Seq<char>)
    requires
        dir.len() > 0,
        dir.last() != 0x2f,
        is_ascii_chars(name),
        name.len() > 0,
        name[0] != '/',
        full == "/"@ + name,
    ensures
        joined(dir, encode_utf8(name)) == dir + encode_utf8(full),
{
    reveal_strlit("/");
    is_ascii_chars_encode_utf8(name);
    is_ascii_chars_encode_utf8("/"@);
    lemma_encode_concat("/"@, name);
    assert(encode_utf8("/"@) =~= seq![0x2fu8]);
    assert(encode_utf8(name)[0] == name[0] as u8);
    assert(dir + seq![0x2fu8] + encode_utf8(name) =~= dir + (seq![0x2fu8] + encode_utf8(name)));
}

proof fn lemma_in_detector(target: Seq<u8>, name: Seq<char>, full: Seq<char>)
    requires
        target.len() > 0,
        target.last() != 0x2f,
        is_ascii_chars(name),
        name.len() > 0,
        name[0] != '/',
        full == "/scrambler-vac"@ + ("/"@ + name),
    ensures
        joined(joined(target, encode_utf8("scrambler-vac"@)), encode_utf8(name)) == target
            + encode_utf8(full),
{
    reveal_strlit("scrambler-vac");
    reveal_strlit("/scrambler-vac");
    reveal_strlit("/");
    assert("/"@ + "scrambler-vac"@ =~= "/scrambler-vac"@);
    lemma_below(target, "scrambler-vac"@, "/scrambler-vac"@);
    is_ascii_chars_encode_utf8("/scrambler-vac"@);
    let dir = target + encode_utf8("/scrambler-vac"@);
    assert(dir.last() == 'c' as u8);
    lemma_below(dir, name, "/"@ + name);
    lemma_encode_concat("/scrambler-vac"@, "/"@ + name);
    assert(dir + encode_utf8("/"@ + name) =~= target + encode_utf8(full));
}

/// The table of replaced names is a file `scrambler-events.json`. Of each of the three sorts of
/// events it holds all whose names have changed, in order, each with its new name.
pub proof fn law_events_table(table: EventsTable, s: State, target: Seq<u8>)
    requires
        is_events_table(table, s, target),
        target.len() > 0,
        target.last() != 0x2f,
    ensures
        table.path@ == target + encode_utf8("/scrambler-events.json"@),
        Seq::new(
            table.server@.len(),
            |k: int| (table.server@[k].original@, table.server@[k].new@),
        ) == Seq::new(s.server.old.names.len(), |i: int| i).filter(
            |i: int| s.server.old.names[i] != s.server.new[i],
        ).map_values(|i: int| (s.server.old.names[i], s.server.new[i])),
        Seq::new(
            table.net@.len(),
            |k: int| (table.net@[k].original@, table.net@[k].new@),
        ) == Seq::new(s.net.old.names.len(), |i: int| i).filter(
            |i: int| s.net.old.names[i] != s.net.new[i],
        ).map_values(|i: int| (s.net.old.names[i], s.net.new[i])),
        Seq::new(
            table.client@.len(),
            |k: int| (table.client@[k].original@, table.client@[k].new@),
        ) == Seq::new(s.client.old.names.len(), |i: int| i).filter(
            |i: int| s.client.old.names[i] != s.client.new[i],
        ).map_values(|i: int| (s.client.old.names[i], s.client.new[i])),
{
    law_views(table.server@);
    law_views(table.net@);
    law_views(table.client@);
    law_changed_names(s.server.old.names, s.server.new);
    law_changed_names(s.net.old.names, s.net.new);
    law_changed_names(s.client.old.names, s.client.new);
    reveal_strlit("scrambler-events.json");
    reveal_strlit("/scrambler-events.json");
    reveal_strlit("/");
    assert("/"@ + "scrambler-events.json"@ =~= "/scrambler-events.json"@);
    lemma_below(target, "scrambler-events.json"@, "/scrambler-events.json"@);
    assert(Seq::new(
        table.server@.len(),
        |k: int| (table.server@[k].original@, table.server@[k].new@),
    ) =~= changed(s.server.old.names, s.server.new));
    assert(Seq::new(
        table.net@.len(),
        |k: int| (table.net@[k].original@, table.net@[k].new@),
    ) =~= changed(s.net.old.names, s.net.new));
    assert(Seq::new(
        table.client@.len(),
        |k: int| (table.client@[k].original@, table.client@[k].new@),
    ) =~= changed(s.client.old.names, s.client.new));
}

/// The server script of the detector watches what is watched of server and net events, each name
/// where it comes first; the client script what is watched of client events, which are held against
/// what takes the place of server events.
pub proof fn law_watched_events(s: State)
    ensures
        watched_server(s) == first_seen(
            watched(s.server.old.names, s.server.new, s.system_server.names) + watched(
                s.net.old.names,
                s.net.new,
                s.system_net.names,
            ),
        ),
        watched_client(s) == watched(s.client.old.names, s.server.new, s.system_client.names),
{
}

/// The files are written to the directory of the resources, and those of the detector to one below
/// it, whatever that is.
pub proof fn law_output_paths(
    detector: CheatDetector,
    table: EventsTable,
    s: State,
    target: Seq<u8>,
    uid: Seq<char>,
)
    ensures
        is_events_table(table, s, target) ==> table.path@ == joined(
            target,
            encode_utf8("scrambler-events.json"@),
        ),
        is_detector(detector, s, target, uid) ==> {
            let dir = joined(target, encode_utf8("scrambler-vac"@));
            &&& detector.directory@ == dir
            &&& detector.files@.len() == 3
            &&& detector.files@[0].path@ == joined(dir, encode_utf8("__resource.lua"@))
            &&& detector.files@[1].path@ == joined(dir, encode_utf8("server.lua"@))
            &&& detector.files@[2].path@ == joined(dir, encode_utf8("client.lua"@))
        },
{
    law_views(detector.files@);
}

} // verus!
