//! What is written beside the scripts: a table of the names that were replaced, and a resource
//! that reports clients which use the names of before.
use crate::names::{admitted, lemma_admit_concat, no_names, NameList};
use crate::paths::{join, joined};
use crate::replacement::first_seen;
use crate::state::State;
use crate::text::views;
use vstd::prelude::*;
use vstd::string::*;
use vstd::utf8::*;

verus! {

/// The names that differ from what takes their place, each with that.
pub open spec fn changed(old: Seq<Seq<char>>, new: Seq<Seq<char>>) -> Seq<(Seq<char>, Seq<char>)>
    decreases old.len(),
{
    if old.len() == 0 {
        Seq::empty()
    } else {
        let k = old.len() - 1;
        let before = changed(old.drop_last(), new);
        if old[k] != new[k] {
            before.push((old[k], new[k]))
        } else {
            before
        }
    }
}

/// A name and what has taken its place.
#[derive(Debug)]
pub struct EventPair {
    pub original: String,
    pub new: String,
}

impl View for EventPair {
    type V = (Seq<char>, Seq<char>);

    open spec fn view(&self) -> (Seq<char>, Seq<char>) {
        (self.original@, self.new@)
    }
}

/// The table of the names that were replaced.
#[derive(Debug)]
pub struct EventsTable {
    pub path: Vec<u8>,
    pub server: Vec<EventPair>,
    pub net: Vec<EventPair>,
    pub client: Vec<EventPair>,
}

/// Where the table is written.
pub open spec fn table_path(target: Seq<u8>) -> Seq<u8> {
    joined(target, encode_utf8("scrambler-events.json"@))
}

/// Every name has something that takes its place.
pub open spec fn matched(s: State) -> bool {
    &&& s.server.old.names.len() <= s.server.new.len()
    &&& s.net.old.names.len() <= s.net.new.len()
    &&& s.client.old.names.len() <= s.client.new.len()
}

/// The names that differ from what takes their place, each with that.
pub fn changed_pairs(old: &Vec<String>, new: &Vec<String>) -> (r: Vec<EventPair>)
    requires
        old@.len() <= new@.len(),
    ensures
        views(r@) == changed(views(old@), views(new@)),
{
    let ghost all = views(old@);
    let mut r: Vec<EventPair> = Vec::new();
    let mut i: usize = 0;
    assert(all.take(0) =~= Seq::empty());
    assert(views(r@) =~= Seq::empty());
    while i < old.len()
        invariant
            all == views(old@),
            old@.len() <= new@.len(),
            i <= old.len(),
            views(r@) == changed(all.take(i as int), views(new@)),
        decreases old.len() - i,
    {
        proof {
            assert(all.take(i + 1).drop_last() =~= all.take(i as int));
            assert(all.take(i + 1)[i as int] == old@[i as int]@);
            assert(views(new@)[i as int] == new@[i as int]@);
        }
        if old[i] != new[i] {
            let ghost before = views(r@);
            let pair = EventPair { original: old[i].clone(), new: new[i].clone() };
            r.push(pair);
            assert(views(r@) =~= before.push(pair@));
        }
        i += 1;
    }
    assert(all.take(i as int) =~= all);
    r
}

/// The names that a detector watches: those that are not kept as they are by `new` and are not
/// names of the system.
pub open spec fn watched(
    old: Seq<Seq<char>>,
    new: Seq<Seq<char>>,
    system: Seq<Seq<char>>,
) -> Seq<Seq<char>>
    decreases old.len(),
{
    if old.len() == 0 {
        Seq::empty()
    } else {
        let k = old.len() - 1;
        let before = watched(old.drop_last(), new, system);
        if (k < new.len() && old[k] == new[k]) || system.contains(old[k]) {
            before
        } else {
            before.push(old[k])
        }
    }
}

/// The lines of a Lua table with the names.
pub open spec fn table_lines(names: Seq<Seq<char>>) -> Seq<char>
    decreases names.len(),
{
    if names.len() == 0 {
        Seq::empty()
    } else {
        table_lines(names.drop_last()) + "  '"@ + names.last() + "',\n"@
    }
}

/// A Lua table with the names.
pub open spec fn event_table(names: Seq<Seq<char>>) -> Seq<char> {
    "local events = {\n"@ + table_lines(names) + "}\n\n"@
}

/// The manifest of the detector.
pub const DETECTOR_MANIFEST: &'static str = "resource_manifest_version '44febabe-d386-4d18-afbe-5e627f4af937'\n\nclient_script 'client.lua'\nserver_script 'server.lua'\n\n";

/// The last part of the detector's server script: who triggers a watched event is reported.
pub const SERVER_WATCH: &'static str = "\nfor i=1, #events, 1 do\n  RegisterServerEvent(events[i])\n  AddEventHandler(events[i], function()\n    local _source = source\n    TriggerEvent('scrambler:injectionDetected', events[i], _source, true)\n  end)\nend\n";

/// The server script of the detector. `uid` is the event by which the client script tells it of
/// watched events.
pub open spec fn server_script(names: Seq<Seq<char>>, uid: Seq<char>) -> Seq<char> {
    event_table(names) + "RegisterServerEvent('"@ + uid + "')\nAddEventHandler('"@ + uid
        + "', function(name)\n  local _source = source\n  TriggerEvent('scrambler:injectionDetected', name, _source, false)\nend)\n\n"@
        + SERVER_WATCH@
}

/// The client script of the detector.
pub open spec fn client_script(names: Seq<Seq<char>>, uid: Seq<char>) -> Seq<char> {
    event_table(names)
        + "\nfor i=1, #events, 1 do\n  AddEventHandler(events[i], function()\n    TriggerServerEvent('"@
        + uid + "', events[i])\n  end)\nend\n\n"@
}

/// A file and what is to be written to it.
#[derive(Debug)]
pub struct TextFile {
    pub path: Vec<u8>,
    pub text: String,
}

impl View for TextFile {
    type V = (Seq<u8>, Seq<char>);

    open spec fn view(&self) -> (Seq<u8>, Seq<char>) {
        (self.path@, self.text@)
    }
}

/// The detector: a directory and the files in it.
#[derive(Debug)]
pub struct CheatDetector {
    pub directory: Vec<u8>,
    pub files: Vec<TextFile>,
}

/// The directory of the detector.
pub open spec fn detector_directory(target: Seq<u8>) -> Seq<u8> {
    joined(target, encode_utf8("scrambler-vac"@))
}

/// The events that the server script of the detector watches: server events and net events, each
/// once.
pub open spec fn watched_server(s: State) -> Seq<Seq<char>> {
    first_seen(
        watched(s.server.old.names, s.server.new, s.system_server.names) + watched(
            s.net.old.names,
            s.net.new,
            s.system_net.names,
        ),
    )
}

/// The client events that the detector watches. They are held against what takes the place of
/// server events.
pub open spec fn watched_client(s: State) -> Seq<Seq<char>> {
    watched(s.client.old.names, s.server.new, s.system_client.names)
}

/// The files of a detector that watches the given events, in the order in which they are written.
pub open spec fn detector_files(
    dir: Seq<u8>,
    server: Seq<Seq<char>>,
    client: Seq<Seq<char>>,
    uid: Seq<char>,
) -> Seq<(Seq<u8>, Seq<char>)> {
    seq![
        (joined(dir, encode_utf8("__resource.lua"@)), DETECTOR_MANIFEST@),
        (joined(dir, encode_utf8("server.lua"@)), server_script(server, uid)),
        (joined(dir, encode_utf8("client.lua"@)), client_script(client, uid)),
    ]
}

/// `detector` is the one that a scrambler makes in `target`.
pub open spec fn is_detector(
    detector: CheatDetector,
    s: State,
    target: Seq<u8>,
    uid: Seq<char>,
) -> bool {
    &&& detector.directory@ == detector_directory(target)
    &&& views(detector.files@) == detector_files(
        detector_directory(target),
        watched_server(s),
        watched_client(s),
        uid,
    )
}

/// `table` is the one that a scrambler makes in `target`.
pub open spec fn is_events_table(table: EventsTable, s: State, target: Seq<u8>) -> bool {
    &&& table.path@ == table_path(target)
    &&& views(table.server@) == changed(s.server.old.names, s.server.new)
    &&& views(table.net@) == changed(s.net.old.names, s.net.new)
    &&& views(table.client@) == changed(s.client.old.names, s.client.new)
}

/// The names that a detector watches.
pub fn find_watched(old: &Vec<String>, new: &Vec<String>, system: &Vec<String>) -> (r: Vec<String>)
    ensures
        views(r@) == watched(views(old@), views(new@), views(system@)),
{
    let ghost all = views(old@);
    let mut r: Vec<String> = Vec::new();
    let mut i: usize = 0;
    assert(all.take(0) =~= Seq::empty());
    assert(views(r@) =~= Seq::empty());
    while i < old.len()
        invariant
            all == views(old@),
            i <= old.len(),
            views(r@) == watched(all.take(i as int), views(new@), views(system@)),
        decreases old.len() - i,
    {
        proof {
            assert(all.take(i + 1).drop_last() =~= all.take(i as int));
            assert(all.take(i + 1)[i as int] == old@[i as int]@);
            assert(i < new@.len() ==> views(new@)[i as int] == new@[i as int]@);
        }
        if !(i < new.len() && old[i] == new[i]) && !contains_name(system, &old[i]) {
            let ghost before = views(r@);
            r.push(old[i].clone());
            assert(views(r@) =~= before.push(old@[i as int]@));
        }
        i += 1;
    }
    assert(all.take(i as int) =~= all);
    r
}

/// The names of two lists, each once.
pub fn merge_names(a: &Vec<String>, b: &Vec<String>) -> (r: Vec<String>)
    ensures
        views(r@) == first_seen(views(a@) + views(b@)),
{
    let mut list = NameList::new();
    add_names(&mut list, a);
    add_names(&mut list, b);
    proof {
        lemma_admit_concat(no_names(), views(a@), views(b@), Set::empty());
    }
    list.into_names()
}

/// Puts names at the end of a list, each unless it has been seen.
fn add_names(list: &mut NameList, names: &Vec<String>)
    ensures
        final(list)@ == admitted(old(list)@, views(names@), Set::empty()),
{
    let ghost all = views(names@);
    let mut i: usize = 0;
    assert(all.take(0) =~= Seq::empty());
    while i < names.len()
        invariant
            all == views(names@),
            i <= names.len(),
            list@ == admitted(old(list)@, all.take(i as int), Set::empty()),
        decreases names.len() - i,
    {
        list.add_once(names[i].as_str());
        proof {
            let front = all.take(i as int);
            lemma_admit_concat(old(list)@, front, seq![names@[i as int]@], Set::empty());
            assert(all.take(i + 1) =~= front + seq![names@[i as int]@]);
        }
        i += 1;
    }
    assert(all.take(i as int) =~= all);
}

/// Whether a name stands in a list.
fn contains_name(names: &Vec<String>, name: &String) -> (r: bool)
    ensures
        r == views(names@).contains(name@),
{
    let mut i: usize = 0;
    while i < names.len()
        invariant
            i <= names.len(),
            forall|j: int| 0 <= j < i ==> views(names@)[j] != name@,
        decreases names.len() - i,
    {
        assert(views(names@)[i as int] == names@[i as int]@);
        if names[i] == *name {
            return true;
        }
        i += 1;
    }
    false
}

/// A Lua table with the names.
fn write_event_table(names: &Vec<String>) -> (r: String)
    ensures
        r@ == event_table(views(names@)),
{
    let ghost all = views(names@);
    let mut r = String::new();
    r.append("local events = {\n");
    let mut i: usize = 0;
    assert(all.take(0) =~= Seq::empty());
    assert("local events = {\n"@ + table_lines(all.take(0)) =~= "local events = {\n"@);
    assert(r@ =~= "local events = {\n"@);
    while i < names.len()
        invariant
            all == views(names@),
            i <= names.len(),
            r@ == "local events = {\n"@ + table_lines(all.take(i as int)),
        decreases names.len() - i,
    {
        proof {
            assert(all.take(i + 1).drop_last() =~= all.take(i as int));
            assert(all.take(i + 1).last() == names@[i as int]@);
        }
        r.append("  '");
        r.append(names[i].as_str());
        r.append("',\n");
        assert(r@ =~= "local events = {\n"@ + table_lines(all.take(i + 1)));
        i += 1;
    }
    assert(all.take(i as int) =~= all);
    r.append("}\n\n");
    r
}

/// The server script of the detector.
pub fn write_server_script(names: &Vec<String>, uid: &str) -> (r: String)
    ensures
        r@ == server_script(views(names@), uid@),
{
    let mut r = write_event_table(names);
    r.append("RegisterServerEvent('");
    r.append(uid);
    r.append("')\nAddEventHandler('");
    r.append(uid);
    r.append(
        "', function(name)\n  local _source = source\n  TriggerEvent('scrambler:injectionDetected', name, _source, false)\nend)\n\n",
    );
    r.append(SERVER_WATCH);
    r
}

/// The client script of the detector.
pub fn write_client_script(names: &Vec<String>, uid: &str) -> (r: String)
    ensures
        r@ == client_script(views(names@), uid@),
{
    let mut r = write_event_table(names);
    r.append(
        "\nfor i=1, #events, 1 do\n  AddEventHandler(events[i], function()\n    TriggerServerEvent('",
    );
    r.append(uid);
    r.append("', events[i])\n  end)\nend\n\n");
    r
}

/// Puts the parts of a detector together. `server` and `client` are the events that it watches.
pub fn make_detector(
    target: &[u8],
    server: &Vec<String>,
    client: &Vec<String>,
    uid: &str,
) -> (r: CheatDetector)
    ensures
        r.directory@ == detector_directory(target@),
        views(r.files@) == detector_files(
            detector_directory(target@),
            views(server@),
            views(client@),
            uid@,
        ),
{
    let directory = join(target, "scrambler-vac".as_bytes());
    let manifest = TextFile {
        path: join(directory.as_slice(), "__resource.lua".as_bytes()),
        text: DETECTOR_MANIFEST.to_owned(),
    };
    let server_file = TextFile {
        path: join(directory.as_slice(), "server.lua".as_bytes()),
        text: write_server_script(server, uid),
    };
    let client_file = TextFile {
        path: join(directory.as_slice(), "client.lua".as_bytes()),
        text: write_client_script(client, uid),
    };
    let files: Vec<TextFile> = vec![manifest, server_file, client_file];
    assert(views(files@) =~= detector_files(
        detector_directory(target@),
        views(server@),
        views(client@),
        uid@,
    ));
    CheatDetector { directory, files }
}

} // verus!
