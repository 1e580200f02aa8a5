//! The scrambler: it gathers the scripts of resources and the event names in them, and gives the
//! names replacements.
use crate::events::{gather, texts, EventRegexes};
use crate::manifest::{
    are_scripts, evaluate, executions, list_of, lists, Evaluation, LuaEntry,
};
use crate::names::{admitted, no_names, NameList};
use crate::output::{
    changed_pairs, find_watched, is_detector, is_events_table, make_detector, matched, merge_names,
    CheatDetector, EventsTable,
};
use crate::path_order::sort_paths;
use crate::paths::{get_parent, join, parent};
use crate::replacement::{assign_names, concat, contents, draw_supply, draw_uuids, first_seen};
use crate::rewrite::{build_map, mapping, NameMap};
use crate::run_laws::law_every_script_is_rewritten;
use crate::sandbox::{Lookup, Sandbox};
use crate::scripts::{
    add_existing, add_parents, candidates, filter_manifests, find_candidates, find_undeclared,
};
use crate::state::{
    detector_event, finished, initial, loaded, manifests_of, shared_names, system_names,
    with_custom_client, with_custom_server, with_fixed, with_manifests, with_replacements,
    with_scripts, with_system_client, with_system_fixed, with_system_server, with_undeclared,
    Bucket, State,
};
use crate::text::{copy_bytes, views};
use crate::text_laws::law_views;
use crate::uuids::{all_uuids, is_uuid, UuidSource};
use crate::writer::{add_tasks, all_tasks, bucket_map, ScriptTask, ScriptWriter, Task};
use vstd::hash_set::StringHashSet;
use vstd::prelude::*;

verus! {

/// The Lua program that runs before a manifest unless another one is given. It defines what
/// manifests call: functions that list scripts, and functions that do nothing for the rest.
pub const DEFAULT_LOADER_LUA: &'static str = "__SCRIPTS = { server = {}, client = {} }

local function lister(...)
  local lists = { ... }
  return function(value)
    local values = value
    if type(values) ~= 'table' then
      values = { values }
    end
    for i = 1, #values do
      for j = 1, #lists do
        lists[j][#lists[j] + 1] = values[i]
      end
    end
  end
end

server_script = lister(__SCRIPTS.server)
server_scripts = server_script
client_script = lister(__SCRIPTS.client)
client_scripts = client_script
shared_script = lister(__SCRIPTS.server, __SCRIPTS.client)
shared_scripts = shared_script

local function dummy()
  return dummy
end

local ignored = {
  'resource_manifest_version', 'resource_type', 'fx_version', 'game', 'games',
  'name', 'description', 'version', 'author', 'url', 'repository', 'license',
  'dependency', 'dependencies', 'provide', 'file', 'files', 'data_file',
  'ui_page', 'ui_page_preload', 'loadscreen', 'loadscreen_manual_shutdown',
  'export', 'exports', 'server_export', 'server_exports', 'map', 'this_is_a_map',
  'before_level_meta', 'after_level_meta', 'replace_level_meta', 'server_only',
  'client_only', 'lua54', 'use_fxv2_oal', 'use_experimental_fxv2_oal', 'rdr3_warning',
  'convar_category', 'escrow_ignore', 'clr_disable_task_scheduler', 'disable_lazy_natives',
}

for i = 1, #ignored do
  _G[ignored[i]] = dummy
end
";

/// Names of one sort, with their replacements.
struct EventList {
    old: NameList,
    new: Vec<String>,
}

impl View for EventList {
    type V = Bucket;

    closed spec fn view(&self) -> Bucket {
        Bucket { old: self.old@, new: views(self.new@) }
    }
}

impl EventList {
    fn new() -> (r: Self)
        ensures
            r@ == (Bucket { old: no_names(), new: Seq::empty() }),
    {
        let r = EventList { old: NameList::new(), new: Vec::new() };
        assert(views(r.new@) =~= Seq::empty());
        r
    }

    /// The table from names to replacements.
    fn map(&self) -> (r: NameMap)
        ensures
            mapping(r@) == bucket_map(self@),
    {
        build_map(self.old.names().as_slice(), self.new.as_slice())
    }

    /// Puts names behind the others, each to be replaced by itself.
    fn fix(&mut self, names: &Vec<String>)
        ensures
            final(self)@ == with_fixed(old(self)@, views(names@)),
    {
        let ghost all = views(names@);
        let mut i: usize = 0;
        proof {
            assert(all.take(0) =~= Seq::empty());
            assert(self@.new + Seq::<Seq<char>>::empty() =~= self@.new);
            assert(self@.old.names + Seq::<Seq<char>>::empty() =~= self@.old.names);
        }
        while i < names.len()
            invariant
                all == views(names@),
                i <= names.len(),
                self@ == with_fixed(old(self)@, all.take(i as int)),
            decreases names.len() - i,
        {
            let ghost before = self@;
            self.old.append(names[i].as_str());
            self.new.push(names[i].clone());
            proof {
                let name = names@[i as int]@;
                assert(self@.new =~= before.new.push(name));
                assert(all.take(i + 1) =~= all.take(i as int).push(name));
                assert(self@ =~= with_fixed(old(self)@, all.take(i + 1)));
            }
            i += 1;
        }
        assert(all.take(i as int) =~= all);
    }
}

/// Gathers scripts and event names, and replaces the names.
pub struct ResourceScrambler {
    re: EventRegexes,
    loader_source: String,
    system_server: NameList,
    system_net: NameList,
    system_client: NameList,
    system_oxlib: NameList,
    server: EventList,
    net: EventList,
    client: EventList,
    esx: EventList,
    oxlib: EventList,
    qbcore: EventList,
    server_scripts: Vec<Vec<u8>>,
    client_scripts: Vec<Vec<u8>>,
    directories: Vec<Vec<u8>>,
    target_directory: Option<Vec<u8>>,
    uuids: UuidSource,
}

impl View for ResourceScrambler {
    type V = State;

    closed spec fn view(&self) -> State {
        State {
            loader: self.loader_source@,
            system_server: self.system_server@,
            system_net: self.system_net@,
            system_client: self.system_client@,
            system_oxlib: self.system_oxlib@,
            server: self.server@,
            net: self.net@,
            client: self.client@,
            esx: self.esx@,
            oxlib: self.oxlib@,
            qbcore: self.qbcore@,
            server_scripts: views(self.server_scripts@),
            client_scripts: views(self.client_scripts@),
            directories: views(self.directories@),
            target: match self.target_directory {
                Some(path) => Some(path@),
                None => None,
            },
        }
    }
}

impl ResourceScrambler {
    /// The expressions are those that find event names.
    pub closed spec fn wf(&self) -> bool {
        self.re.wf()
    }

    /// The UUIDs that were drawn for names, in order.
    pub closed spec fn drawn(&self) -> Seq<Seq<char>> {
        self.uuids.drawn()
    }

    /// A scrambler whose manifests run after [`DEFAULT_LOADER_LUA`].
    pub fn new() -> (r: Self)
        ensures
            r.wf(),
            r@ == initial(DEFAULT_LOADER_LUA@),
            r.drawn() == Seq::<Seq<char>>::empty(),
    {
        Self::with_loader_source(DEFAULT_LOADER_LUA.to_owned())
    }

    /// A scrambler whose manifests run after the given Lua program.
    pub fn with_loader_source(loader_source: String) -> (r: Self)
        ensures
            r.wf(),
            r@ == initial(loader_source@),
            r.drawn() == Seq::<Seq<char>>::empty(),
    {
        let mut system_server = NameList::new();
        system_server.add_once("scrambler:injectionDetected");
        let r = ResourceScrambler {
            re: EventRegexes::new(),
            loader_source,
            system_server,
            system_net: NameList::new(),
            system_client: NameList::new(),
            system_oxlib: NameList::new(),
            server: EventList::new(),
            net: EventList::new(),
            client: EventList::new(),
            esx: EventList::new(),
            oxlib: EventList::new(),
            qbcore: EventList::new(),
            server_scripts: Vec::new(),
            client_scripts: Vec::new(),
            directories: Vec::new(),
            target_directory: None,
            uuids: UuidSource::new(),
        };
        proof {
            let found = seq![detector_event()];
            assert(found.drop_last() =~= Seq::empty());
            assert(admitted(no_names(), found.drop_last(), Set::empty()) == no_names());
            assert(system_server@.names =~= found);
            assert(r@ =~= initial(r.loader_source@));
        }
        r
    }

    /// Takes note of the directory and of the files below it: the directories of the manifests
    /// among them are those of the resources. Returns the manifests, in order.
    pub fn load_scripts(&mut self, directory: &[u8], files: &Vec<Vec<u8>>) -> (r: Vec<Vec<u8>>)
        requires
            old(self).wf(),
        ensures
            final(self).wf(),
            manifests_of(views(files@), views(r@)),
            final(self)@ == with_manifests(old(self)@, directory@, views(r@)),
            final(self).drawn() == old(self).drawn(),
    {
        self.target_directory = Some(copy_bytes(directory));
        let manifests = sort_paths(filter_manifests(files));
        add_parents(&mut self.directories, &manifests);
        assert(self@ =~= with_manifests(old(self)@, directory@, views(manifests@)));
        manifests
    }

    /// Runs a manifest after the loader, in a Lua state of its own. Returns what came of it, and
    /// that state.
    pub fn run_manifest(&self, manifest: &str) -> (r: (Evaluation, Sandbox))
        ensures
            r.1.ran() == executions(Seq::empty(), self@.loader, manifest@, r.0),
            match r.0 {
                Evaluation::LoaderFailed(_) => r.1.looked_up() == Seq::<Lookup>::empty(),
                Evaluation::Ran { scripts, .. } => are_scripts(
                    Seq::empty(),
                    r.1.looked_up(),
                    scripts,
                ),
            },
    {
        let mut sandbox = Sandbox::new();
        let evaluation = evaluate(&mut sandbox, self.loader_source.as_str(), manifest);
        (evaluation, sandbox)
    }

    /// Where the scripts should lie that a table of the manifest at `path` lists.
    pub fn script_candidates(
        &self,
        path: &[u8],
        table: &Option<Vec<Option<LuaEntry>>>,
    ) -> (r: Vec<Vec<u8>>)
        ensures
            are_candidates(self@.directories, path@, *table, views(r@)),
    {
        let empty: Vec<u8> = Vec::new();
        let home: &[u8] = match get_parent(path) {
            Some(dir) => dir,
            None => empty.as_slice(),
        };
        assert(home@ =~= home_of(path@));
        let scripts = list_of(table);
        find_candidates(&self.directories, home, &scripts)
    }

    /// Adds those of the scripts that are there to one side, each unless it is there already.
    pub fn resolve_scripts(&mut self, paths: &Vec<Vec<u8>>, there: &Vec<bool>, is_server: bool)
        requires
            old(self).wf(),
            paths@.len() == there@.len(),
        ensures
            final(self).wf(),
            final(self)@ == with_scripts(old(self)@, views(paths@), there@, is_server),
            final(self).drawn() == old(self).drawn(),
    {
        if is_server {
            add_existing(&mut self.server_scripts, paths, there);
        } else {
            add_existing(&mut self.client_scripts, paths, there);
        }
        assert(self@ =~= with_scripts(old(self)@, views(paths@), there@, is_server));
    }

    /// Adds the scripts among the files of the resources that no manifest has declared.
    pub fn discover_undeclared_scripts(&mut self, found: &Vec<Vec<u8>>)
        requires
            old(self).wf(),
        ensures
            final(self).wf(),
            final(self)@ == with_undeclared(old(self)@, views(found@)),
            final(self).drawn() == old(self).drawn(),
    {
        let mut server = find_undeclared(found, &self.server_scripts, true);
        let mut client = find_undeclared(found, &self.client_scripts, false);
        let ghost more_server = views(server@);
        let ghost more_client = views(client@);
        self.server_scripts.append(&mut server);
        self.client_scripts.append(&mut client);
        proof {
            assert(views(self.server_scripts@) =~= views(old(self).server_scripts@) + more_server);
            assert(views(self.client_scripts@) =~= views(old(self).client_scripts@) + more_client);
            assert(self@ =~= with_undeclared(old(self)@, views(found@)));
        }
    }

    /// The names of system resources.
    pub fn all_system_events(&self) -> (r: StringHashSet)
        ensures
            r@ == system_names(self@),
    {
        let mut r = StringHashSet::new();
        insert_all(&mut r, self.system_server.names());
        insert_all(&mut r, self.system_net.names());
        insert_all(&mut r, self.system_client.names());
        insert_all(&mut r, self.system_oxlib.names());
        assert(r@ =~= system_names(self@));
        r
    }

    /// Gathers the names that server scripts of system resources use. A script that could not be
    /// read counts for nothing.
    pub fn load_system_server_events(&mut self, codes: &Vec<Option<Vec<u8>>>)
        requires
            old(self).wf(),
            old(self)@.server_scripts.len() == codes@.len(),
        ensures
            final(self).wf(),
            final(self)@ == with_system_server(old(self)@, texts(codes@)),
            final(self).drawn() == old(self).drawn(),
    {
        let block = StringHashSet::new();
        let calls = self.re.server_events();
        gather(
            &mut self.system_server,
            &self.server_scripts,
            codes,
            true,
            calls.as_slice(),
            &block,
        );
        let calls = self.re.net_events();
        gather(&mut self.system_net, &self.server_scripts, codes, true, calls.as_slice(), &block);
        let calls = self.re.oxlib_callbacks();
        gather(&mut self.system_oxlib, &self.server_scripts, codes, true, calls.as_slice(), &block);
        assert(self@ =~= with_system_server(old(self)@, texts(codes@)));
    }

    /// Gathers the names that client scripts of system resources use.
    pub fn load_system_client_events(&mut self, codes: &Vec<Option<Vec<u8>>>)
        requires
            old(self).wf(),
            old(self)@.client_scripts.len() == codes@.len(),
        ensures
            final(self).wf(),
            final(self)@ == with_system_client(old(self)@, texts(codes@)),
            final(self).drawn() == old(self).drawn(),
    {
        let block = StringHashSet::new();
        let calls = self.re.net_events();
        gather(&mut self.system_net, &self.client_scripts, codes, true, calls.as_slice(), &block);
        let calls = self.re.client_events();
        gather(
            &mut self.system_client,
            &self.client_scripts,
            codes,
            true,
            calls.as_slice(),
            &block,
        );
        let calls = self.re.oxlib_callbacks();
        gather(&mut self.system_oxlib, &self.client_scripts, codes, true, calls.as_slice(), &block);
        assert(self@ =~= with_system_client(old(self)@, texts(codes@)));
    }

    /// Gathers the names that server scripts of other resources use, but for those of system
    /// resources.
    pub fn load_custom_server_events(&mut self, codes: &Vec<Option<Vec<u8>>>)
        requires
            old(self).wf(),
            old(self)@.server_scripts.len() == codes@.len(),
        ensures
            final(self).wf(),
            final(self)@ == with_custom_server(old(self)@, texts(codes@)),
            final(self).drawn() == old(self).drawn(),
    {
        let block = self.all_system_events();
        let calls = self.re.server_events();
        gather(&mut self.server.old, &self.server_scripts, codes, false, calls.as_slice(), &block);
        let calls = self.re.net_events();
        gather(&mut self.net.old, &self.server_scripts, codes, false, calls.as_slice(), &block);
        let calls = self.re.esx_callbacks(true);
        gather(&mut self.esx.old, &self.server_scripts, codes, false, calls.as_slice(), &block);
        let calls = self.re.oxlib_callbacks();
        gather(&mut self.oxlib.old, &self.server_scripts, codes, false, calls.as_slice(), &block);
        let calls = self.re.qbcore_callbacks(true);
        gather(&mut self.qbcore.old, &self.server_scripts, codes, false, calls.as_slice(), &block);
        assert(self@ =~= with_custom_server(old(self)@, texts(codes@)));
    }

    /// Gathers the names that client scripts of other resources use, but for those of system
    /// resources.
    pub fn load_custom_client_events(&mut self, codes: &Vec<Option<Vec<u8>>>)
        requires
            old(self).wf(),
            old(self)@.client_scripts.len() == codes@.len(),
        ensures
            final(self).wf(),
            final(self)@ == with_custom_client(old(self)@, texts(codes@)),
            final(self).drawn() == old(self).drawn(),
    {
        let block = self.all_system_events();
        let calls = self.re.net_events();
        gather(&mut self.net.old, &self.client_scripts, codes, false, calls.as_slice(), &block);
        let calls = self.re.client_events();
        gather(&mut self.client.old, &self.client_scripts, codes, false, calls.as_slice(), &block);
        let calls = self.re.esx_callbacks(false);
        gather(&mut self.esx.old, &self.client_scripts, codes, false, calls.as_slice(), &block);
        let calls = self.re.oxlib_callbacks();
        gather(&mut self.oxlib.old, &self.client_scripts, codes, false, calls.as_slice(), &block);
        let calls = self.re.qbcore_callbacks(false);
        gather(&mut self.qbcore.old, &self.client_scripts, codes, false, calls.as_slice(), &block);
        assert(self@ =~= with_custom_client(old(self)@, texts(codes@)));
    }

    /// Takes the replacements of names from a supply, in the order in which the names are first
    /// seen. A name of more than one sort gets one replacement. ESX callbacks are apart: their
    /// replacements are given by `esx`.
    pub fn replace_events(&mut self, supply: &Vec<String>, esx: Vec<String>)
        requires
            old(self).wf(),
            first_seen(shared_names(old(self)@)).len() <= supply@.len(),
        ensures
            final(self).wf(),
            final(self)@ == with_replacements(old(self)@, views(supply@), views(esx@)),
            final(self).drawn() == old(self).drawn(),
    {
        let ghost given = views(esx@);
        let mut news = {
            let lists = self.shared_lists();
            let slices = [lists.0, lists.1, lists.2, lists.3, lists.4];
            proof {
                lemma_shared(*self, slices@);
            }
            assign_names(&slices, supply)
        };
        self.esx.new = esx;
        if let Some(new) = news.pop() {
            self.qbcore.new = new;
        }
        if let Some(new) = news.pop() {
            self.oxlib.new = new;
        }
        if let Some(new) = news.pop() {
            self.client.new = new;
        }
        if let Some(new) = news.pop() {
            self.net.new = new;
        }
        if let Some(new) = news.pop() {
            self.server.new = new;
        }
        proof {
            assert(self@ =~= with_replacements(old(self)@, views(supply@), given));
        }
    }

    /// The lists of the names that share their replacements.
    fn shared_lists(&self) -> (r: (
        &Vec<String>,
        &Vec<String>,
        &Vec<String>,
        &Vec<String>,
        &Vec<String>,
    ))
        ensures
            views(r.0@) == self@.server.old.names,
            views(r.1@) == self@.net.old.names,
            views(r.2@) == self@.client.old.names,
            views(r.3@) == self@.oxlib.old.names,
            views(r.4@) == self@.qbcore.old.names,
    {
        (
            self.server.old.names(),
            self.net.old.names(),
            self.client.old.names(),
            self.oxlib.old.names(),
            self.qbcore.old.names(),
        )
    }

    /// Draws random UUIDs and replaces the names by them.
    pub fn generate_random_matching_events(&mut self)
        requires
            old(self).wf(),
        ensures
            final(self).wf(),
            exists|supply: Seq<Seq<char>>, esx: Seq<Seq<char>>|
                {
                    &&& all_uuids(supply)
                    &&& all_uuids(esx)
                    &&& supply.len() == first_seen(shared_names(old(self)@)).len()
                    &&& esx.len() == old(self)@.esx.old.names.len()
                    &&& final(self).drawn() == old(self).drawn() + supply + esx
                    &&& final(self)@ == #[trigger] with_replacements(old(self)@, supply, esx)
                },
    {
        let mut uuids = UuidSource::new();
        std::mem::swap(&mut uuids, &mut self.uuids);
        let supply = {
            let lists = self.shared_lists();
            let slices = [lists.0, lists.1, lists.2, lists.3, lists.4];
            proof {
                lemma_shared(*self, slices@);
            }
            draw_supply(&mut uuids, &slices)
        };
        let n: usize = self.esx.old.names().len();
        let esx = draw_uuids(&mut uuids, n);
        self.uuids = uuids;
        let ghost given = views(esx@);
        self.replace_events(&supply, esx);
        assert(self@ == with_replacements(old(self)@, views(supply@), given));
    }

    /// Puts the names of system resources behind the others, each to be replaced by itself.
    pub fn generate_matching_system_events(&mut self)
        requires
            old(self).wf(),
        ensures
            final(self).wf(),
            final(self)@ == with_system_fixed(old(self)@),
            final(self).drawn() == old(self).drawn(),
    {
        self.server.fix(self.system_server.names());
        self.net.fix(self.system_net.names());
        self.client.fix(self.system_client.names());
        self.oxlib.fix(self.system_oxlib.names());
        assert(self@ =~= with_system_fixed(old(self)@));
    }

    /// Gathers the names in the scripts: first those of system resources, then the others.
    pub fn load_events(
        &mut self,
        server_codes: &Vec<Option<Vec<u8>>>,
        client_codes: &Vec<Option<Vec<u8>>>,
    )
        requires
            old(self).wf(),
            old(self)@.server_scripts.len() == server_codes@.len(),
            old(self)@.client_scripts.len() == client_codes@.len(),
        ensures
            final(self).wf(),
            final(self)@ == loaded(old(self)@, texts(server_codes@), texts(client_codes@)),
            final(self).drawn() == old(self).drawn(),
    {
        self.load_system_server_events(server_codes);
        self.load_system_client_events(client_codes);
        self.load_custom_server_events(server_codes);
        self.load_custom_client_events(client_codes);
    }

    /// Replaces the names by random UUIDs, and those of system resources by themselves.
    pub fn generate_events(&mut self)
        requires
            old(self).wf(),
        ensures
            final(self).wf(),
            is_finished(old(self)@, old(self).drawn(), final(self)@, final(self).drawn()),
    {
        self.generate_random_matching_events();
        let ghost (supply, esx) = choose|supply: Seq<Seq<char>>, esx: Seq<Seq<char>>|
            {
                &&& all_uuids(supply)
                &&& all_uuids(esx)
                &&& supply.len() == first_seen(shared_names(old(self)@)).len()
                &&& esx.len() == old(self)@.esx.old.names.len()
                &&& self.drawn() == old(self).drawn() + supply + esx
                &&& self@ == #[trigger] with_replacements(old(self)@, supply, esx)
            };
        self.generate_matching_system_events();
        assert(self@ == finished(old(self)@, supply, esx));
    }

    /// Everything between reading the scripts and writing them: gathers the names and replaces
    /// them.
    pub fn scramble(
        &mut self,
        server_codes: &Vec<Option<Vec<u8>>>,
        client_codes: &Vec<Option<Vec<u8>>>,
    )
        requires
            old(self).wf(),
            old(self)@.server_scripts.len() == server_codes@.len(),
            old(self)@.client_scripts.len() == client_codes@.len(),
        ensures
            final(self).wf(),
            is_finished(
                loaded(old(self)@, texts(server_codes@), texts(client_codes@)),
                old(self).drawn(),
                final(self)@,
                final(self).drawn(),
            ),
    {
        self.load_events(server_codes, client_codes);
        self.generate_events();
    }

    /// Makes a writer for the scripts, and lists the scripts in the order in which they are to be
    /// rewritten.
    pub fn write_scripts(&self) -> (r: (ScriptWriter, Vec<ScriptTask>))
        ensures
            r.0.wf(),
            r.0.state() == self@,
            views(r.1@) == all_tasks(self@),
            r.1@.len() == self@.server_scripts.len() + self@.client_scripts.len(),
            forall|i: int|
                0 <= i < self@.server_scripts.len() ==> (#[trigger] r.1@[i]).server
                    && r.1@[i].path@ == self@.server_scripts[i],
            forall|i: int|
                self@.server_scripts.len() <= i < r.1@.len() ==> !(#[trigger] r.1@[i]).server
                    && r.1@[i].path@ == self@.client_scripts[i - self@.server_scripts.len()],
    {
        let writer = ScriptWriter::new(
            self.server.map(),
            self.net.map(),
            self.client.map(),
            self.esx.map(),
            self.oxlib.map(),
            self.qbcore.map(),
            Ghost(self@),
        );
        let mut tasks: Vec<ScriptTask> = Vec::new();
        assert(views(tasks@) =~= Seq::<Task>::empty());
        add_tasks(&mut tasks, &self.server_scripts, true);
        add_tasks(&mut tasks, &self.client_scripts, false);
        assert(views(tasks@) =~= all_tasks(self@));
        proof {
            law_every_script_is_rewritten(self@);
            law_views(tasks@);
            assert forall|i: int| 0 <= i < tasks@.len() implies (#[trigger] tasks@[i])@
                == all_tasks(self@)[i] by {
                assert(views(tasks@)[i] == tasks@[i]@);
            }
        }
        (writer, tasks)
    }

    /// Makes the table of the names that were replaced.
    pub fn write_events_table(&self) -> (r: EventsTable)
        requires
            self@.target is Some,
            matched(self@),
        ensures
            is_events_table(r, self@, self@.target->0),
    {
        let target: &[u8] = self.target_path();
        EventsTable {
            path: join(target, "scrambler-events.json".as_bytes()),
            server: changed_pairs(self.server.old.names(), &self.server.new),
            net: changed_pairs(self.net.old.names(), &self.net.new),
            client: changed_pairs(self.client.old.names(), &self.client.new),
        }
    }

    /// Makes the detector, with a random event by which its client script reports.
    pub fn write_cheat_detector(&self) -> (r: CheatDetector)
        requires
            self@.target is Some,
            self@.server.old.names.len() <= self@.server.new.len(),
        ensures
            exists|uid: Seq<char>|
                is_uuid(uid) && #[trigger] is_detector(r, self@, self@.target->0, uid),
    {
        let mut source = UuidSource::new();
        let uid = source.unique_uuid();
        self.cheat_detector(uid.as_str())
    }

    /// Makes the detector. Its client script reports by the event `uid`.
    pub fn cheat_detector(&self, uid: &str) -> (r: CheatDetector)
        requires
            self@.target is Some,
            self@.server.old.names.len() <= self@.server.new.len(),
        ensures
            is_detector(r, self@, self@.target->0, uid@),
    {
        let server = find_watched(
            self.server.old.names(),
            &self.server.new,
            self.system_server.names(),
        );
        let net = find_watched(self.net.old.names(), &self.net.new, self.system_net.names());
        let client = find_watched(
            self.client.old.names(),
            &self.server.new,
            self.system_client.names(),
        );
        make_detector(self.target_path(), &merge_names(&server, &net), &client, uid)
    }

    fn target_path(&self) -> (r: &[u8])
        requires
            self@.target is Some,
        ensures
            r@ == self@.target->0,
    {
        match &self.target_directory {
            Some(path) => path.as_slice(),
            None => &[],
        }
    }

    /// The directory that holds the resources, once it is known.
    pub fn target_directory(&self) -> (r: Option<&Vec<u8>>)
        ensures
            match r {
                Some(path) => self@.target == Some(path@),
                None => self@.target is None,
            },
    {
        match &self.target_directory {
            Some(path) => Some(path),
            None => None,
        }
    }

    /// Whether every name has something that takes its place.
    pub fn is_matched(&self) -> (r: bool)
        ensures
            r == matched(self@),
    {
        self.server.old.names().len() <= self.server.new.len() && self.net.old.names().len()
            <= self.net.new.len() && self.client.old.names().len() <= self.client.new.len()
    }

    /// Whether every server event has something that takes its place.
    pub fn is_server_matched(&self) -> (r: bool)
        ensures
            r == (self@.server.old.names.len() <= self@.server.new.len()),
    {
        self.server.old.names().len() <= self.server.new.len()
    }

    /// The scripts of the server, in order.
    pub fn server_scripts(&self) -> (r: &Vec<Vec<u8>>)
        ensures
            views(r@) == self@.server_scripts,
    {
        &self.server_scripts
    }

    /// The scripts of the client, in order.
    pub fn client_scripts(&self) -> (r: &Vec<Vec<u8>>)
        ensures
            views(r@) == self@.client_scripts,
    {
        &self.client_scripts
    }

    /// The directories of the resources, in order.
    pub fn directories(&self) -> (r: &Vec<Vec<u8>>)
        ensures
            views(r@) == self@.directories,
    {
        &self.directories
    }
}

/// `end` comes from `s` by replacing the names with UUIDs, as many as are needed, and those of
/// system resources with themselves. Each of the UUIDs was drawn for it: `after` is what had been
/// drawn `before`, and these.
pub open spec fn is_finished(
    s: State,
    before: Seq<Seq<char>>,
    end: State,
    after: Seq<Seq<char>>,
) -> bool {
    exists|supply: Seq<Seq<char>>, esx: Seq<Seq<char>>|
        {
            &&& all_uuids(supply)
            &&& all_uuids(esx)
            &&& supply.len() == first_seen(shared_names(s)).len()
            &&& esx.len() == s.esx.old.names.len()
            &&& after == before + supply + esx
            &&& end == #[trigger] finished(s, supply, esx)
        }
}

proof fn lemma_shared(scrambler: ResourceScrambler, lists: Seq<&Vec<String>>)
    requires
        lists.len() == 5,
        views(lists[0]@) == scrambler@.server.old.names,
        views(lists[1]@) == scrambler@.net.old.names,
        views(lists[2]@) == scrambler@.client.old.names,
        views(lists[3]@) == scrambler@.oxlib.old.names,
        views(lists[4]@) == scrambler@.qbcore.old.names,
    ensures
        concat(contents(lists)) == shared_names(scrambler@),
{
    let s = scrambler@;
    assert(contents(lists) =~= seq![
        s.server.old.names,
        s.net.old.names,
        s.client.old.names,
        s.oxlib.old.names,
        s.qbcore.old.names,
    ]);
}

/// Puts names into a set.
fn insert_all(set: &mut StringHashSet, names: &Vec<String>)
    ensures
        forall|name: Seq<char>| #[trigger]
            final(set)@.contains(name) <==> old(set)@.contains(name) || views(names@).contains(
                name,
            ),
{
    let ghost all = views(names@);
    let mut i: usize = 0;
    while i < names.len()
        invariant
            all == views(names@),
            i <= names.len(),
            forall|name: Seq<char>| #[trigger]
                set@.contains(name) <==> old(set)@.contains(name) || all.take(i as int).contains(
                    name,
                ),
        decreases names.len() - i,
    {
        let ghost before = set@;
        set.insert(names[i].clone());
        proof {
            let front = all.take(i as int);
            let more = all.take(i + 1);
            assert(more =~= front.push(names@[i as int]@));
            assert forall|name: Seq<char>| #[trigger] set@.contains(name) <==> old(set)@.contains(
                name,
            ) || more.contains(name) by {
                if front.contains(name) {
                    let k = choose|k: int| 0 <= k < front.len() && front[k] == name;
                    assert(more[k] == name);
                }
                if more.contains(name) {
                    let k = choose|k: int| 0 <= k < more.len() && more[k] == name;
                    if k < i {
                        assert(front[k] == name);
                    }
                }
                assert(more[i as int] == names@[i as int]@);
                assert(before.contains(name) <==> old(set)@.contains(name) || front.contains(name));
            }
        }
        i += 1;
    }
    assert(all.take(i as int) =~= all);
}

/// The directory in which a manifest lies.
pub open spec fn home_of(path: Seq<u8>) -> Seq<u8> {
    match parent(path) {
        Some(dir) => dir,
        None => Seq::empty(),
    }
}

/// `paths` are where the scripts should lie that a table of the manifest at `path` lists.
pub open spec fn are_candidates(
    directories: Seq<Seq<u8>>,
    path: Seq<u8>,
    table: Option<Vec<Option<LuaEntry>>>,
    paths: Seq<Seq<u8>>,
) -> bool {
    exists|scripts: Seq<Seq<char>>| #[trigger]
        lists(table, scripts) && paths == candidates(directories, home_of(path), scripts)
}

} // verus!
