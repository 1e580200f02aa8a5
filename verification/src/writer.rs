//! Writing of scripts: which scripts are rewritten, in which order, and what becomes of each.
use crate::calls::{call_pattern, call_regex, CallRegex};
use crate::events::lemma_func_lengths;
use crate::passes::{rewritten_all, Pass};
use crate::rewrite::{mapping, mappings, paired, rewrite, NameMap};
use crate::state::{Bucket, State};
use crate::text::{copy_bytes, views};
use vstd::prelude::*;

verus! {

/// The sorts of names.
pub enum Sort {
    Server,
    Net,
    Client,
    Esx,
    Oxlib,
    Qbcore,
}

/// The names of a sort.
pub open spec fn bucket_of(s: State, sort: Sort) -> Bucket {
    match sort {
        Sort::Server => s.server,
        Sort::Net => s.net,
        Sort::Client => s.client,
        Sort::Esx => s.esx,
        Sort::Oxlib => s.oxlib,
        Sort::Qbcore => s.qbcore,
    }
}

/// The mapping from the names of a bucket to their replacements.
pub open spec fn bucket_map(bucket: Bucket) -> Map<Seq<char>, Seq<char>> {
    paired(bucket.old.names, bucket.new)
}

/// The functions whose calls are rewritten in a server script, in order, and the sorts of names
/// that are looked up. Of a name that is both a server and a net event, the server event counts.
pub open spec fn server_calls() -> Seq<(Seq<char>, Seq<Sort>)> {
    seq![
        ("RegisterServerEvent"@, seq![Sort::Server]),
        ("RegisterNetEvent"@, seq![Sort::Net]),
        ("AddEventHandler"@, seq![Sort::Server, Sort::Net]),
        ("TriggerEvent"@, seq![Sort::Server, Sort::Net]),
        ("TriggerClientEvent"@, seq![Sort::Net]),
        ("ESX.RegisterServerCallback"@, seq![Sort::Esx]),
        ("lib.callback.register"@, seq![Sort::Oxlib]),
        ("lib.callback.await"@, seq![Sort::Oxlib]),
        ("lib.callback"@, seq![Sort::Oxlib]),
        ("QBCore.Functions.CreateCallback"@, seq![Sort::Qbcore]),
    ]
}

/// The same for a client script. Of a name that is both a net and a client event, the net event
/// counts. A server may register an event as a net event alone, which is why triggering on the
/// server looks for both.
pub open spec fn client_calls() -> Seq<(Seq<char>, Seq<Sort>)> {
    seq![
        ("TriggerServerEvent"@, seq![Sort::Server, Sort::Net]),
        ("RegisterNetEvent"@, seq![Sort::Net]),
        ("AddEventHandler"@, seq![Sort::Net, Sort::Client]),
        ("TriggerEvent"@, seq![Sort::Net, Sort::Client]),
        ("ESX.TriggerServerCallback"@, seq![Sort::Esx]),
        ("lib.callback.register"@, seq![Sort::Oxlib]),
        ("lib.callback.await"@, seq![Sort::Oxlib]),
        ("lib.callback"@, seq![Sort::Oxlib]),
        ("QBCore.Functions.TriggerCallback"@, seq![Sort::Qbcore]),
    ]
}

/// The same for a script of one side.
pub open spec fn side_calls(server: bool) -> Seq<(Seq<char>, Seq<Sort>)> {
    if server {
        server_calls()
    } else {
        client_calls()
    }
}

/// The mappings for some sorts of names.
pub open spec fn sort_maps(s: State, sorts: Seq<Sort>) -> Seq<Map<Seq<char>, Seq<char>>> {
    Seq::new(sorts.len(), |i: int| bucket_map(bucket_of(s, sorts[i])))
}

/// The passes over a script of one side.
pub open spec fn script_passes(s: State, server: bool) -> Seq<Pass> {
    Seq::new(
        side_calls(server).len(),
        |k: int|
            Pass { func: side_calls(server)[k].0, maps: sort_maps(s, side_calls(server)[k].1) },
    )
}

/// What becomes of a script.
pub open spec fn scrambled(s: State, server: bool, code: Seq<u8>) -> Seq<u8> {
    rewritten_all(script_passes(s, server), code)
}

/// A script that is to be rewritten: where it lies, and which one of how many of its side it is,
/// counted from one.
pub struct Task {
    pub server: bool,
    pub path: Seq<u8>,
    pub index: int,
    pub total: int,
}

/// The scripts of one side that are to be rewritten.
pub open spec fn side_tasks(paths: Seq<Seq<u8>>, server: bool) -> Seq<Task> {
    Seq::new(
        paths.len(),
        |i: int| Task { server, path: paths[i], index: i + 1, total: paths.len() as int },
    )
}

/// All scripts that are to be rewritten, in order.
pub open spec fn all_tasks(s: State) -> Seq<Task> {
    side_tasks(s.server_scripts, true) + side_tasks(s.client_scripts, false)
}

/// A script that is to be rewritten.
#[derive(Debug)]
pub struct ScriptTask {
    pub server: bool,
    pub path: Vec<u8>,
    pub index: usize,
    pub total: usize,
}

impl View for ScriptTask {
    type V = Task;

    open spec fn view(&self) -> Task {
        Task {
            server: self.server,
            path: self.path@,
            index: self.index as int,
            total: self.total as int,
        }
    }
}

/// Puts the scripts of one side behind the others.
pub(crate) fn add_tasks(tasks: &mut Vec<ScriptTask>, paths: &Vec<Vec<u8>>, server: bool)
    ensures
        views(final(tasks)@) == views(old(tasks)@) + side_tasks(views(paths@), server),
{
    let ghost all = side_tasks(views(paths@), server);
    let total: usize = paths.len();
    let mut i: usize = 0;
    assert(views(tasks@) + all.take(0) =~= views(tasks@));
    while i < paths.len()
        invariant
            all == side_tasks(views(paths@), server),
            total == paths.len(),
            i <= paths.len(),
            views(tasks@) == views(old(tasks)@) + all.take(i as int),
        decreases paths.len() - i,
    {
        let ghost before = views(tasks@);
        let task = ScriptTask { server, path: copy_bytes(paths[i].as_slice()), index: i + 1, total };
        assert(task@ == all[i as int]);
        tasks.push(task);
        assert(views(tasks@) =~= before.push(task@));
        assert(all.take(i + 1) =~= all.take(i as int).push(task@));
        i += 1;
    }
    assert(all.take(i as int) =~= all);
}

/// One pass: the expression that finds the calls, and the tables that names are looked up in.
struct ScriptPass<'a> {
    re: &'a CallRegex,
    lookups: Vec<&'a NameMap>,
}

impl<'a> View for ScriptPass<'a> {
    type V = Pass;

    closed spec fn view(&self) -> Pass {
        Pass { func: self.re.func@, maps: mappings(self.lookups@) }
    }
}

impl<'a> ScriptPass<'a> {
    fn one(re: &'a CallRegex, map: &'a NameMap) -> (r: Self)
        requires
            re.wf(),
        ensures
            r.re.wf(),
            r@ == (Pass { func: re.func@, maps: seq![mapping(map@)] }),
    {
        let r = ScriptPass { re, lookups: vec![map] };
        assert(mappings(r.lookups@) =~= seq![mapping(map@)]);
        r
    }

    fn two(re: &'a CallRegex, first: &'a NameMap, second: &'a NameMap) -> (r: Self)
        requires
            re.wf(),
        ensures
            r.re.wf(),
            r@ == (Pass { func: re.func@, maps: seq![mapping(first@), mapping(second@)] }),
    {
        let r = ScriptPass { re, lookups: vec![first, second] };
        assert(mappings(r.lookups@) =~= seq![mapping(first@), mapping(second@)]);
        r
    }
}

/// `re` is the expression that finds the calls of `func` whose name is to be replaced.
pub open spec fn finds(re: CallRegex, func: Seq<char>) -> bool {
    re.wf() && re.func@ == func && re.pattern@ == call_pattern(func)
}

/// Rewrites scripts. The tables and the texts of the expressions are made once; an expression is
/// compiled where it is used.
pub struct ScriptWriter {
    state: Ghost<State>,
    server: NameMap,
    net: NameMap,
    client: NameMap,
    esx: NameMap,
    oxlib: NameMap,
    qbcore: NameMap,
    register_server_event: CallRegex,
    register_net_event: CallRegex,
    add_event_handler: CallRegex,
    trigger_event: CallRegex,
    trigger_client_event: CallRegex,
    esx_register_callback: CallRegex,
    oxlib_callback_register: CallRegex,
    oxlib_callback_await: CallRegex,
    oxlib_callback: CallRegex,
    qbcore_create_callback: CallRegex,
    trigger_server_event: CallRegex,
    esx_trigger_callback: CallRegex,
    qbcore_trigger_callback: CallRegex,
}

impl ScriptWriter {
    /// What the scrambler knew that this writer comes from.
    pub closed spec fn state(&self) -> State {
        self.state@
    }

    /// The expressions find the calls of the functions that they are named after, and the tables
    /// hold the names and replacements of the state.
    pub closed spec fn wf(&self) -> bool {
        let s = self.state@;
        &&& mapping(self.server@) == bucket_map(s.server)
        &&& mapping(self.net@) == bucket_map(s.net)
        &&& mapping(self.client@) == bucket_map(s.client)
        &&& mapping(self.esx@) == bucket_map(s.esx)
        &&& mapping(self.oxlib@) == bucket_map(s.oxlib)
        &&& mapping(self.qbcore@) == bucket_map(s.qbcore)
        &&& finds(self.register_server_event, "RegisterServerEvent"@)
        &&& finds(self.register_net_event, "RegisterNetEvent"@)
        &&& finds(self.add_event_handler, "AddEventHandler"@)
        &&& finds(self.trigger_event, "TriggerEvent"@)
        &&& finds(self.trigger_client_event, "TriggerClientEvent"@)
        &&& finds(self.esx_register_callback, "ESX.RegisterServerCallback"@)
        &&& finds(self.oxlib_callback_register, "lib.callback.register"@)
        &&& finds(self.oxlib_callback_await, "lib.callback.await"@)
        &&& finds(self.oxlib_callback, "lib.callback"@)
        &&& finds(self.qbcore_create_callback, "QBCore.Functions.CreateCallback"@)
        &&& finds(self.trigger_server_event, "TriggerServerEvent"@)
        &&& finds(self.esx_trigger_callback, "ESX.TriggerServerCallback"@)
        &&& finds(self.qbcore_trigger_callback, "QBCore.Functions.TriggerCallback"@)
    }

    /// A writer with the given tables.
    pub(crate) fn new(
        server: NameMap,
        net: NameMap,
        client: NameMap,
        esx: NameMap,
        oxlib: NameMap,
        qbcore: NameMap,
        Ghost(s): Ghost<State>,
    ) -> (r: Self)
        requires
            mapping(server@) == bucket_map(s.server),
            mapping(net@) == bucket_map(s.net),
            mapping(client@) == bucket_map(s.client),
            mapping(esx@) == bucket_map(s.esx),
            mapping(oxlib@) == bucket_map(s.oxlib),
            mapping(qbcore@) == bucket_map(s.qbcore),
        ensures
            r.wf(),
            r.state() == s,
    {
        proof {
            lemma_func_lengths();
        }
        ScriptWriter {
            state: Ghost(s),
            server,
            net,
            client,
            esx,
            oxlib,
            qbcore,
            register_server_event: call_regex("RegisterServerEvent"),
            register_net_event: call_regex("RegisterNetEvent"),
            add_event_handler: call_regex("AddEventHandler"),
            trigger_event: call_regex("TriggerEvent"),
            trigger_client_event: call_regex("TriggerClientEvent"),
            esx_register_callback: call_regex("ESX.RegisterServerCallback"),
            oxlib_callback_register: call_regex("lib.callback.register"),
            oxlib_callback_await: call_regex("lib.callback.await"),
            oxlib_callback: call_regex("lib.callback"),
            qbcore_create_callback: call_regex("QBCore.Functions.CreateCallback"),
            trigger_server_event: call_regex("TriggerServerEvent"),
            esx_trigger_callback: call_regex("ESX.TriggerServerCallback"),
            qbcore_trigger_callback: call_regex("QBCore.Functions.TriggerCallback"),
        }
    }

    fn server_script_passes(&self) -> (r: Vec<ScriptPass<'_>>)
        requires
            self.wf(),
        ensures
            views(r@) == script_passes(self.state(), true),
            forall|i: int| 0 <= i < r@.len() ==> (#[trigger] r@[i]).re.wf(),
    {
        let r: Vec<ScriptPass<'_>> = vec![
            ScriptPass::one(&self.register_server_event, &self.server),
            ScriptPass::one(&self.register_net_event, &self.net),
            ScriptPass::two(&self.add_event_handler, &self.server, &self.net),
            ScriptPass::two(&self.trigger_event, &self.server, &self.net),
            ScriptPass::one(&self.trigger_client_event, &self.net),
            ScriptPass::one(&self.esx_register_callback, &self.esx),
            ScriptPass::one(&self.oxlib_callback_register, &self.oxlib),
            ScriptPass::one(&self.oxlib_callback_await, &self.oxlib),
            ScriptPass::one(&self.oxlib_callback, &self.oxlib),
            ScriptPass::one(&self.qbcore_create_callback, &self.qbcore),
        ];
        assert(views(r@) =~~= script_passes(self.state(), true));
        r
    }

    fn client_script_passes(&self) -> (r: Vec<ScriptPass<'_>>)
        requires
            self.wf(),
        ensures
            views(r@) == script_passes(self.state(), false),
            forall|i: int| 0 <= i < r@.len() ==> (#[trigger] r@[i]).re.wf(),
    {
        let r: Vec<ScriptPass<'_>> = vec![
            ScriptPass::two(&self.trigger_server_event, &self.server, &self.net),
            ScriptPass::one(&self.register_net_event, &self.net),
            ScriptPass::two(&self.add_event_handler, &self.net, &self.client),
            ScriptPass::two(&self.trigger_event, &self.net, &self.client),
            ScriptPass::one(&self.esx_trigger_callback, &self.esx),
            ScriptPass::one(&self.oxlib_callback_register, &self.oxlib),
            ScriptPass::one(&self.oxlib_callback_await, &self.oxlib),
            ScriptPass::one(&self.oxlib_callback, &self.oxlib),
            ScriptPass::one(&self.qbcore_trigger_callback, &self.qbcore),
        ];
        assert(views(r@) =~~= script_passes(self.state(), false));
        r
    }

    /// What becomes of a script of one side.
    pub fn rewrite_script(&self, code: &[u8], server: bool) -> (r: Vec<u8>)
        requires
            self.wf(),
        ensures
            r@ == scrambled(self.state(), server, code@),
    {
        let passes = if server {
            self.server_script_passes()
        } else {
            self.client_script_passes()
        };
        let ghost all = views(passes@);
        let mut r: Vec<u8> = copy_bytes(code);
        let mut i: usize = 0;
        assert(all.take(0) =~= Seq::empty());
        while i < passes.len()
            invariant
                all == views(passes@),
                forall|i: int| 0 <= i < passes@.len() ==> (#[trigger] passes@[i]).re.wf(),
                i <= passes.len(),
                r@ == rewritten_all(all.take(i as int), code@),
            decreases passes.len() - i,
        {
            let pass = &passes[i];
            proof {
                assert(all.take(i + 1).drop_last() =~= all.take(i as int));
                assert(all.take(i + 1).last() == pass@);
            }
            r = rewrite(r.as_slice(), pass.re, pass.lookups.as_slice());
            i += 1;
        }
        assert(all.take(i as int) =~= all);
        r
    }
}

} // verus!
