//! What holds of scripts function by function: at the calls of which functions names are replaced,
//! and by what.
use crate::calls::names_in;
use crate::gathering_laws::prepared;
use crate::names::position;
use crate::passes::{rewritten_all, separate, Pass};
use crate::replacement::replacement;
use crate::rewrite::{paired, rewritten};
use crate::scrambling_laws::{in_scope, law_script_renamed, side_funcs, supplied};
use crate::state::{finished, shared_names, State};
use crate::uuids::all_uuids;
use crate::writer::{bucket_of, scrambled, script_passes, side_calls, Sort};
use vstd::prelude::*;

verus! {

/// Passes are made one after the other, each over what came of those before.
pub proof fn law_passes_follow(passes: Seq<Pass>, code: Seq<u8>)
    ensures
        rewritten_all(passes, code) == passes.fold_left(
            code,
            |before: Seq<u8>, pass: Pass| rewritten(pass.func, before, pass.maps),
        ),
    decreases passes.len(),
{
    if passes.len() > 0 {
        law_passes_follow(passes.drop_last(), code);
    }
}

proof fn lemma_pass(passes: Seq<Pass>, k: int, code: Seq<u8>)
    requires
        0 <= k < passes.len(),
    ensures
        rewritten_all(passes.take(0), code) == code,
        rewritten_all(passes.take(k + 1), code) == rewritten(
            passes[k].func,
            rewritten_all(passes.take(k), code),
            passes[k].maps,
        ),
{
    assert(passes.take(k + 1).drop_last() =~= passes.take(k));
    assert(passes.take(k + 1).last() == passes[k]);
}

/// A script of the server is rewritten function by function. The names at the calls of each are
/// looked up among the names of its sort; of two sorts the first that knows a name counts.
pub proof fn law_server_script_passes(s: State, code: Seq<u8>)
    ensures
        ({
            let server = paired(s.server.old.names, s.server.new);
            let net = paired(s.net.old.names, s.net.new);
            let esx = paired(s.esx.old.names, s.esx.new);
            let oxlib = paired(s.oxlib.old.names, s.oxlib.new);
            let qbcore = paired(s.qbcore.old.names, s.qbcore.new);
            let c0 = rewritten("RegisterServerEvent"@, code, seq![server]);
            let c1 = rewritten("RegisterNetEvent"@, c0, seq![net]);
            let c2 = rewritten("AddEventHandler"@, c1, seq![server, net]);
            let c3 = rewritten("TriggerEvent"@, c2, seq![server, net]);
            let c4 = rewritten("TriggerClientEvent"@, c3, seq![net]);
            let c5 = rewritten("ESX.RegisterServerCallback"@, c4, seq![esx]);
            let c6 = rewritten("lib.callback.register"@, c5, seq![oxlib]);
            let c7 = rewritten("lib.callback.await"@, c6, seq![oxlib]);
            let c8 = rewritten("lib.callback"@, c7, seq![oxlib]);
            let c9 = rewritten("QBCore.Functions.CreateCallback"@, c8, seq![qbcore]);
            scrambled(s, true, code) == c9
        }),
{
    let passes = script_passes(s, true);
    let server = paired(s.server.old.names, s.server.new);
    let net = paired(s.net.old.names, s.net.new);
    let esx = paired(s.esx.old.names, s.esx.new);
    let oxlib = paired(s.oxlib.old.names, s.oxlib.new);
    let qbcore = paired(s.qbcore.old.names, s.qbcore.new);
    lemma_pass(passes, 0, code);
    assert(passes[0].maps =~= seq![server]);
    lemma_pass(passes, 1, code);
    assert(passes[1].maps =~= seq![net]);
    lemma_pass(passes, 2, code);
    assert(passes[2].maps =~= seq![server, net]);
    lemma_pass(passes, 3, code);
    assert(passes[3].maps =~= seq![server, net]);
    lemma_pass(passes, 4, code);
    assert(passes[4].maps =~= seq![net]);
    lemma_pass(passes, 5, code);
    assert(passes[5].maps =~= seq![esx]);
    lemma_pass(passes, 6, code);
    assert(passes[6].maps =~= seq![oxlib]);
    lemma_pass(passes, 7, code);
    assert(passes[7].maps =~= seq![oxlib]);
    lemma_pass(passes, 8, code);
    assert(passes[8].maps =~= seq![oxlib]);
    lemma_pass(passes, 9, code);
    assert(passes[9].maps =~= seq![qbcore]);
    assert(passes.take(10) =~= passes);
}

/// In a rewritten script of the server, `RegisterServerEvent` is called as before, with new names
/// in the place of those of server events.
pub proof fn law_server_register_server_event(
    s: State,
    supply: Seq<Seq<char>>,
    esx: Seq<Seq<char>>,
    code: Seq<u8>,
)
    requires
        prepared(s),
        supplied(s, supply, esx),
        all_uuids(supply),
        all_uuids(esx),
        separate(side_funcs(true), code),
    ensures
        ({
            let func = "RegisterServerEvent"@;
            let out = scrambled(finished(s, supply, esx), true, code);
            names_in(func, out) == names_in(func, code).map_values(
                |name: Seq<char>|
                    if s.server.old.names.contains(name) {
                        replacement(shared_names(s), supply, name)
                    } else {
                        name
                    },
            )
        }),
{
    let func = "RegisterServerEvent"@;
    let out = scrambled(finished(s, supply, esx), true, code);
    let new = |name: Seq<char>|
        if s.server.old.names.contains(name) {
            replacement(shared_names(s), supply, name)
        } else {
            name
        };
    law_script_renamed(s, supply, esx, true, code, 0);
    let sorts = side_calls(true)[0].1;
    let names = names_in(func, code);
    assert forall|name: Seq<char>| in_scope(s, sorts, name) <==> {
        ||| s.server.old.names.contains(name)
    } by {
        lemma_scope_one(s, Sort::Server, name);
    }
    assert(names_in(func, out) =~= names.map_values(new));
}

/// In a rewritten script of the server, `RegisterNetEvent` is called as before, with new names in
/// the place of those of net events.
pub proof fn law_server_register_net_event(
    s: State,
    supply: Seq<Seq<char>>,
    esx: Seq<Seq<char>>,
    code: Seq<u8>,
)
    requires
        prepared(s),
        supplied(s, supply, esx),
        all_uuids(supply),
        all_uuids(esx),
        separate(side_funcs(true), code),
    ensures
        ({
            let func = "RegisterNetEvent"@;
            let out = scrambled(finished(s, supply, esx), true, code);
            names_in(func, out) == names_in(func, code).map_values(
                |name: Seq<char>|
                    if s.net.old.names.contains(name) {
                        replacement(shared_names(s), supply, name)
                    } else {
                        name
                    },
            )
        }),
{
    let func = "RegisterNetEvent"@;
    let out = scrambled(finished(s, supply, esx), true, code);
    let new = |name: Seq<char>|
        if s.net.old.names.contains(name) {
            replacement(shared_names(s), supply, name)
        } else {
            name
        };
    law_script_renamed(s, supply, esx, true, code, 1);
    let sorts = side_calls(true)[1].1;
    let names = names_in(func, code);
    assert forall|name: Seq<char>| in_scope(s, sorts, name) <==> {
        ||| s.net.old.names.contains(name)
    } by {
        lemma_scope_one(s, Sort::Net, name);
    }
    assert(names_in(func, out) =~= names.map_values(new));
}

/// In a rewritten script of the server, `AddEventHandler` is called as before, with new names in
/// the place of those of server events and of net events.
pub proof fn law_server_add_event_handler(
    s: State,
    supply: Seq<Seq<char>>,
    esx: Seq<Seq<char>>,
    code: Seq<u8>,
)
    requires
        prepared(s),
        supplied(s, supply, esx),
        all_uuids(supply),
        all_uuids(esx),
        separate(side_funcs(true), code),
    ensures
        ({
            let func = "AddEventHandler"@;
            let out = scrambled(finished(s, supply, esx), true, code);
            names_in(func, out) == names_in(func, code).map_values(
                |name: Seq<char>|
                    if s.server.old.names.contains(name) || s.net.old.names.contains(name) {
                        replacement(shared_names(s), supply, name)
                    } else {
                        name
                    },
            )
        }),
{
    let func = "AddEventHandler"@;
    let out = scrambled(finished(s, supply, esx), true, code);
    let new = |name: Seq<char>|
        if s.server.old.names.contains(name) || s.net.old.names.contains(name) {
            replacement(shared_names(s), supply, name)
        } else {
            name
        };
    law_script_renamed(s, supply, esx, true, code, 2);
    let sorts = side_calls(true)[2].1;
    let names = names_in(func, code);
    assert forall|name: Seq<char>| in_scope(s, sorts, name) <==> {
        ||| s.server.old.names.contains(name)
        ||| s.net.old.names.contains(name)
    } by {
        lemma_scope_two(s, Sort::Server, Sort::Net, name);
    }
    assert(names_in(func, out) =~= names.map_values(new));
}

/// In a rewritten script of the server, `TriggerEvent` is called as before, with new names in the
/// place of those of server events and of net events.
pub proof fn law_server_trigger_event(
    s: State,
    supply: Seq<Seq<char>>,
    esx: Seq<Seq<char>>,
    code: Seq<u8>,
)
    requires
        prepared(s),
        supplied(s, supply, esx),
        all_uuids(supply),
        all_uuids(esx),
        separate(side_funcs(true), code),
    ensures
        ({
            let func = "TriggerEvent"@;
            let out = scrambled(finished(s, supply, esx), true, code);
            names_in(func, out) == names_in(func, code).map_values(
                |name: Seq<char>|
                    if s.server.old.names.contains(name) || s.net.old.names.contains(name) {
                        replacement(shared_names(s), supply, name)
                    } else {
                        name
                    },
            )
        }),
{
    let func = "TriggerEvent"@;
    let out = scrambled(finished(s, supply, esx), true, code);
    let new = |name: Seq<char>|
        if s.server.old.names.contains(name) || s.net.old.names.contains(name) {
            replacement(shared_names(s), supply, name)
        } else {
            name
        };
    law_script_renamed(s, supply, esx, true, code, 3);
    let sorts = side_calls(true)[3].1;
    let names = names_in(func, code);
    assert forall|name: Seq<char>| in_scope(s, sorts, name) <==> {
        ||| s.server.old.names.contains(name)
        ||| s.net.old.names.contains(name)
    } by {
        lemma_scope_two(s, Sort::Server, Sort::Net, name);
    }
    assert(names_in(func, out) =~= names.map_values(new));
}

/// In a rewritten script of the server, `TriggerClientEvent` is called as before, with new names in
/// the place of those of net events.
pub proof fn law_server_trigger_client_event(
    s: State,
    supply: Seq<Seq<char>>,
    esx: Seq<Seq<char>>,
    code: Seq<u8>,
)
    requires
        prepared(s),
        supplied(s, supply, esx),
        all_uuids(supply),
        all_uuids(esx),
        separate(side_funcs(true), code),
    ensures
        ({
            let func = "TriggerClientEvent"@;
            let out = scrambled(finished(s, supply, esx), true, code);
            names_in(func, out) == names_in(func, code).map_values(
                |name: Seq<char>|
                    if s.net.old.names.contains(name) {
                        replacement(shared_names(s), supply, name)
                    } else {
                        name
                    },
            )
        }),
{
    let func = "TriggerClientEvent"@;
    let out = scrambled(finished(s, supply, esx), true, code);
    let new = |name: Seq<char>|
        if s.net.old.names.contains(name) {
            replacement(shared_names(s), supply, name)
        } else {
            name
        };
    law_script_renamed(s, supply, esx, true, code, 4);
    let sorts = side_calls(true)[4].1;
    let names = names_in(func, code);
    assert forall|name: Seq<char>| in_scope(s, sorts, name) <==> {
        ||| s.net.old.names.contains(name)
    } by {
        lemma_scope_one(s, Sort::Net, name);
    }
    assert(names_in(func, out) =~= names.map_values(new));
}

/// In a rewritten script of the server, `ESX.RegisterServerCallback` is called as before, with new
/// names in the place of those of ESX callbacks.
pub proof fn law_server_esx_register_server_callback(
    s: State,
    supply: Seq<Seq<char>>,
    esx: Seq<Seq<char>>,
    code: Seq<u8>,
)
    requires
        prepared(s),
        supplied(s, supply, esx),
        all_uuids(supply),
        all_uuids(esx),
        separate(side_funcs(true), code),
    ensures
        ({
            let func = "ESX.RegisterServerCallback"@;
            let out = scrambled(finished(s, supply, esx), true, code);
            names_in(func, out) == names_in(func, code).map_values(
                |name: Seq<char>|
                    if s.esx.old.names.contains(name) {
                        esx[position(s.esx.old.names, name)]
                    } else {
                        name
                    },
            )
        }),
{
    let func = "ESX.RegisterServerCallback"@;
    let out = scrambled(finished(s, supply, esx), true, code);
    let new = |name: Seq<char>|
        if s.esx.old.names.contains(name) {
            esx[position(s.esx.old.names, name)]
        } else {
            name
        };
    law_script_renamed(s, supply, esx, true, code, 5);
    let sorts = side_calls(true)[5].1;
    let names = names_in(func, code);
    assert forall|name: Seq<char>| in_scope(s, sorts, name) <==> {
        ||| s.esx.old.names.contains(name)
    } by {
        lemma_scope_one(s, Sort::Esx, name);
    }
    assert(names_in(func, out) =~= names.map_values(new));
}

/// In a rewritten script of the server, `lib.callback.register` is called as before, with new names
/// in the place of those of ox_lib callbacks.
pub proof fn law_server_lib_callback_register(
    s: State,
    supply: Seq<Seq<char>>,
    esx: Seq<Seq<char>>,
    code: Seq<u8>,
)
    requires
        prepared(s),
        supplied(s, supply, esx),
        all_uuids(supply),
        all_uuids(esx),
        separate(side_funcs(true), code),
    ensures
        ({
            let func = "lib.callback.register"@;
            let out = scrambled(finished(s, supply, esx), true, code);
            names_in(func, out) == names_in(func, code).map_values(
                |name: Seq<char>|
                    if s.oxlib.old.names.contains(name) {
                        replacement(shared_names(s), supply, name)
                    } else {
                        name
                    },
            )
        }),
{
    let func = "lib.callback.register"@;
    let out = scrambled(finished(s, supply, esx), true, code);
    let new = |name: Seq<char>|
        if s.oxlib.old.names.contains(name) {
            replacement(shared_names(s), supply, name)
        } else {
            name
        };
    law_script_renamed(s, supply, esx, true, code, 6);
    let sorts = side_calls(true)[6].1;
    let names = names_in(func, code);
    assert forall|name: Seq<char>| in_scope(s, sorts, name) <==> {
        ||| s.oxlib.old.names.contains(name)
    } by {
        lemma_scope_one(s, Sort::Oxlib, name);
    }
    assert(names_in(func, out) =~= names.map_values(new));
}

/// In a rewritten script of the server, `lib.callback.await` is called as before, with new names in
/// the place of those of ox_lib callbacks.
pub proof fn law_server_lib_callback_await(
    s: State,
    supply: Seq<Seq<char>>,
    esx: Seq<Seq<char>>,
    code: Seq<u8>,
)
    requires
        prepared(s),
        supplied(s, supply, esx),
        all_uuids(supply),
        all_uuids(esx),
        separate(side_funcs(true), code),
    ensures
        ({
            let func = "lib.callback.await"@;
            let out = scrambled(finished(s, supply, esx), true, code);
            names_in(func, out) == names_in(func, code).map_values(
                |name: Seq<char>|
                    if s.oxlib.old.names.contains(name) {
                        replacement(shared_names(s), supply, name)
                    } else {
                        name
                    },
            )
        }),
{
    let func = "lib.callback.await"@;
    let out = scrambled(finished(s, supply, esx), true, code);
    let new = |name: Seq<char>|
        if s.oxlib.old.names.contains(name) {
            replacement(shared_names(s), supply, name)
        } else {
            name
        };
    law_script_renamed(s, supply, esx, true, code, 7);
    let sorts = side_calls(true)[7].1;
    let names = names_in(func, code);
    assert forall|name: Seq<char>| in_scope(s, sorts, name) <==> {
        ||| s.oxlib.old.names.contains(name)
    } by {
        lemma_scope_one(s, Sort::Oxlib, name);
    }
    assert(names_in(func, out) =~= names.map_values(new));
}

/// In a rewritten script of the server, `lib.callback` is called as before, with new names in the
/// place of those of ox_lib callbacks.
pub proof fn law_server_lib_callback(
    s: State,
    supply: Seq<Seq<char>>,
    esx: Seq<Seq<char>>,
    code: Seq<u8>,
)
    requires
        prepared(s),
        supplied(s, supply, esx),
        all_uuids(supply),
        all_uuids(esx),
        separate(side_funcs(true), code),
    ensures
        ({
            let func = "lib.callback"@;
            let out = scrambled(finished(s, supply, esx), true, code);
            names_in(func, out) == names_in(func, code).map_values(
                |name: Seq<char>|
                    if s.oxlib.old.names.contains(name) {
                        replacement(shared_names(s), supply, name)
                    } else {
                        name
                    },
            )
        }),
{
    let func = "lib.callback"@;
    let out = scrambled(finished(s, supply, esx), true, code);
    let new = |name: Seq<char>|
        if s.oxlib.old.names.contains(name) {
            replacement(shared_names(s), supply, name)
        } else {
            name
        };
    law_script_renamed(s, supply, esx, true, code, 8);
    let sorts = side_calls(true)[8].1;
    let names = names_in(func, code);
    assert forall|name: Seq<char>| in_scope(s, sorts, name) <==> {
        ||| s.oxlib.old.names.contains(name)
    } by {
        lemma_scope_one(s, Sort::Oxlib, name);
    }
    assert(names_in(func, out) =~= names.map_values(new));
}

/// In a rewritten script of the server, `QBCore.Functions.CreateCallback` is called as before, with
/// new names in the place of those of QBCore callbacks.
pub proof fn law_server_qbcore_create_callback(
    s: State,
    supply: Seq<Seq<char>>,
    esx: Seq<Seq<char>>,
    code: Seq<u8>,
)
    requires
        prepared(s),
        supplied(s, supply, esx),
        all_uuids(supply),
        all_uuids(esx),
        separate(side_funcs(true), code),
    ensures
        ({
            let func = "QBCore.Functions.CreateCallback"@;
            let out = scrambled(finished(s, supply, esx), true, code);
            names_in(func, out) == names_in(func, code).map_values(
                |name: Seq<char>|
                    if s.qbcore.old.names.contains(name) {
                        replacement(shared_names(s), supply, name)
                    } else {
                        name
                    },
            )
        }),
{
    let func = "QBCore.Functions.CreateCallback"@;
    let out = scrambled(finished(s, supply, esx), true, code);
    let new = |name: Seq<char>|
        if s.qbcore.old.names.contains(name) {
            replacement(shared_names(s), supply, name)
        } else {
            name
        };
    law_script_renamed(s, supply, esx, true, code, 9);
    let sorts = side_calls(true)[9].1;
    let names = names_in(func, code);
    assert forall|name: Seq<char>| in_scope(s, sorts, name) <==> {
        ||| s.qbcore.old.names.contains(name)
    } by {
        lemma_scope_one(s, Sort::Qbcore, name);
    }
    assert(names_in(func, out) =~= names.map_values(new));
}

/// A script of the client is rewritten function by function. The names at the calls of each are
/// looked up among the names of its sort; of two sorts the first that knows a name counts.
pub proof fn law_client_script_passes(s: State, code: Seq<u8>)
    ensures
        ({
            let server = paired(s.server.old.names, s.server.new);
            let net = paired(s.net.old.names, s.net.new);
            let client = paired(s.client.old.names, s.client.new);
            let esx = paired(s.esx.old.names, s.esx.new);
            let oxlib = paired(s.oxlib.old.names, s.oxlib.new);
            let qbcore = paired(s.qbcore.old.names, s.qbcore.new);
            let c0 = rewritten("TriggerServerEvent"@, code, seq![server, net]);
            let c1 = rewritten("RegisterNetEvent"@, c0, seq![net]);
            let c2 = rewritten("AddEventHandler"@, c1, seq![net, client]);
            let c3 = rewritten("TriggerEvent"@, c2, seq![net, client]);
            let c4 = rewritten("ESX.TriggerServerCallback"@, c3, seq![esx]);
            let c5 = rewritten("lib.callback.register"@, c4, seq![oxlib]);
            let c6 = rewritten("lib.callback.await"@, c5, seq![oxlib]);
            let c7 = rewritten("lib.callback"@, c6, seq![oxlib]);
            let c8 = rewritten("QBCore.Functions.TriggerCallback"@, c7, seq![qbcore]);
            scrambled(s, false, code) == c8
        }),
{
    let passes = script_passes(s, false);
    let server = paired(s.server.old.names, s.server.new);
    let net = paired(s.net.old.names, s.net.new);
    let client = paired(s.client.old.names, s.client.new);
    let esx = paired(s.esx.old.names, s.esx.new);
    let oxlib = paired(s.oxlib.old.names, s.oxlib.new);
    let qbcore = paired(s.qbcore.old.names, s.qbcore.new);
    lemma_pass(passes, 0, code);
    assert(passes[0].maps =~= seq![server, net]);
    lemma_pass(passes, 1, code);
    assert(passes[1].maps =~= seq![net]);
    lemma_pass(passes, 2, code);
    assert(passes[2].maps =~= seq![net, client]);
    lemma_pass(passes, 3, code);
    assert(passes[3].maps =~= seq![net, client]);
    lemma_pass(passes, 4, code);
    assert(passes[4].maps =~= seq![esx]);
    lemma_pass(passes, 5, code);
    assert(passes[5].maps =~= seq![oxlib]);
    lemma_pass(passes, 6, code);
    assert(passes[6].maps =~= seq![oxlib]);
    lemma_pass(passes, 7, code);
    assert(passes[7].maps =~= seq![oxlib]);
    lemma_pass(passes, 8, code);
    assert(passes[8].maps =~= seq![qbcore]);
    assert(passes.take(9) =~= passes);
}

/// In a rewritten script of the client, `TriggerServerEvent` is called as before, with new names in
/// the place of those of server events and of net events.
pub proof fn law_client_trigger_server_event(
    s: State,
    supply: Seq<Seq<char>>,
    esx: Seq<Seq<char>>,
    code: Seq<u8>,
)
    requires
        prepared(s),
        supplied(s, supply, esx),
        all_uuids(supply),
        all_uuids(esx),
        separate(side_funcs(false), code),
    ensures
        ({
            let func = "TriggerServerEvent"@;
            let out = scrambled(finished(s, supply, esx), false, code);
            names_in(func, out) == names_in(func, code).map_values(
                |name: Seq<char>|
                    if s.server.old.names.contains(name) || s.net.old.names.contains(name) {
                        replacement(shared_names(s), supply, name)
                    } else {
                        name
                    },
            )
        }),
{
    let func = "TriggerServerEvent"@;
    let out = scrambled(finished(s, supply, esx), false, code);
    let new = |name: Seq<char>|
        if s.server.old.names.contains(name) || s.net.old.names.contains(name) {
            replacement(shared_names(s), supply, name)
        } else {
            name
        };
    law_script_renamed(s, supply, esx, false, code, 0);
    let sorts = side_calls(false)[0].1;
    let names = names_in(func, code);
    assert forall|name: Seq<char>| in_scope(s, sorts, name) <==> {
        ||| s.server.old.names.contains(name)
        ||| s.net.old.names.contains(name)
    } by {
        lemma_scope_two(s, Sort::Server, Sort::Net, name);
    }
    assert(names_in(func, out) =~= names.map_values(new));
}

/// In a rewritten script of the client, `RegisterNetEvent` is called as before, with new names in
/// the place of those of net events.
pub proof fn law_client_register_net_event(
    s: State,
    supply: Seq<Seq<char>>,
    esx: Seq<Seq<char>>,
    code: Seq<u8>,
)
    requires
        prepared(s),
        supplied(s, supply, esx),
        all_uuids(supply),
        all_uuids(esx),
        separate(side_funcs(false), code),
    ensures
        ({
            let func = "RegisterNetEvent"@;
            let out = scrambled(finished(s, supply, esx), false, code);
            names_in(func, out) == names_in(func, code).map_values(
                |name: Seq<char>|
                    if s.net.old.names.contains(name) {
                        replacement(shared_names(s), supply, name)
                    } else {
                        name
                    },
            )
        }),
{
    let func = "RegisterNetEvent"@;
    let out = scrambled(finished(s, supply, esx), false, code);
    let new = |name: Seq<char>|
        if s.net.old.names.contains(name) {
            replacement(shared_names(s), supply, name)
        } else {
            name
        };
    law_script_renamed(s, supply, esx, false, code, 1);
    let sorts = side_calls(false)[1].1;
    let names = names_in(func, code);
    assert forall|name: Seq<char>| in_scope(s, sorts, name) <==> {
        ||| s.net.old.names.contains(name)
    } by {
        lemma_scope_one(s, Sort::Net, name);
    }
    assert(names_in(func, out) =~= names.map_values(new));
}

/// In a rewritten script of the client, `AddEventHandler` is called as before, with new names in
/// the place of those of net events and of client events.
pub proof fn law_client_add_event_handler(
    s: State,
    supply: Seq<Seq<char>>,
    esx: Seq<Seq<char>>,
    code: Seq<u8>,
)
    requires
        prepared(s),
        supplied(s, supply, esx),
        all_uuids(supply),
        all_uuids(esx),
        separate(side_funcs(false), code),
    ensures
        ({
            let func = "AddEventHandler"@;
            let out = scrambled(finished(s, supply, esx), false, code);
            names_in(func, out) == names_in(func, code).map_values(
                |name: Seq<char>|
                    if s.net.old.names.contains(name) || s.client.old.names.contains(name) {
                        replacement(shared_names(s), supply, name)
                    } else {
                        name
                    },
            )
        }),
{
    let func = "AddEventHandler"@;
    let out = scrambled(finished(s, supply, esx), false, code);
    let new = |name: Seq<char>|
        if s.net.old.names.contains(name) || s.client.old.names.contains(name) {
            replacement(shared_names(s), supply, name)
        } else {
            name
        };
    law_script_renamed(s, supply, esx, false, code, 2);
    let sorts = side_calls(false)[2].1;
    let names = names_in(func, code);
    assert forall|name: Seq<char>| in_scope(s, sorts, name) <==> {
        ||| s.net.old.names.contains(name)
        ||| s.client.old.names.contains(name)
    } by {
        lemma_scope_two(s, Sort::Net, Sort::Client, name);
    }
    assert(names_in(func, out) =~= names.map_values(new));
}

/// In a rewritten script of the client, `TriggerEvent` is called as before, with new names in the
/// place of those of net events and of client events.
pub proof fn law_client_trigger_event(
    s: State,
    supply: Seq<Seq<char>>,
    esx: Seq<Seq<char>>,
    code: Seq<u8>,
)
    requires
        prepared(s),
        supplied(s, supply, esx),
        all_uuids(supply),
        all_uuids(esx),
        separate(side_funcs(false), code),
    ensures
        ({
            let func = "TriggerEvent"@;
            let out = scrambled(finished(s, supply, esx), false, code);
            names_in(func, out) == names_in(func, code).map_values(
                |name: Seq<char>|
                    if s.net.old.names.contains(name) || s.client.old.names.contains(name) {
                        replacement(shared_names(s), supply, name)
                    } else {
                        name
                    },
            )
        }),
{
    let func = "TriggerEvent"@;
    let out = scrambled(finished(s, supply, esx), false, code);
    let new = |name: Seq<char>|
        if s.net.old.names.contains(name) || s.client.old.names.contains(name) {
            replacement(shared_names(s), supply, name)
        } else {
            name
        };
    law_script_renamed(s, supply, esx, false, code, 3);
    let sorts = side_calls(false)[3].1;
    let names = names_in(func, code);
    assert forall|name: Seq<char>| in_scope(s, sorts, name) <==> {
        ||| s.net.old.names.contains(name)
        ||| s.client.old.names.contains(name)
    } by {
        lemma_scope_two(s, Sort::Net, Sort::Client, name);
    }
    assert(names_in(func, out) =~= names.map_values(new));
}

/// In a rewritten script of the client, `ESX.TriggerServerCallback` is called as before, with new
/// names in the place of those of ESX callbacks.
pub proof fn law_client_esx_trigger_server_callback(
    s: State,
    supply: Seq<Seq<char>>,
    esx: Seq<Seq<char>>,
    code: Seq<u8>,
)
    requires
        prepared(s),
        supplied(s, supply, esx),
        all_uuids(supply),
        all_uuids(esx),
        separate(side_funcs(false), code),
    ensures
        ({
            let func = "ESX.TriggerServerCallback"@;
            let out = scrambled(finished(s, supply, esx), false, code);
            names_in(func, out) == names_in(func, code).map_values(
                |name: Seq<char>|
                    if s.esx.old.names.contains(name) {
                        esx[position(s.esx.old.names, name)]
                    } else {
                        name
                    },
            )
        }),
{
    let func = "ESX.TriggerServerCallback"@;
    let out = scrambled(finished(s, supply, esx), false, code);
    let new = |name: Seq<char>|
        if s.esx.old.names.contains(name) {
            esx[position(s.esx.old.names, name)]
        } else {
            name
        };
    law_script_renamed(s, supply, esx, false, code, 4);
    let sorts = side_calls(false)[4].1;
    let names = names_in(func, code);
    assert forall|name: Seq<char>| in_scope(s, sorts, name) <==> {
        ||| s.esx.old.names.contains(name)
    } by {
        lemma_scope_one(s, Sort::Esx, name);
    }
    assert(names_in(func, out) =~= names.map_values(new));
}

/// In a rewritten script of the client, `lib.callback.register` is called as before, with new names
/// in the place of those of ox_lib callbacks.
pub proof fn law_client_lib_callback_register(
    s: State,
    supply: Seq<Seq<char>>,
    esx: Seq<Seq<char>>,
    code: Seq<u8>,
)
    requires
        prepared(s),
        supplied(s, supply, esx),
        all_uuids(supply),
        all_uuids(esx),
        separate(side_funcs(false), code),
    ensures
        ({
            let func = "lib.callback.register"@;
            let out = scrambled(finished(s, supply, esx), false, code);
            names_in(func, out) == names_in(func, code).map_values(
                |name: Seq<char>|
                    if s.oxlib.old.names.contains(name) {
                        replacement(shared_names(s), supply, name)
                    } else {
                        name
                    },
            )
        }),
{
    let func = "lib.callback.register"@;
    let out = scrambled(finished(s, supply, esx), false, code);
    let new = |name: Seq<char>|
        if s.oxlib.old.names.contains(name) {
            replacement(shared_names(s), supply, name)
        } else {
            name
        };
    law_script_renamed(s, supply, esx, false, code, 5);
    let sorts = side_calls(false)[5].1;
    let names = names_in(func, code);
    assert forall|name: Seq<char>| in_scope(s, sorts, name) <==> {
        ||| s.oxlib.old.names.contains(name)
    } by {
        lemma_scope_one(s, Sort::Oxlib, name);
    }
    assert(names_in(func, out) =~= names.map_values(new));
}

/// In a rewritten script of the client, `lib.callback.await` is called as before, with new names in
/// the place of those of ox_lib callbacks.
pub proof fn law_client_lib_callback_await(
    s: State,
    supply: Seq<Seq<char>>,
    esx: Seq<Seq<char>>,
    code: Seq<u8>,
)
    requires
        prepared(s),
        supplied(s, supply, esx),
        all_uuids(supply),
        all_uuids(esx),
        separate(side_funcs(false), code),
    ensures
        ({
            let func = "lib.callback.await"@;
            let out = scrambled(finished(s, supply, esx), false, code);
            names_in(func, out) == names_in(func, code).map_values(
                |name: Seq<char>|
                    if s.oxlib.old.names.contains(name) {
                        replacement(shared_names(s), supply, name)
                    } else {
                        name
                    },
            )
        }),
{
    let func = "lib.callback.await"@;
    let out = scrambled(finished(s, supply, esx), false, code);
    let new = |name: Seq<char>|
        if s.oxlib.old.names.contains(name) {
            replacement(shared_names(s), supply, name)
        } else {
            name
        };
    law_script_renamed(s, supply, esx, false, code, 6);
    let sorts = side_calls(false)[6].1;
    let names = names_in(func, code);
    assert forall|name: Seq<char>| in_scope(s, sorts, name) <==> {
        ||| s.oxlib.old.names.contains(name)
    } by {
        lemma_scope_one(s, Sort::Oxlib, name);
    }
    assert(names_in(func, out) =~= names.map_values(new));
}

/// In a rewritten script of the client, `lib.callback` is called as before, with new names in the
/// place of those of ox_lib callbacks.
pub proof fn law_client_lib_callback(
    s: State,
    supply: Seq<Seq<char>>,
    esx: Seq<Seq<char>>,
    code: Seq<u8>,
)
    requires
        prepared(s),
        supplied(s, supply, esx),
        all_uuids(supply),
        all_uuids(esx),
        separate(side_funcs(false), code),
    ensures
        ({
            let func = "lib.callback"@;
            let out = scrambled(finished(s, supply, esx), false, code);
            names_in(func, out) == names_in(func, code).map_values(
                |name: Seq<char>|
                    if s.oxlib.old.names.contains(name) {
                        replacement(shared_names(s), supply, name)
                    } else {
                        name
                    },
            )
        }),
{
    let func = "lib.callback"@;
    let out = scrambled(finished(s, supply, esx), false, code);
    let new = |name: Seq<char>|
        if s.oxlib.old.names.contains(name) {
            replacement(shared_names(s), supply, name)
        } else {
            name
        };
    law_script_renamed(s, supply, esx, false, code, 7);
    let sorts = side_calls(false)[7].1;
    let names = names_in(func, code);
    assert forall|name: Seq<char>| in_scope(s, sorts, name) <==> {
        ||| s.oxlib.old.names.contains(name)
    } by {
        lemma_scope_one(s, Sort::Oxlib, name);
    }
    assert(names_in(func, out) =~= names.map_values(new));
}

/// In a rewritten script of the client, `QBCore.Functions.TriggerCallback` is called as before,
/// with new names in the place of those of QBCore callbacks.
pub proof fn law_client_qbcore_trigger_callback(
    s: State,
    supply: Seq<Seq<char>>,
    esx: Seq<Seq<char>>,
    code: Seq<u8>,
)
    requires
        prepared(s),
        supplied(s, supply, esx),
        all_uuids(supply),
        all_uuids(esx),
        separate(side_funcs(false), code),
    ensures
        ({
            let func = "QBCore.Functions.TriggerCallback"@;
            let out = scrambled(finished(s, supply, esx), false, code);
            names_in(func, out) == names_in(func, code).map_values(
                |name: Seq<char>|
                    if s.qbcore.old.names.contains(name) {
                        replacement(shared_names(s), supply, name)
                    } else {
                        name
                    },
            )
        }),
{
    let func = "QBCore.Functions.TriggerCallback"@;
    let out = scrambled(finished(s, supply, esx), false, code);
    let new = |name: Seq<char>|
        if s.qbcore.old.names.contains(name) {
            replacement(shared_names(s), supply, name)
        } else {
            name
        };
    law_script_renamed(s, supply, esx, false, code, 8);
    let sorts = side_calls(false)[8].1;
    let names = names_in(func, code);
    assert forall|name: Seq<char>| in_scope(s, sorts, name) <==> {
        ||| s.qbcore.old.names.contains(name)
    } by {
        lemma_scope_one(s, Sort::Qbcore, name);
    }
    assert(names_in(func, out) =~= names.map_values(new));
}

proof fn lemma_scope_one(s: State, sort: Sort, name: Seq<char>)
    ensures
        in_scope(s, seq![sort], name) <==> bucket_of(s, sort).old.names.contains(name),
{
    let sorts = seq![sort];
    assert(sorts[0] == sort);
    if in_scope(s, sorts, name) {
        let i = choose|i: int|
            0 <= i < sorts.len() && bucket_of(s, #[trigger] sorts[i]).old.names.contains(name);
        assert(i == 0);
    }
}

proof fn lemma_scope_two(s: State, a: Sort, b: Sort, name: Seq<char>)
    ensures
        in_scope(s, seq![a, b], name) <==> bucket_of(s, a).old.names.contains(name) || bucket_of(
            s,
            b,
        ).old.names.contains(name),
{
    let sorts = seq![a, b];
    assert(sorts[0] == a && sorts[1] == b);
    if in_scope(s, sorts, name) {
        let i = choose|i: int|
            0 <= i < sorts.len() && bucket_of(s, #[trigger] sorts[i]).old.names.contains(name);
        assert(i == 0 || i == 1);
    }
}

} // verus!
