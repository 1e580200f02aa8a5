//! What holds of a run from its first step to its last.
use crate::calls::names_in;
use crate::events::{
    client_event_calls, net_event_calls, oxlib_calls, script_names, server_event_calls,
};
use crate::gathering_laws::{
    gathered, is_custom_name, known, law_gathered_stays, law_prepared_after_custom,
    law_prepared_after_system, law_scripts_are_gathered, law_system_names_remain,
    law_system_scripts_are_gathered, no_custom, prepared,
};
use crate::passes::separate;
use crate::replacement::first_seen;
use crate::scrambler::is_finished;
use crate::scrambling_laws::{
    in_scope, law_no_name_left, law_script_renamed, lemma_scanned, lemma_script_names_contains,
    scanned, side_funcs, supplied, triggers_across,
};
use crate::scripts::in_system_resource;
use crate::shared_laws::{
    all_funcs, both_sorts, in_turn, law_renamed_in_turn, law_turns, lemma_both_sorts,
    lemma_side_index, renamed_in_turn, side_index, sorts_on,
};
use crate::state::{
    finished, is_system_name, loaded, shared_names, with_custom_client, with_custom_server,
    with_manifests, with_scripts, with_system_client, with_system_server, with_undeclared, State,
};
use crate::uuids::{all_uuids, is_uuid};
use crate::writer::{all_tasks, bucket_of, scrambled, side_calls, side_tasks, Task};
use vstd::prelude::*;

verus! {

/// Nothing has been gathered from scripts of other resources yet.
pub open spec fn fresh(s: State) -> bool {
    &&& prepared(s)
    &&& no_custom(s)
}

/// Finding the scripts leaves a scrambler fresh.
pub proof fn law_fresh_until_loaded(
    s: State,
    directory: Seq<u8>,
    manifests: Seq<Seq<u8>>,
    paths: Seq<Seq<u8>>,
    there: Seq<bool>,
    server: bool,
    found: Seq<Seq<u8>>,
)
    requires
        fresh(s),
    ensures
        fresh(with_manifests(s, directory, manifests)),
        fresh(with_scripts(s, paths, there, server)),
        fresh(with_undeclared(s, found)),
{
    lemma_same_lists(s, with_manifests(s, directory, manifests));
    lemma_same_lists(s, with_scripts(s, paths, there, server));
    lemma_same_lists(s, with_undeclared(s, found));
}

proof fn lemma_same_lists(s: State, t: State)
    requires
        fresh(s),
        t == (State {
            loader: t.loader,
            server_scripts: t.server_scripts,
            client_scripts: t.client_scripts,
            directories: t.directories,
            target: t.target,
            ..s
        }),
    ensures
        fresh(t),
{
    assert forall|name: Seq<char>| !#[trigger] is_custom_name(t, name) by {
        assert(!is_custom_name(s, name));
    }
}

/// After the names have been gathered, what a scan finds in a script of a resource that is not of
/// the system is known.
pub proof fn law_loaded_scripts_are_gathered(
    s: State,
    server_codes: Seq<Option<Seq<u8>>>,
    client_codes: Seq<Option<Seq<u8>>>,
    server: bool,
    i: int,
)
    requires
        fresh(s),
        ({
            let scripts = if server {
                s.server_scripts
            } else {
                s.client_scripts
            };
            let codes = if server {
                server_codes
            } else {
                client_codes
            };
            0 <= i < scripts.len() && codes[i] is Some && !in_system_resource(scripts[i])
        }),
    ensures
        prepared(loaded(s, server_codes, client_codes)),
        gathered(
            loaded(s, server_codes, client_codes),
            server,
            if server {
                server_codes[i]->0
            } else {
                client_codes[i]->0
            },
        ),
{
    let a = with_system_server(s, server_codes);
    let b = with_system_client(a, client_codes);
    let c = with_custom_server(b, server_codes);
    law_prepared_after_system(s, server_codes);
    law_prepared_after_system(a, client_codes);
    law_prepared_after_custom(b, server_codes);
    law_prepared_after_custom(c, client_codes);
    if server {
        law_scripts_are_gathered(b, true, server_codes, i);
        law_gathered_stays(c, client_codes, true, server_codes[i]->0);
    } else {
        law_scripts_are_gathered(c, false, client_codes, i);
    }
}

/// After a run, a name that was gathered for a function is a UUID at its calls in a script of a
/// resource that is not of the system. Every name at a call is then a UUID or a name of the
/// system, but for names that are only used to trigger events on the other side, which stay. Left
/// out are scripts in which a call begins inside one of another function. The script is one that
/// is rewritten once, for one side; [`law_run_leaves_no_name_in_turn`] is about the others.
pub proof fn law_run_leaves_no_name(
    s: State,
    server_codes: Seq<Option<Seq<u8>>>,
    client_codes: Seq<Option<Seq<u8>>>,
    supply: Seq<Seq<char>>,
    esx: Seq<Seq<char>>,
    server: bool,
    i: int,
    k: int,
    j: int,
)
    requires
        fresh(s),
        ({
            let scripts = if server {
                s.server_scripts
            } else {
                s.client_scripts
            };
            let codes = if server {
                server_codes
            } else {
                client_codes
            };
            let t = loaded(s, server_codes, client_codes);
            &&& 0 <= i < scripts.len()
            &&& codes[i] is Some
            &&& !in_system_resource(scripts[i])
            &&& separate(side_funcs(server), codes[i]->0)
            &&& supplied(t, supply, esx)
            &&& 0 <= k < side_calls(server).len()
            &&& 0 <= j < names_in(
                side_calls(server)[k].0,
                scrambled(finished(t, supply, esx), server, codes[i]->0),
            ).len()
        }),
        all_uuids(supply),
        all_uuids(esx),
    ensures
        ({
            let codes = if server {
                server_codes
            } else {
                client_codes
            };
            let t = loaded(s, server_codes, client_codes);
            let func = side_calls(server)[k].0;
            let old = names_in(func, codes[i]->0)[j];
            let new = names_in(func, scrambled(finished(t, supply, esx), server, codes[i]->0))[j];
            &&& in_scope(t, side_calls(server)[k].1, old) ==> is_uuid(new)
            &&& is_uuid(new) || is_system_name(t, new) || (triggers_across(func) && new == old)
        }),
{
    let t = loaded(s, server_codes, client_codes);
    let codes = if server {
        server_codes
    } else {
        client_codes
    };
    law_loaded_scripts_are_gathered(s, server_codes, client_codes, server, i);
    law_no_name_left(t, supply, esx, server, codes[i]->0, k, j);
}

/// After a run, the calls for events and ox_lib callbacks in a script of a system resource have the
/// names that they had. Left out are the functions that trigger events on the other side, which
/// are not scanned, and scripts in which a call begins inside one of another function. The script
/// is one that is rewritten once, for one side; [`law_run_keeps_system_scripts_in_turn`] is about
/// the others.
pub proof fn law_run_keeps_system_scripts(
    s: State,
    server_codes: Seq<Option<Seq<u8>>>,
    client_codes: Seq<Option<Seq<u8>>>,
    supply: Seq<Seq<char>>,
    esx: Seq<Seq<char>>,
    server: bool,
    i: int,
    k: int,
)
    requires
        fresh(s),
        ({
            let scripts = if server {
                s.server_scripts
            } else {
                s.client_scripts
            };
            let codes = if server {
                server_codes
            } else {
                client_codes
            };
            &&& 0 <= i < scripts.len()
            &&& codes[i] is Some
            &&& in_system_resource(scripts[i])
            &&& separate(side_funcs(server), codes[i]->0)
        }),
        supplied(loaded(s, server_codes, client_codes), supply, esx),
        all_uuids(supply),
        all_uuids(esx),
        0 <= k < side_calls(server).len(),
        !triggers_across(side_calls(server)[k].0),
        !(side_calls(server)[k].1[0] is Esx),
        !(side_calls(server)[k].1[0] is Qbcore),
    ensures
        ({
            let code = if server {
                server_codes[i]->0
            } else {
                client_codes[i]->0
            };
            let t = finished(loaded(s, server_codes, client_codes), supply, esx);
            let func = side_calls(server)[k].0;
            names_in(func, scrambled(t, server, code)) == names_in(func, code)
        }),
{
    let d = loaded(s, server_codes, client_codes);
    lemma_loaded_prepared(s, server_codes, client_codes);
    let code = if server {
        server_codes[i]->0
    } else {
        client_codes[i]->0
    };
    let func = side_calls(server)[k].0;
    let sorts = side_calls(server)[k].1;
    law_script_renamed(d, supply, esx, server, code, k);
    let names = names_in(func, code);
    assert forall|j: int| 0 <= j < names.len() implies !in_scope(d, sorts, #[trigger] names[j]) by {
        let name = names[j];
        assert(names.contains(name));
        lemma_scanned_events(server, k, code, name);
        let calls = scanned(server, k).unwrap().0;
        lemma_loaded_system_name(s, server_codes, client_codes, server, i, calls, name);
        if in_scope(d, sorts, name) {
            let x = choose|x: int|
                0 <= x < sorts.len() && bucket_of(d, #[trigger] sorts[x]).old.names.contains(name);
            assert(is_custom_name(d, name));
        }
    }
    assert(names_in(func, scrambled(finished(d, supply, esx), server, code)) =~= names);
}

proof fn lemma_loaded_prepared(
    s: State,
    server_codes: Seq<Option<Seq<u8>>>,
    client_codes: Seq<Option<Seq<u8>>>,
)
    requires
        fresh(s),
    ensures
        prepared(loaded(s, server_codes, client_codes)),
{
    let a = with_system_server(s, server_codes);
    let b = with_system_client(a, client_codes);
    let c = with_custom_server(b, server_codes);
    law_prepared_after_system(s, server_codes);
    law_prepared_after_system(a, client_codes);
    law_prepared_after_custom(b, server_codes);
    law_prepared_after_custom(c, client_codes);
}

/// A name at a call for events or ox_lib callbacks is found by a scan for these.
proof fn lemma_scanned_events(server: bool, k: int, code: Seq<u8>, name: Seq<char>)
    requires
        0 <= k < side_calls(server).len(),
        !triggers_across(side_calls(server)[k].0),
        !(side_calls(server)[k].1[0] is Esx),
        !(side_calls(server)[k].1[0] is Qbcore),
        names_in(side_calls(server)[k].0, code).contains(name),
    ensures
        scanned(server, k) matches Some((calls, at, sort)) && {
            &&& calls == net_event_calls() || calls == oxlib_calls() || calls == if server {
                server_event_calls()
            } else {
                client_event_calls()
            }
            &&& script_names(code, calls).contains(name)
        },
{
    lemma_scanned(server, k);
    let (calls, at, sort) = scanned(server, k).unwrap();
    lemma_script_names_contains(code, calls, at, name);
}

/// A name that a scan finds in a script of a system resource is one of the system when the names
/// have been gathered.
proof fn lemma_loaded_system_name(
    s: State,
    server_codes: Seq<Option<Seq<u8>>>,
    client_codes: Seq<Option<Seq<u8>>>,
    server: bool,
    i: int,
    calls: Seq<Seq<char>>,
    name: Seq<char>,
)
    requires
        fresh(s),
        ({
            let scripts = if server {
                s.server_scripts
            } else {
                s.client_scripts
            };
            let codes = if server {
                server_codes
            } else {
                client_codes
            };
            &&& 0 <= i < scripts.len()
            &&& codes[i] is Some
            &&& in_system_resource(scripts[i])
            &&& script_names(codes[i]->0, calls).contains(name)
        }),
        calls == net_event_calls() || calls == oxlib_calls() || calls == if server {
            server_event_calls()
        } else {
            client_event_calls()
        },
    ensures
        is_system_name(loaded(s, server_codes, client_codes), name),
{
    let a = with_system_server(s, server_codes);
    let b = with_system_client(a, client_codes);
    let c = with_custom_server(b, server_codes);
    law_prepared_after_system(s, server_codes);
    law_prepared_after_system(a, client_codes);
    law_prepared_after_custom(b, server_codes);
    if server {
        law_system_scripts_are_gathered(s, true, server_codes, i, calls, name);
        law_system_names_remain(s.loader, a, client_codes, name);
    } else {
        law_system_scripts_are_gathered(a, false, client_codes, i, calls, name);
    }
    law_system_names_remain(s.loader, b, server_codes, name);
    law_system_names_remain(s.loader, c, client_codes, name);
}

/// The scripts of one side.
pub open spec fn side_scripts(s: State, server: bool) -> Seq<Seq<u8>> {
    if server {
        s.server_scripts
    } else {
        s.client_scripts
    }
}

/// A script with this text runs on a side: it is one of those that were found for it.
pub open spec fn runs_on(
    s: State,
    server_codes: Seq<Option<Seq<u8>>>,
    client_codes: Seq<Option<Seq<u8>>>,
    server: bool,
    path: Seq<u8>,
    code: Seq<u8>,
) -> bool {
    let codes = if server {
        server_codes
    } else {
        client_codes
    };
    exists|i: int|
        0 <= i < side_scripts(s, server).len() && #[trigger] side_scripts(s, server)[i] == path
            && codes[i] == Some(code)
}

/// The sides for which a script is rewritten, in order.
pub open spec fn turns(s: State, path: Seq<u8>) -> Seq<bool> {
    all_tasks(s).filter(|task: Task| task.path == path).map_values(|task: Task| task.server)
}

/// A script is rewritten for sides that it runs on.
pub proof fn law_runs_where_it_is_rewritten(
    s: State,
    server_codes: Seq<Option<Seq<u8>>>,
    client_codes: Seq<Option<Seq<u8>>>,
    path: Seq<u8>,
    code: Seq<u8>,
    x: int,
)
    requires
        forall|i: int|
            0 <= i < s.server_scripts.len() && #[trigger] s.server_scripts[i] == path
                ==> server_codes[i] == Some(code),
        forall|i: int|
            0 <= i < s.client_scripts.len() && #[trigger] s.client_scripts[i] == path
                ==> client_codes[i] == Some(code),
        0 <= x < turns(s, path).len(),
    ensures
        runs_on(s, server_codes, client_codes, turns(s, path)[x], path, code),
{
    let all = all_tasks(s);
    let pred = |task: Task| task.path == path;
    let task = all.filter(pred)[x];
    all.lemma_filter_pred(pred, x);
    assert(all.filter(pred).contains(task));
    all.lemma_filter_contains_rev(pred, task);
    let i = choose|i: int| 0 <= i < all.len() && all[i] == task;
    let n = s.server_scripts.len() as int;
    if i < n {
        assert(all[i] == side_tasks(s.server_scripts, true)[i]);
        assert(side_scripts(s, true)[i] == path);
    } else {
        assert(all[i] == side_tasks(s.client_scripts, false)[i - n]);
        assert(side_scripts(s, false)[i - n] == path);
    }
}

/// After a run, the same holds of a script that is rewritten for several sides, one after the
/// other, as long as the function is looked at on one of them: a name that was gathered for it on
/// one of the sides is a UUID, and every name is a UUID or a name of the system, but for names
/// that are only used to trigger events on the other side, which stay. The sides may be any that
/// the script runs on, in any order and number, those of [`turns`] among them. Left out are scripts
/// in which a call begins inside one of another function.
pub proof fn law_run_leaves_no_name_in_turn(
    s: State,
    server_codes: Seq<Option<Seq<u8>>>,
    client_codes: Seq<Option<Seq<u8>>>,
    supply: Seq<Seq<char>>,
    esx: Seq<Seq<char>>,
    path: Seq<u8>,
    code: Seq<u8>,
    sides: Seq<bool>,
    a: int,
    j: int,
)
    requires
        fresh(s),
        !in_system_resource(path),
        separate(all_funcs(), code),
        forall|x: int|
            0 <= x < sides.len() ==> runs_on(
                s,
                server_codes,
                client_codes,
                #[trigger] sides[x],
                path,
                code,
            ),
        exists|x: int| 0 <= x < sides.len() && side_index(#[trigger] sides[x], a) is Some,
        supplied(loaded(s, server_codes, client_codes), supply, esx),
        all_uuids(supply),
        all_uuids(esx),
        0 <= a < all_funcs().len(),
        0 <= j < names_in(
            all_funcs()[a],
            in_turn(finished(loaded(s, server_codes, client_codes), supply, esx), sides, code),
        ).len(),
    ensures
        ({
            let t = loaded(s, server_codes, client_codes);
            let func = all_funcs()[a];
            let old = names_in(func, code)[j];
            let new = names_in(func, in_turn(finished(t, supply, esx), sides, code))[j];
            &&& (exists|x: int|
                0 <= x < sides.len() && in_scope(t, sorts_on(#[trigger] sides[x], a), old))
                ==> is_uuid(new)
            &&& is_uuid(new) || is_system_name(t, new) || (triggers_across(func) && new == old)
        }),
{
    let t = loaded(s, server_codes, client_codes);
    let func = all_funcs()[a];
    lemma_loaded_prepared(s, server_codes, client_codes);
    law_renamed_in_turn(t, supply, esx, sides, code, a);
    let old = names_in(func, code)[j];
    law_turns(t, supply, esx, sides, a, old);
    if !triggers_across(func) {
        let x = choose|x: int| 0 <= x < sides.len() && side_index(#[trigger] sides[x], a) is Some;
        lemma_known_where_it_runs(s, server_codes, client_codes, sides[x], path, code, a, old);
    }
}

/// In a script of a resource that is not of the system, a name at the calls of a function that is
/// scanned on a side of the script is known there.
proof fn lemma_known_where_it_runs(
    s: State,
    server_codes: Seq<Option<Seq<u8>>>,
    client_codes: Seq<Option<Seq<u8>>>,
    server: bool,
    path: Seq<u8>,
    code: Seq<u8>,
    a: int,
    name: Seq<char>,
)
    requires
        fresh(s),
        !in_system_resource(path),
        runs_on(s, server_codes, client_codes, server, path, code),
        0 <= a < all_funcs().len(),
        side_index(server, a) is Some,
        !triggers_across(all_funcs()[a]),
        names_in(all_funcs()[a], code).contains(name),
    ensures
        ({
            let t = loaded(s, server_codes, client_codes);
            in_scope(t, sorts_on(server, a), name) || is_system_name(t, name)
        }),
{
    let t = loaded(s, server_codes, client_codes);
    let codes = if server {
        server_codes
    } else {
        client_codes
    };
    let i = choose|i: int|
        0 <= i < side_scripts(s, server).len() && #[trigger] side_scripts(s, server)[i] == path
            && codes[i] == Some(code);
    law_loaded_scripts_are_gathered(s, server_codes, client_codes, server, i);
    lemma_side_index(server, a);
    let k = side_index(server, a)->0;
    lemma_scanned(server, k);
    let (calls, at, sort) = scanned(server, k).unwrap();
    lemma_script_names_contains(code, calls, at, name);
    assert(known(bucket_of(t, sort).old, t, script_names(code, calls)));
    let sorts = sorts_on(server, a);
    let x = choose|x: int| 0 <= x < sorts.len() && #[trigger] sorts[x] == sort;
    assert(bucket_of(t, sorts[x]).old.names.contains(name) || is_system_name(t, name));
}

/// After a run, a name that was gathered for a function is a UUID at its calls in a script of a
/// resource that is not of the system and runs on both sides. Every name at a call is then a UUID
/// or a name of the system, but for names that are only used to trigger events on the other side,
/// which stay. Left out are scripts in which a call begins inside one of another function.
pub proof fn law_run_leaves_no_name_on_both_sides(
    s: State,
    server_codes: Seq<Option<Seq<u8>>>,
    client_codes: Seq<Option<Seq<u8>>>,
    supply: Seq<Seq<char>>,
    esx: Seq<Seq<char>>,
    i: int,
    m: int,
    a: int,
    j: int,
)
    requires
        fresh(s),
        0 <= i < s.server_scripts.len(),
        0 <= m < s.client_scripts.len(),
        s.server_scripts[i] == s.client_scripts[m],
        server_codes[i] is Some,
        server_codes[i] == client_codes[m],
        !in_system_resource(s.server_scripts[i]),
        separate(all_funcs(), server_codes[i]->0),
        supplied(loaded(s, server_codes, client_codes), supply, esx),
        all_uuids(supply),
        all_uuids(esx),
        0 <= a < all_funcs().len(),
        ({
            let t = finished(loaded(s, server_codes, client_codes), supply, esx);
            let twice = scrambled(t, false, scrambled(t, true, server_codes[i]->0));
            0 <= j < names_in(all_funcs()[a], twice).len()
        }),
    ensures
        ({
            let d = loaded(s, server_codes, client_codes);
            let t = finished(d, supply, esx);
            let code = server_codes[i]->0;
            let func = all_funcs()[a];
            let old = names_in(func, code)[j];
            let new = names_in(func, scrambled(t, false, scrambled(t, true, code)))[j];
            &&& in_scope(d, both_sorts(a), old) ==> is_uuid(new)
            &&& is_uuid(new) || is_system_name(d, new) || (triggers_across(func) && new == old)
        }),
{
    let d = loaded(s, server_codes, client_codes);
    let t = finished(d, supply, esx);
    let path = s.server_scripts[i];
    let code = server_codes[i]->0;
    let sides = seq![true, false];
    lemma_runs_on_both(s, server_codes, client_codes, i, m);
    lemma_both_turns(t, code);
    lemma_side_index(sides[0], a);
    lemma_side_index(sides[1], a);
    assert(side_index(sides[0], a) is Some || side_index(sides[1], a) is Some);
    law_run_leaves_no_name_in_turn(
        s,
        server_codes,
        client_codes,
        supply,
        esx,
        path,
        code,
        sides,
        a,
        j,
    );
    let old = names_in(all_funcs()[a], code)[j];
    lemma_both_sorts(d, a, old);
    if in_scope(d, both_sorts(a), old) {
        assert(in_scope(d, sorts_on(sides[0], a), old) || in_scope(d, sorts_on(sides[1], a), old));
    }
}

proof fn lemma_runs_on_both(
    s: State,
    server_codes: Seq<Option<Seq<u8>>>,
    client_codes: Seq<Option<Seq<u8>>>,
    i: int,
    m: int,
)
    requires
        0 <= i < s.server_scripts.len(),
        0 <= m < s.client_scripts.len(),
        s.server_scripts[i] == s.client_scripts[m],
        server_codes[i] is Some,
        server_codes[i] == client_codes[m],
    ensures
        forall|server: bool| #[trigger]
            runs_on(
                s,
                server_codes,
                client_codes,
                server,
                s.server_scripts[i],
                server_codes[i]->0,
            ),
{
    assert(side_scripts(s, true)[i] == s.server_scripts[i]);
    assert(side_scripts(s, false)[m] == s.server_scripts[i]);
}

proof fn lemma_both_turns(t: State, code: Seq<u8>)
    ensures
        in_turn(t, seq![true, false], code) == scrambled(t, false, scrambled(t, true, code)),
{
    let sides = seq![true, false];
    assert(sides.drop_last() =~= seq![true]);
    assert(seq![true].drop_last() =~= Seq::<bool>::empty());
    assert(in_turn(t, Seq::<bool>::empty(), code) == code);
    assert(in_turn(t, seq![true], code) == scrambled(t, true, code));
}

/// After a run, the calls for events and ox_lib callbacks in a script of a system resource have the
/// names that they had, also where it is rewritten for several sides, one after the other. Left
/// out are the functions that trigger events on the other side, which are not scanned, and scripts
/// in which a call begins inside one of another function.
pub proof fn law_run_keeps_system_scripts_in_turn(
    s: State,
    server_codes: Seq<Option<Seq<u8>>>,
    client_codes: Seq<Option<Seq<u8>>>,
    supply: Seq<Seq<char>>,
    esx: Seq<Seq<char>>,
    path: Seq<u8>,
    code: Seq<u8>,
    sides: Seq<bool>,
    a: int,
)
    requires
        fresh(s),
        in_system_resource(path),
        separate(all_funcs(), code),
        forall|x: int|
            0 <= x < sides.len() ==> runs_on(
                s,
                server_codes,
                client_codes,
                #[trigger] sides[x],
                path,
                code,
            ),
        supplied(loaded(s, server_codes, client_codes), supply, esx),
        all_uuids(supply),
        all_uuids(esx),
        0 <= a < all_funcs().len(),
        !triggers_across(all_funcs()[a]),
        !(both_sorts(a)[0] is Esx),
        !(both_sorts(a)[0] is Qbcore),
    ensures
        ({
            let t = finished(loaded(s, server_codes, client_codes), supply, esx);
            let func = all_funcs()[a];
            names_in(func, in_turn(t, sides, code)) == names_in(func, code)
        }),
{
    let d = loaded(s, server_codes, client_codes);
    let func = all_funcs()[a];
    lemma_loaded_prepared(s, server_codes, client_codes);
    law_renamed_in_turn(d, supply, esx, sides, code, a);
    let names = names_in(func, code);
    assert forall|j: int| 0 <= j < names.len() implies renamed_in_turn(
        d,
        supply,
        esx,
        sides,
        a,
        #[trigger] names[j],
    ) == names[j] by {
        let name = names[j];
        assert(names.contains(name));
        law_turns(d, supply, esx, sides, a, name);
        if exists|x: int| 0 <= x < sides.len() && in_scope(
            d,
            sorts_on(#[trigger] sides[x], a),
            name,
        ) {
            let x = choose|x: int| 0 <= x < sides.len() && in_scope(
                d,
                sorts_on(#[trigger] sides[x], a),
                name,
            );
            lemma_not_in_scope(s, server_codes, client_codes, sides[x], path, code, a, name);
        }
    }
    assert(names_in(func, in_turn(finished(d, supply, esx), sides, code)) =~= names);
}

/// In a script of a system resource, a name at the calls of a function for events or ox_lib
/// callbacks is not looked for.
proof fn lemma_not_in_scope(
    s: State,
    server_codes: Seq<Option<Seq<u8>>>,
    client_codes: Seq<Option<Seq<u8>>>,
    server: bool,
    path: Seq<u8>,
    code: Seq<u8>,
    a: int,
    name: Seq<char>,
)
    requires
        fresh(s),
        in_system_resource(path),
        runs_on(s, server_codes, client_codes, server, path, code),
        0 <= a < all_funcs().len(),
        !triggers_across(all_funcs()[a]),
        !(both_sorts(a)[0] is Esx),
        !(both_sorts(a)[0] is Qbcore),
        names_in(all_funcs()[a], code).contains(name),
    ensures
        !in_scope(loaded(s, server_codes, client_codes), sorts_on(server, a), name),
{
    let d = loaded(s, server_codes, client_codes);
    let sorts = sorts_on(server, a);
    if in_scope(d, sorts, name) {
        let codes = if server {
            server_codes
        } else {
            client_codes
        };
        let i = choose|i: int|
            0 <= i < side_scripts(s, server).len() && #[trigger] side_scripts(s, server)[i] == path
                && codes[i] == Some(code);
        let x = choose|x: int|
            0 <= x < sorts.len() && bucket_of(d, #[trigger] sorts[x]).old.names.contains(name);
        assert(is_custom_name(d, name));
        lemma_side_index(server, a);
        let k = side_index(server, a)->0;
        lemma_first_sort(server, a);
        lemma_scanned_events(server, k, code, name);
        let calls = scanned(server, k).unwrap().0;
        lemma_loaded_system_name(s, server_codes, client_codes, server, i, calls, name);
        lemma_loaded_prepared(s, server_codes, client_codes);
    }
}

/// A function that is looked at on both sides is for callbacks of ESX or QBCore on neither.
proof fn lemma_first_sort(server: bool, a: int)
    requires
        0 <= a < all_funcs().len(),
        side_index(server, a) is Some,
        !(both_sorts(a)[0] is Esx),
        !(both_sorts(a)[0] is Qbcore),
    ensures
        !(sorts_on(server, a)[0] is Esx),
        !(sorts_on(server, a)[0] is Qbcore),
{
    if a >= 10 {
        assert(both_sorts(a) =~= sorts_on(false, a));
    }
}

/// After a run, the calls for events and ox_lib callbacks in a script of a system resource that
/// runs on both sides have the names that they had. Left out are the functions that trigger events
/// on the other side, which are not scanned, and scripts in which a call begins inside one of
/// another function.
pub proof fn law_run_keeps_system_scripts_on_both_sides(
    s: State,
    server_codes: Seq<Option<Seq<u8>>>,
    client_codes: Seq<Option<Seq<u8>>>,
    supply: Seq<Seq<char>>,
    esx: Seq<Seq<char>>,
    i: int,
    m: int,
    a: int,
)
    requires
        fresh(s),
        0 <= i < s.server_scripts.len(),
        0 <= m < s.client_scripts.len(),
        s.server_scripts[i] == s.client_scripts[m],
        server_codes[i] is Some,
        server_codes[i] == client_codes[m],
        in_system_resource(s.server_scripts[i]),
        separate(all_funcs(), server_codes[i]->0),
        supplied(loaded(s, server_codes, client_codes), supply, esx),
        all_uuids(supply),
        all_uuids(esx),
        0 <= a < all_funcs().len(),
        !triggers_across(all_funcs()[a]),
        !(both_sorts(a)[0] is Esx),
        !(both_sorts(a)[0] is Qbcore),
    ensures
        ({
            let t = finished(loaded(s, server_codes, client_codes), supply, esx);
            let code = server_codes[i]->0;
            let func = all_funcs()[a];
            names_in(func, scrambled(t, false, scrambled(t, true, code))) == names_in(func, code)
        }),
{
    let t = finished(loaded(s, server_codes, client_codes), supply, esx);
    let path = s.server_scripts[i];
    let code = server_codes[i]->0;
    let sides = seq![true, false];
    lemma_runs_on_both(s, server_codes, client_codes, i, m);
    lemma_both_turns(t, code);
    law_run_keeps_system_scripts_in_turn(
        s,
        server_codes,
        client_codes,
        supply,
        esx,
        path,
        code,
        sides,
        a,
    );
}

/// Every script of a side is rewritten for that side, in the order of the scripts, and nothing else
/// is: first those of the server, then those of the client. Each task tells which one of how many
/// it is.
pub proof fn law_every_script_is_rewritten(s: State)
    ensures
        all_tasks(s).len() == s.server_scripts.len() + s.client_scripts.len(),
        forall|i: int|
            0 <= i < s.server_scripts.len() ==> {
                let task = #[trigger] all_tasks(s)[i];
                &&& task.server
                &&& task.path == s.server_scripts[i]
                &&& task.index == i + 1
                &&& task.total == s.server_scripts.len()
            },
        forall|i: int|
            s.server_scripts.len() <= i < all_tasks(s).len() ==> {
                let task = #[trigger] all_tasks(s)[i];
                &&& !task.server
                &&& task.path == s.client_scripts[i - s.server_scripts.len()]
                &&& task.index == i - s.server_scripts.len() + 1
                &&& task.total == s.client_scripts.len()
            },
{
}

/// A script is rewritten for every side of which it is one, as often as it is listed there.
pub proof fn law_rewritten_where_it_runs(s: State, path: Seq<u8>)
    ensures
        turns(s, path) == s.server_scripts.filter(|other: Seq<u8>| other == path).map_values(
            |other: Seq<u8>| true,
        ) + s.client_scripts.filter(|other: Seq<u8>| other == path).map_values(
            |other: Seq<u8>| false,
        ),
{
    let pred = |task: Task| task.path == path;
    let a = side_tasks(s.server_scripts, true);
    let b = side_tasks(s.client_scripts, false);
    Seq::filter_distributes_over_add(a, b, pred);
    lemma_turns_of_side(s.server_scripts, true, path, s.server_scripts.len() as int);
    lemma_turns_of_side(s.client_scripts, false, path, s.client_scripts.len() as int);
    assert(a.take(s.server_scripts.len() as int) =~= a);
    assert(b.take(s.client_scripts.len() as int) =~= b);
    assert(s.server_scripts.take(s.server_scripts.len() as int) =~= s.server_scripts);
    assert(s.client_scripts.take(s.client_scripts.len() as int) =~= s.client_scripts);
    assert(turns(s, path) =~= a.filter(pred).map_values(|task: Task| task.server) + b.filter(
        pred,
    ).map_values(|task: Task| task.server));
}

proof fn lemma_turns_of_side(paths: Seq<Seq<u8>>, server: bool, path: Seq<u8>, n: int)
    requires
        0 <= n <= paths.len(),
    ensures
        side_tasks(paths, server).take(n).filter(|task: Task| task.path == path).map_values(
            |task: Task| task.server,
        ) == paths.take(n).filter(|other: Seq<u8>| other == path).map_values(
            |other: Seq<u8>| server,
        ),
    decreases n,
{
    reveal(Seq::filter);
    let tasks = side_tasks(paths, server);
    let p = |task: Task| task.path == path;
    let q = |other: Seq<u8>| other == path;
    let f = |task: Task| task.server;
    let g = |other: Seq<u8>| server;
    let x = tasks.take(n);
    let y = paths.take(n);
    if n > 0 {
        lemma_turns_of_side(paths, server, path, n - 1);
        let x0 = tasks.take(n - 1);
        let y0 = paths.take(n - 1);
        assert(x.drop_last() =~= x0);
        assert(y.drop_last() =~= y0);
        assert(x.last() == tasks[n - 1]);
        assert(x.last().path == y.last());
        assert(x0.filter(p).map_values(f) == y0.filter(q).map_values(g));
        if p(x.last()) {
            assert(x.filter(p).map_values(f) =~= x0.filter(p).map_values(f).push(server));
            assert(y.filter(q).map_values(g) =~= y0.filter(q).map_values(g).push(server));
        }
    } else {
        assert(x.filter(p).map_values(f) =~= Seq::<bool>::empty());
        assert(y.filter(q).map_values(g) =~= Seq::<bool>::empty());
    }
}

/// What takes the place of names was drawn for that, one UUID for every name that shares its
/// replacement with others, and one for every ESX callback.
pub proof fn law_replacements_are_drawn(
    s: State,
    before: Seq<Seq<char>>,
    end: State,
    after: Seq<Seq<char>>,
)
    requires
        is_finished(s, before, end, after),
    ensures
        ({
            let n = before.len() as int;
            let m = n + first_seen(shared_names(s)).len();
            &&& before.is_prefix_of(after)
            &&& after.len() == m + s.esx.old.names.len()
            &&& forall|i: int| n <= i < after.len() ==> is_uuid(#[trigger] after[i])
            &&& end == finished(s, after.subrange(n, m), after.skip(m))
        }),
{
    let (supply, esx) = choose|supply: Seq<Seq<char>>, esx: Seq<Seq<char>>|
        {
            &&& all_uuids(supply)
            &&& all_uuids(esx)
            &&& supply.len() == first_seen(shared_names(s)).len()
            &&& esx.len() == s.esx.old.names.len()
            &&& after == before + supply + esx
            &&& end == #[trigger] finished(s, supply, esx)
        };
    let n = before.len() as int;
    let m = n + supply.len();
    assert(after.subrange(n, m) =~= supply);
    assert(after.skip(m) =~= esx);
    assert forall|i: int| n <= i < after.len() implies is_uuid(#[trigger] after[i]) by {
        if i < m {
            assert(after[i] == supply[i - n]);
        } else {
            assert(after[i] == esx[i - m]);
        }
    }
}

/// The names of system resources are gathered before those of the others, and on each side from the
/// scripts of that side.
pub proof fn law_order_of_gathering(
    s: State,
    server_codes: Seq<Option<Seq<u8>>>,
    client_codes: Seq<Option<Seq<u8>>>,
)
    ensures
        ({
            let a = with_system_server(s, server_codes);
            let b = with_system_client(a, client_codes);
            let c = with_custom_server(b, server_codes);
            loaded(s, server_codes, client_codes) == with_custom_client(c, client_codes)
        }),
{
}

} // verus!
