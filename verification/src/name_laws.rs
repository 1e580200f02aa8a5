//! What holds of lists of names: which names scripts pass to functions, which of them are put into
//! a list, and what takes their place.
use crate::calls::names_in;
use crate::events::{all_names, script_names};
use crate::names::{admitted, lemma_admitted, no_names, tidy, Names};
use crate::replacement::{concat, first_seen, lemma_first_seen, lemma_next, replacement};
use crate::scrambling_laws::lemma_concat_contains;
use crate::scripts::in_system_resource;
use crate::selection::{lemma_pick_none, lemma_pick_same, lemma_pick_step};
use crate::state::{
    finished, is_system_name, shared_names, system_names, with_custom_client, with_custom_server,
    with_replacements, with_system_client, with_system_server, State,
};
use vstd::prelude::*;

verus! {

/// The names that are put into a list: those found that were neither seen nor blocked, each where
/// it is found first, in order, behind those that were there.
pub proof fn law_admitted_names(list: Names, found: Seq<Seq<char>>, block: Set<Seq<char>>)
    ensures
        admitted(list, found, block).names == list.names + Seq::new(
            found.len(),
            |i: int| i,
        ).filter(
            |i: int|
                !block.contains(found[i]) && !list.seen.contains(found[i]) && forall|j: int|
                    0 <= j < i ==> #[trigger] found[j] != found[i],
        ).map_values(|i: int| found[i]),
        forall|name: Seq<char>| #[trigger]
            admitted(list, found, block).seen.contains(name) <==> list.seen.contains(name) || (
            !block.contains(name) && exists|i: int|
                0 <= i < found.len() && #[trigger] found[i] == name),
    decreases found.len(),
{
    let p = |i: int|
        !block.contains(found[i]) && !list.seen.contains(found[i]) && forall|j: int|
            0 <= j < i ==> #[trigger] found[j] != found[i];
    let f = |i: int| found[i];
    let after = admitted(list, found, block);
    if found.len() > 0 {
        let front = found.drop_last();
        let n = front.len();
        let before = admitted(list, front, block);
        law_admitted_names(list, front, block);
        let q = |i: int|
            !block.contains(front[i]) && !list.seen.contains(front[i]) && forall|j: int|
                0 <= j < i ==> #[trigger] front[j] != front[i];
        assert forall|i: int| 0 <= i < n implies #[trigger] q(i) == p(i) && front[i]
            == found[i] by {
            if q(i) {
                assert forall|j: int| 0 <= j < i implies #[trigger] found[j] != found[i] by {
                    assert(front[j] != front[i]);
                }
            }
            if p(i) {
                assert forall|j: int| 0 <= j < i implies #[trigger] front[j] != front[i] by {
                    assert(found[j] != found[i]);
                }
            }
        }
        lemma_pick_same(n, q, |i: int| front[i], p, f);
        lemma_pick_step(n, p, f);
        let last = found.last();
        assert(found[n as int] == last);
        assert(before.seen.contains(last) <==> list.seen.contains(last) || (!block.contains(last)
            && exists|i: int| 0 <= i < front.len() && #[trigger] front[i] == last));
        assert(p(n as int) <==> !block.contains(last) && !before.seen.contains(last)) by {
            if p(n as int) && before.seen.contains(last) {
                let i = choose|i: int| 0 <= i < front.len() && #[trigger] front[i] == last;
                assert(found[i] != found[n as int]);
            }
            if !block.contains(last) && !before.seen.contains(last) {
                assert forall|j: int| 0 <= j < n implies #[trigger] found[j] != found[n as int] by {
                    assert(front[j] == found[j]);
                }
            }
        }
        let picked = Seq::new(n, |i: int| i).filter(p).map_values(f);
        assert(after.names =~= list.names + Seq::new(found.len(), |i: int| i).filter(p).map_values(
            f,
        ));
        assert forall|name: Seq<char>| #[trigger] after.seen.contains(name) <==> list.seen.contains(
            name,
        ) || (!block.contains(name) && exists|i: int|
            0 <= i < found.len() && #[trigger] found[i] == name) by {
            if exists|i: int| 0 <= i < front.len() && #[trigger] front[i] == name {
                let i = choose|i: int| 0 <= i < front.len() && #[trigger] front[i] == name;
                assert(found[i] == name);
            }
            if exists|i: int| 0 <= i < found.len() && #[trigger] found[i] == name {
                let i = choose|i: int| 0 <= i < found.len() && #[trigger] found[i] == name;
                if i < n {
                    assert(front[i] == name);
                }
            }
            assert(before.seen.contains(name) <==> list.seen.contains(name) || (!block.contains(
                name,
            ) && exists|i: int| 0 <= i < front.len() && #[trigger] front[i] == name));
        }
    } else {
        lemma_pick_none(p, f);
        assert(list.names + Seq::<Seq<char>>::empty() =~= list.names);
    }
}

/// The names that are first seen are those of the list, each where it stands first, in order.
pub proof fn law_first_seen(all: Seq<Seq<char>>)
    ensures
        first_seen(all) == Seq::new(all.len(), |i: int| i).filter(
            |i: int| forall|j: int| 0 <= j < i ==> #[trigger] all[j] != all[i],
        ).map_values(|i: int| all[i]),
{
    law_admitted_names(no_names(), all, Set::empty());
    let f = |i: int| all[i];
    let p = |i: int|
        !Set::<Seq<char>>::empty().contains(all[i]) && !no_names().seen.contains(all[i])
            && forall|j: int| 0 <= j < i ==> #[trigger] all[j] != all[i];
    let q = |i: int| forall|j: int| 0 <= j < i ==> #[trigger] all[j] != all[i];
    lemma_pick_same(all.len(), p, f, q, f);
    assert(first_seen(all) =~= Seq::new(all.len(), |i: int| i).filter(p).map_values(f));
}

/// A name takes from the supply the item whose place is the number of different names that are seen
/// before it.
pub proof fn law_replacement(all: Seq<Seq<char>>, supply: Seq<Seq<char>>, i: int)
    requires
        0 <= i < all.len(),
        forall|j: int| 0 <= j < i ==> #[trigger] all[j] != all[i],
    ensures
        replacement(all, supply, all[i]) == supply[all.take(i).to_set().len() as int],
{
    let done = all.take(i);
    let seen = first_seen(done);
    assert(done.push(all[i]) =~= all.take(i + 1));
    assert(all.take(i + 1).is_prefix_of(all));
    lemma_next(done, all[i], all);
    lemma_first_seen(done);
    seen.unique_seq_to_set();
    assert(seen.to_set() =~= done.to_set()) by {
        assert forall|name: Seq<char>| seen.to_set().contains(name) <==> #[trigger]
            done.to_set().contains(name) by {
            assert(seen.contains(name) <==> done.contains(name));
        }
    }
    if done.contains(all[i]) {
        let j = choose|j: int| 0 <= j < done.len() && done[j] == all[i];
        assert(all[j] != all[i]);
    }
}

/// Names of all sorts but ESX callbacks share their replacements.
pub proof fn law_shared_names(s: State)
    ensures
        shared_names(s) == s.server.old.names + s.net.old.names + s.client.old.names
            + s.oxlib.old.names + s.qbcore.old.names,
{
    reveal_with_fuel(concat, 6);
    let lists = seq![
        s.server.old.names,
        s.net.old.names,
        s.client.old.names,
        s.oxlib.old.names,
        s.qbcore.old.names,
    ];
    let four = lists.drop_last();
    let three = four.drop_last();
    let two = three.drop_last();
    let one = two.drop_last();
    assert(one.drop_last() =~= Seq::empty());
    assert(shared_names(s) =~= s.server.old.names + s.net.old.names + s.client.old.names
        + s.oxlib.old.names + s.qbcore.old.names);
}

/// When names are replaced, every name has one replacement, at its place: that of the name, or for
/// ESX callbacks the one that was given. The names stay, and nothing else is touched.
pub proof fn law_names_are_replaced(s: State, supply: Seq<Seq<char>>, esx: Seq<Seq<char>>)
    ensures
        ({
            let t = with_replacements(s, supply, esx);
            &&& t.server.old == s.server.old
            &&& t.net.old == s.net.old
            &&& t.client.old == s.client.old
            &&& t.oxlib.old == s.oxlib.old
            &&& t.qbcore.old == s.qbcore.old
            &&& t.esx.old == s.esx.old
            &&& t.server.new == s.server.old.names.map_values(
                |name: Seq<char>| replacement(shared_names(s), supply, name),
            )
            &&& t.net.new == s.net.old.names.map_values(
                |name: Seq<char>| replacement(shared_names(s), supply, name),
            )
            &&& t.client.new == s.client.old.names.map_values(
                |name: Seq<char>| replacement(shared_names(s), supply, name),
            )
            &&& t.oxlib.new == s.oxlib.old.names.map_values(
                |name: Seq<char>| replacement(shared_names(s), supply, name),
            )
            &&& t.qbcore.new == s.qbcore.old.names.map_values(
                |name: Seq<char>| replacement(shared_names(s), supply, name),
            )
            &&& t.esx.new == esx
            &&& t.loader == s.loader
            &&& t.system_server == s.system_server
            &&& t.system_net == s.system_net
            &&& t.system_client == s.system_client
            &&& t.system_oxlib == s.system_oxlib
            &&& t.server_scripts == s.server_scripts
            &&& t.client_scripts == s.client_scripts
            &&& t.directories == s.directories
            &&& t.target == s.target
        }),
{
    let t = with_replacements(s, supply, esx);
    let new = |name: Seq<char>| replacement(shared_names(s), supply, name);
    assert(t.server.new =~= s.server.old.names.map_values(new));
    assert(t.net.new =~= s.net.old.names.map_values(new));
    assert(t.client.new =~= s.client.old.names.map_values(new));
    assert(t.oxlib.new =~= s.oxlib.old.names.map_values(new));
    assert(t.qbcore.new =~= s.qbcore.old.names.map_values(new));
}

/// Names of the system are put behind the others of their sort, and each takes its own place.
pub proof fn law_system_names_are_fixed(s: State, supply: Seq<Seq<char>>, esx: Seq<Seq<char>>)
    ensures
        ({
            let a = with_replacements(s, supply, esx);
            let t = finished(s, supply, esx);
            &&& t.server.old.names == s.server.old.names + s.system_server.names
            &&& t.server.new == a.server.new + s.system_server.names
            &&& t.net.old.names == s.net.old.names + s.system_net.names
            &&& t.net.new == a.net.new + s.system_net.names
            &&& t.client.old.names == s.client.old.names + s.system_client.names
            &&& t.client.new == a.client.new + s.system_client.names
            &&& t.oxlib.old.names == s.oxlib.old.names + s.system_oxlib.names
            &&& t.oxlib.new == a.oxlib.new + s.system_oxlib.names
            &&& t.esx == a.esx
            &&& t.qbcore == a.qbcore
            &&& t.loader == s.loader
            &&& t.system_server == s.system_server
            &&& t.system_net == s.system_net
            &&& t.system_client == s.system_client
            &&& t.system_oxlib == s.system_oxlib
            &&& t.server_scripts == s.server_scripts
            &&& t.client_scripts == s.client_scripts
            &&& t.directories == s.directories
            &&& t.target == s.target
        }),
{
}

/// The names that a script passes to functions are those passed to the first, then those passed to
/// the second, and so on.
pub proof fn law_script_names(code: Seq<u8>, calls: Seq<Seq<char>>)
    ensures
        script_names(code, calls) == calls.map_values(
            |func: Seq<char>| names_in(func, code),
        ).flatten(),
    decreases calls.len(),
{
    let own = |func: Seq<char>| names_in(func, code);
    if calls.len() > 0 {
        let front = calls.drop_last();
        law_script_names(code, front);
        assert(calls.map_values(own) =~= front.map_values(own).push(own(calls.last())));
        front.map_values(own).lemma_flatten_push(own(calls.last()));
    }
}

/// The names that scripts pass to functions, script after script: those of system resources or
/// those of the others, as far as they could be read.
pub proof fn law_all_names(
    paths: Seq<Seq<u8>>,
    codes: Seq<Option<Seq<u8>>>,
    system: bool,
    calls: Seq<Seq<char>>,
)
    ensures
        all_names(paths, codes, system, calls) == Seq::new(
            paths.len(),
            |i: int|
                if codes[i] is Some && in_system_resource(paths[i]) == system {
                    script_names(codes[i]->0, calls)
                } else {
                    Seq::empty()
                },
        ).flatten(),
    decreases paths.len(),
{
    let lists = Seq::new(
        paths.len(),
        |i: int|
            if codes[i] is Some && in_system_resource(paths[i]) == system {
                script_names(codes[i]->0, calls)
            } else {
                Seq::empty()
            },
    );
    if paths.len() > 0 {
        let front = paths.drop_last();
        law_all_names(front, codes, system, calls);
        let before = Seq::new(
            front.len(),
            |i: int|
                if codes[i] is Some && in_system_resource(front[i]) == system {
                    script_names(codes[i]->0, calls)
                } else {
                    Seq::empty()
                },
        );
        assert(lists =~= before.push(lists.last()));
        before.lemma_flatten_push(lists.last());
    }
}

/// Which names are in a list after those of scripts were put into it.
proof fn lemma_members(
    list: Names,
    paths: Seq<Seq<u8>>,
    codes: Seq<Option<Seq<u8>>>,
    system: bool,
    calls: Seq<Seq<char>>,
    block: Set<Seq<char>>,
    name: Seq<char>,
)
    requires
        tidy(list),
    ensures
        admitted(list, all_names(paths, codes, system, calls), block).names.contains(name) <==> {
            ||| list.names.contains(name)
            ||| !block.contains(name) && exists|i: int|
                0 <= i < paths.len() && #[trigger] codes[i] is Some && in_system_resource(paths[i])
                    == system && script_names(codes[i]->0, calls).contains(name)
        },
{
    lemma_admitted(list, all_names(paths, codes, system, calls), block);
    lemma_found(paths, codes, system, calls, name);
}

proof fn lemma_found(
    paths: Seq<Seq<u8>>,
    codes: Seq<Option<Seq<u8>>>,
    system: bool,
    calls: Seq<Seq<char>>,
    name: Seq<char>,
)
    ensures
        all_names(paths, codes, system, calls).contains(name) <==> exists|i: int|
            0 <= i < paths.len() && #[trigger] codes[i] is Some && in_system_resource(paths[i])
                == system && script_names(codes[i]->0, calls).contains(name),
    decreases paths.len(),
{
    if paths.len() > 0 {
        let front = paths.drop_last();
        let n = front.len() as int;
        lemma_found(front, codes, system, calls, name);
        let before = all_names(front, codes, system, calls);
        let own = if codes[n] is Some && in_system_resource(paths[n]) == system {
            script_names(codes[n]->0, calls)
        } else {
            Seq::empty()
        };
        assert(all_names(paths, codes, system, calls) == before + own);
        lemma_concat_contains(before, own, name);
        if before.contains(name) {
            let i = choose|i: int|
                0 <= i < front.len() && #[trigger] codes[i] is Some && in_system_resource(front[i])
                    == system && script_names(codes[i]->0, calls).contains(name);
            assert(front[i] == paths[i] && codes[i] is Some);
        }
        if exists|i: int|
            0 <= i < paths.len() && #[trigger] codes[i] is Some && in_system_resource(paths[i])
                == system && script_names(codes[i]->0, calls).contains(name) {
            let i = choose|i: int|
                0 <= i < paths.len() && #[trigger] codes[i] is Some && in_system_resource(paths[i])
                    == system && script_names(codes[i]->0, calls).contains(name);
            if i < n {
                assert(front[i] == paths[i] && codes[i] is Some);
            }
        }
        if own.contains(name) {
            assert(codes[n] is Some);
        }
    }
}

proof fn lemma_one(code: Seq<u8>, a: Seq<char>, name: Seq<char>)
    ensures
        script_names(code, seq![a]).contains(name) <==> names_in(a, code).contains(name),
{
    reveal_with_fuel(script_names, 2);
    assert(seq![a].drop_last() =~= Seq::<Seq<char>>::empty());
    assert(script_names(code, seq![a]) =~= names_in(a, code));
}

proof fn lemma_two(code: Seq<u8>, a: Seq<char>, b: Seq<char>, name: Seq<char>)
    ensures
        script_names(code, seq![a, b]).contains(name) <==> names_in(a, code).contains(name)
            || names_in(b, code).contains(name),
{
    lemma_one(code, a, name);
    assert(seq![a, b].drop_last() =~= seq![a]);
    lemma_concat_contains(script_names(code, seq![a]), names_in(b, code), name);
}

proof fn lemma_three(code: Seq<u8>, a: Seq<char>, b: Seq<char>, c: Seq<char>, name: Seq<char>)
    ensures
        script_names(code, seq![a, b, c]).contains(name) <==> names_in(a, code).contains(name)
            || names_in(b, code).contains(name) || names_in(c, code).contains(name),
{
    lemma_two(code, a, b, name);
    assert(seq![a, b, c].drop_last() =~= seq![a, b]);
    lemma_concat_contains(script_names(code, seq![a, b]), names_in(c, code), name);
}

/// From the server scripts of system resources the names of server events, net events and ox_lib
/// callbacks are gathered. Which names these are, and in which order they stand, is told by the
/// functions that they are passed to; everything else stays.
pub proof fn law_system_server_lists(s: State, codes: Seq<Option<Seq<u8>>>)
    ensures
        ({
            let t = with_system_server(s, codes);
            let block = Set::<Seq<char>>::empty();
            &&& t.system_server == admitted(
                s.system_server,
                all_names(
                    s.server_scripts,
                    codes,
                    true,
                    seq!["RegisterServerEvent"@, "AddEventHandler"@, "TriggerEvent"@],
                ),
                block,
            )
            &&& t.system_net == admitted(
                s.system_net,
                all_names(
                    s.server_scripts,
                    codes,
                    true,
                    seq!["RegisterNetEvent"@],
                ),
                block,
            )
            &&& t.system_oxlib == admitted(
                s.system_oxlib,
                all_names(
                    s.server_scripts,
                    codes,
                    true,
                    seq!["lib.callback.register"@, "lib.callback.await"@, "lib.callback"@],
                ),
                block,
            )
            &&& t.loader == s.loader
            &&& t.system_client == s.system_client
            &&& t.server == s.server
            &&& t.net == s.net
            &&& t.client == s.client
            &&& t.esx == s.esx
            &&& t.oxlib == s.oxlib
            &&& t.qbcore == s.qbcore
            &&& t.server_scripts == s.server_scripts
            &&& t.client_scripts == s.client_scripts
            &&& t.directories == s.directories
            &&& t.target == s.target
        }),
{
}

/// A name is one of the list `system_server` after this step exactly where it was before, or a
/// server script of a resource of the system passes it to one of the functions.
pub proof fn law_system_server_gathers_system_server(
    s: State,
    codes: Seq<Option<Seq<u8>>>,
    name: Seq<char>,
)
    requires
        tidy(s.system_server),
    ensures
        with_system_server(s, codes).system_server.names.contains(name) <==> {
            ||| s.system_server.names.contains(name)
            ||| exists|i: int|
                0 <= i < s.server_scripts.len() && #[trigger] codes[i] is Some
                    && in_system_resource(s.server_scripts[i]) && {
                    ||| names_in("RegisterServerEvent"@, codes[i]->0).contains(name)
                    ||| names_in("AddEventHandler"@, codes[i]->0).contains(name)
                    ||| names_in("TriggerEvent"@, codes[i]->0).contains(name)
                }
        },
{
    let calls = seq!["RegisterServerEvent"@, "AddEventHandler"@, "TriggerEvent"@];
    law_system_server_lists(s, codes);
    let block = Set::<Seq<char>>::empty();
    lemma_members(s.system_server, s.server_scripts, codes, true, calls, block, name);
    assert forall|i: int| 0 <= i < s.server_scripts.len() && #[trigger] codes[i] is Some implies (
    script_names(codes[i]->0, calls).contains(name) <==> {
        ||| names_in("RegisterServerEvent"@, codes[i]->0).contains(name)
        ||| names_in("AddEventHandler"@, codes[i]->0).contains(name)
        ||| names_in("TriggerEvent"@, codes[i]->0).contains(name)
    }) by {
        lemma_three(codes[i]->0, "RegisterServerEvent"@, "AddEventHandler"@, "TriggerEvent"@, name);
    }
}

/// A name is one of the list `system_net` after this step exactly where it was before, or a server
/// script of a resource of the system passes it to one of the functions.
pub proof fn law_system_server_gathers_system_net(
    s: State,
    codes: Seq<Option<Seq<u8>>>,
    name: Seq<char>,
)
    requires
        tidy(s.system_net),
    ensures
        with_system_server(s, codes).system_net.names.contains(name) <==> {
            ||| s.system_net.names.contains(name)
            ||| exists|i: int|
                0 <= i < s.server_scripts.len() && #[trigger] codes[i] is Some
                    && in_system_resource(s.server_scripts[i]) && {
                    ||| names_in("RegisterNetEvent"@, codes[i]->0).contains(name)
                }
        },
{
    let calls = seq!["RegisterNetEvent"@];
    law_system_server_lists(s, codes);
    let block = Set::<Seq<char>>::empty();
    lemma_members(s.system_net, s.server_scripts, codes, true, calls, block, name);
    assert forall|i: int| 0 <= i < s.server_scripts.len() && #[trigger] codes[i] is Some implies (
    script_names(codes[i]->0, calls).contains(name) <==> {
        ||| names_in("RegisterNetEvent"@, codes[i]->0).contains(name)
    }) by {
        lemma_one(codes[i]->0, "RegisterNetEvent"@, name);
    }
}

/// A name is one of the list `system_oxlib` after this step exactly where it was before, or a
/// server script of a resource of the system passes it to one of the functions.
pub proof fn law_system_server_gathers_system_oxlib(
    s: State,
    codes: Seq<Option<Seq<u8>>>,
    name: Seq<char>,
)
    requires
        tidy(s.system_oxlib),
    ensures
        with_system_server(s, codes).system_oxlib.names.contains(name) <==> {
            ||| s.system_oxlib.names.contains(name)
            ||| exists|i: int|
                0 <= i < s.server_scripts.len() && #[trigger] codes[i] is Some
                    && in_system_resource(s.server_scripts[i]) && {
                    ||| names_in("lib.callback.register"@, codes[i]->0).contains(name)
                    ||| names_in("lib.callback.await"@, codes[i]->0).contains(name)
                    ||| names_in("lib.callback"@, codes[i]->0).contains(name)
                }
        },
{
    let calls = seq!["lib.callback.register"@, "lib.callback.await"@, "lib.callback"@];
    law_system_server_lists(s, codes);
    let block = Set::<Seq<char>>::empty();
    lemma_members(s.system_oxlib, s.server_scripts, codes, true, calls, block, name);
    assert forall|i: int| 0 <= i < s.server_scripts.len() && #[trigger] codes[i] is Some implies (
    script_names(codes[i]->0, calls).contains(name) <==> {
        ||| names_in("lib.callback.register"@, codes[i]->0).contains(name)
        ||| names_in("lib.callback.await"@, codes[i]->0).contains(name)
        ||| names_in("lib.callback"@, codes[i]->0).contains(name)
    }) by {
        lemma_three(
            codes[i]->0,
            "lib.callback.register"@,
            "lib.callback.await"@,
            "lib.callback"@,
            name,
        );
    }
}

/// From the client scripts of system resources the names of net events, client events and ox_lib
/// callbacks are gathered. Which names these are, and in which order they stand, is told by the
/// functions that they are passed to; everything else stays.
pub proof fn law_system_client_lists(s: State, codes: Seq<Option<Seq<u8>>>)
    ensures
        ({
            let t = with_system_client(s, codes);
            let block = Set::<Seq<char>>::empty();
            &&& t.system_net == admitted(
                s.system_net,
                all_names(
                    s.client_scripts,
                    codes,
                    true,
                    seq!["RegisterNetEvent"@],
                ),
                block,
            )
            &&& t.system_client == admitted(
                s.system_client,
                all_names(
                    s.client_scripts,
                    codes,
                    true,
                    seq!["AddEventHandler"@, "TriggerEvent"@],
                ),
                block,
            )
            &&& t.system_oxlib == admitted(
                s.system_oxlib,
                all_names(
                    s.client_scripts,
                    codes,
                    true,
                    seq!["lib.callback.register"@, "lib.callback.await"@, "lib.callback"@],
                ),
                block,
            )
            &&& t.loader == s.loader
            &&& t.system_server == s.system_server
            &&& t.server == s.server
            &&& t.net == s.net
            &&& t.client == s.client
            &&& t.esx == s.esx
            &&& t.oxlib == s.oxlib
            &&& t.qbcore == s.qbcore
            &&& t.server_scripts == s.server_scripts
            &&& t.client_scripts == s.client_scripts
            &&& t.directories == s.directories
            &&& t.target == s.target
        }),
{
}

/// A name is one of the list `system_net` after this step exactly where it was before, or a client
/// script of a resource of the system passes it to one of the functions.
pub proof fn law_system_client_gathers_system_net(
    s: State,
    codes: Seq<Option<Seq<u8>>>,
    name: Seq<char>,
)
    requires
        tidy(s.system_net),
    ensures
        with_system_client(s, codes).system_net.names.contains(name) <==> {
            ||| s.system_net.names.contains(name)
            ||| exists|i: int|
                0 <= i < s.client_scripts.len() && #[trigger] codes[i] is Some
                    && in_system_resource(s.client_scripts[i]) && {
                    ||| names_in("RegisterNetEvent"@, codes[i]->0).contains(name)
                }
        },
{
    let calls = seq!["RegisterNetEvent"@];
    law_system_client_lists(s, codes);
    let block = Set::<Seq<char>>::empty();
    lemma_members(s.system_net, s.client_scripts, codes, true, calls, block, name);
    assert forall|i: int| 0 <= i < s.client_scripts.len() && #[trigger] codes[i] is Some implies (
    script_names(codes[i]->0, calls).contains(name) <==> {
        ||| names_in("RegisterNetEvent"@, codes[i]->0).contains(name)
    }) by {
        lemma_one(codes[i]->0, "RegisterNetEvent"@, name);
    }
}

/// A name is one of the list `system_client` after this step exactly where it was before, or a
/// client script of a resource of the system passes it to one of the functions.
pub proof fn law_system_client_gathers_system_client(
    s: State,
    codes: Seq<Option<Seq<u8>>>,
    name: Seq<char>,
)
    requires
        tidy(s.system_client),
    ensures
        with_system_client(s, codes).system_client.names.contains(name) <==> {
            ||| s.system_client.names.contains(name)
            ||| exists|i: int|
                0 <= i < s.client_scripts.len() && #[trigger] codes[i] is Some
                    && in_system_resource(s.client_scripts[i]) && {
                    ||| names_in("AddEventHandler"@, codes[i]->0).contains(name)
                    ||| names_in("TriggerEvent"@, codes[i]->0).contains(name)
                }
        },
{
    let calls = seq!["AddEventHandler"@, "TriggerEvent"@];
    law_system_client_lists(s, codes);
    let block = Set::<Seq<char>>::empty();
    lemma_members(s.system_client, s.client_scripts, codes, true, calls, block, name);
    assert forall|i: int| 0 <= i < s.client_scripts.len() && #[trigger] codes[i] is Some implies (
    script_names(codes[i]->0, calls).contains(name) <==> {
        ||| names_in("AddEventHandler"@, codes[i]->0).contains(name)
        ||| names_in("TriggerEvent"@, codes[i]->0).contains(name)
    }) by {
        lemma_two(codes[i]->0, "AddEventHandler"@, "TriggerEvent"@, name);
    }
}

/// A name is one of the list `system_oxlib` after this step exactly where it was before, or a
/// client script of a resource of the system passes it to one of the functions.
pub proof fn law_system_client_gathers_system_oxlib(
    s: State,
    codes: Seq<Option<Seq<u8>>>,
    name: Seq<char>,
)
    requires
        tidy(s.system_oxlib),
    ensures
        with_system_client(s, codes).system_oxlib.names.contains(name) <==> {
            ||| s.system_oxlib.names.contains(name)
            ||| exists|i: int|
                0 <= i < s.client_scripts.len() && #[trigger] codes[i] is Some
                    && in_system_resource(s.client_scripts[i]) && {
                    ||| names_in("lib.callback.register"@, codes[i]->0).contains(name)
                    ||| names_in("lib.callback.await"@, codes[i]->0).contains(name)
                    ||| names_in("lib.callback"@, codes[i]->0).contains(name)
                }
        },
{
    let calls = seq!["lib.callback.register"@, "lib.callback.await"@, "lib.callback"@];
    law_system_client_lists(s, codes);
    let block = Set::<Seq<char>>::empty();
    lemma_members(s.system_oxlib, s.client_scripts, codes, true, calls, block, name);
    assert forall|i: int| 0 <= i < s.client_scripts.len() && #[trigger] codes[i] is Some implies (
    script_names(codes[i]->0, calls).contains(name) <==> {
        ||| names_in("lib.callback.register"@, codes[i]->0).contains(name)
        ||| names_in("lib.callback.await"@, codes[i]->0).contains(name)
        ||| names_in("lib.callback"@, codes[i]->0).contains(name)
    }) by {
        lemma_three(
            codes[i]->0,
            "lib.callback.register"@,
            "lib.callback.await"@,
            "lib.callback"@,
            name,
        );
    }
}

/// From the server scripts of other resources the names of server events, net events and callbacks
/// are gathered, but for those of the system. Which names these are, and in which order they stand,
/// is told by the functions that they are passed to; everything else stays.
pub proof fn law_custom_server_lists(s: State, codes: Seq<Option<Seq<u8>>>)
    ensures
        ({
            let t = with_custom_server(s, codes);
            let block = Set::new(
                |name: Seq<char>|
                    s.system_server.names.contains(name) || s.system_net.names.contains(name)
                        || s.system_client.names.contains(name) || s.system_oxlib.names.contains(
                        name,
                    ),
            );
            &&& t.server.old == admitted(
                s.server.old,
                all_names(
                    s.server_scripts,
                    codes,
                    false,
                    seq!["RegisterServerEvent"@, "AddEventHandler"@, "TriggerEvent"@],
                ),
                block,
            )
            &&& t.server.new == s.server.new
            &&& t.net.old == admitted(
                s.net.old,
                all_names(
                    s.server_scripts,
                    codes,
                    false,
                    seq!["RegisterNetEvent"@],
                ),
                block,
            )
            &&& t.net.new == s.net.new
            &&& t.esx.old == admitted(
                s.esx.old,
                all_names(
                    s.server_scripts,
                    codes,
                    false,
                    seq!["ESX.RegisterServerCallback"@],
                ),
                block,
            )
            &&& t.esx.new == s.esx.new
            &&& t.oxlib.old == admitted(
                s.oxlib.old,
                all_names(
                    s.server_scripts,
                    codes,
                    false,
                    seq!["lib.callback.register"@, "lib.callback.await"@, "lib.callback"@],
                ),
                block,
            )
            &&& t.oxlib.new == s.oxlib.new
            &&& t.qbcore.old == admitted(
                s.qbcore.old,
                all_names(
                    s.server_scripts,
                    codes,
                    false,
                    seq!["QBCore.Functions.CreateCallback"@],
                ),
                block,
            )
            &&& t.qbcore.new == s.qbcore.new
            &&& t.loader == s.loader
            &&& t.system_server == s.system_server
            &&& t.system_net == s.system_net
            &&& t.system_client == s.system_client
            &&& t.system_oxlib == s.system_oxlib
            &&& t.client == s.client
            &&& t.server_scripts == s.server_scripts
            &&& t.client_scripts == s.client_scripts
            &&& t.directories == s.directories
            &&& t.target == s.target
        }),
{
    assert(system_names(s) =~= Set::new(
        |name: Seq<char>|
            s.system_server.names.contains(name) || s.system_net.names.contains(name)
                || s.system_client.names.contains(name) || s.system_oxlib.names.contains(
                name,
            ),
    ));
}

/// A name is one of the list `server` after this step exactly where it was before, or a server
/// script of a resource that is not of the system passes it to one of the functions, and it is no
/// name of the system.
pub proof fn law_custom_server_gathers_server(
    s: State,
    codes: Seq<Option<Seq<u8>>>,
    name: Seq<char>,
)
    requires
        tidy(s.server.old),
    ensures
        with_custom_server(s, codes).server.old.names.contains(name) <==> {
            ||| s.server.old.names.contains(name)
            ||| !s.system_server.names.contains(name) && !s.system_net.names.contains(name)
                && !s.system_client.names.contains(name) && !s.system_oxlib.names.contains(name)
                && exists|i: int|
                0 <= i < s.server_scripts.len() && #[trigger] codes[i] is Some
                    && !in_system_resource(s.server_scripts[i]) && {
                    ||| names_in("RegisterServerEvent"@, codes[i]->0).contains(name)
                    ||| names_in("AddEventHandler"@, codes[i]->0).contains(name)
                    ||| names_in("TriggerEvent"@, codes[i]->0).contains(name)
                }
        },
{
    let calls = seq!["RegisterServerEvent"@, "AddEventHandler"@, "TriggerEvent"@];
    law_custom_server_lists(s, codes);
    let block = Set::new(
        |name: Seq<char>|
            s.system_server.names.contains(name) || s.system_net.names.contains(name)
                || s.system_client.names.contains(name) || s.system_oxlib.names.contains(
                name,
            ),
    );
    lemma_members(s.server.old, s.server_scripts, codes, false, calls, block, name);
    assert forall|i: int| 0 <= i < s.server_scripts.len() && #[trigger] codes[i] is Some implies (
    script_names(codes[i]->0, calls).contains(name) <==> {
        ||| names_in("RegisterServerEvent"@, codes[i]->0).contains(name)
        ||| names_in("AddEventHandler"@, codes[i]->0).contains(name)
        ||| names_in("TriggerEvent"@, codes[i]->0).contains(name)
    }) by {
        lemma_three(codes[i]->0, "RegisterServerEvent"@, "AddEventHandler"@, "TriggerEvent"@, name);
    }
}

/// A name is one of the list `net` after this step exactly where it was before, or a server script
/// of a resource that is not of the system passes it to one of the functions, and it is no name of
/// the system.
pub proof fn law_custom_server_gathers_net(s: State, codes: Seq<Option<Seq<u8>>>, name: Seq<char>)
    requires
        tidy(s.net.old),
    ensures
        with_custom_server(s, codes).net.old.names.contains(name) <==> {
            ||| s.net.old.names.contains(name)
            ||| !s.system_server.names.contains(name) && !s.system_net.names.contains(name)
                && !s.system_client.names.contains(name) && !s.system_oxlib.names.contains(name)
                && exists|i: int|
                0 <= i < s.server_scripts.len() && #[trigger] codes[i] is Some
                    && !in_system_resource(s.server_scripts[i]) && {
                    ||| names_in("RegisterNetEvent"@, codes[i]->0).contains(name)
                }
        },
{
    let calls = seq!["RegisterNetEvent"@];
    law_custom_server_lists(s, codes);
    let block = Set::new(
        |name: Seq<char>|
            s.system_server.names.contains(name) || s.system_net.names.contains(name)
                || s.system_client.names.contains(name) || s.system_oxlib.names.contains(
                name,
            ),
    );
    lemma_members(s.net.old, s.server_scripts, codes, false, calls, block, name);
    assert forall|i: int| 0 <= i < s.server_scripts.len() && #[trigger] codes[i] is Some implies (
    script_names(codes[i]->0, calls).contains(name) <==> {
        ||| names_in("RegisterNetEvent"@, codes[i]->0).contains(name)
    }) by {
        lemma_one(codes[i]->0, "RegisterNetEvent"@, name);
    }
}

/// A name is one of the list `esx` after this step exactly where it was before, or a server script
/// of a resource that is not of the system passes it to one of the functions, and it is no name of
/// the system.
pub proof fn law_custom_server_gathers_esx(s: State, codes: Seq<Option<Seq<u8>>>, name: Seq<char>)
    requires
        tidy(s.esx.old),
    ensures
        with_custom_server(s, codes).esx.old.names.contains(name) <==> {
            ||| s.esx.old.names.contains(name)
            ||| !s.system_server.names.contains(name) && !s.system_net.names.contains(name)
                && !s.system_client.names.contains(name) && !s.system_oxlib.names.contains(name)
                && exists|i: int|
                0 <= i < s.server_scripts.len() && #[trigger] codes[i] is Some
                    && !in_system_resource(s.server_scripts[i]) && {
                    ||| names_in("ESX.RegisterServerCallback"@, codes[i]->0).contains(name)
                }
        },
{
    let calls = seq!["ESX.RegisterServerCallback"@];
    law_custom_server_lists(s, codes);
    let block = Set::new(
        |name: Seq<char>|
            s.system_server.names.contains(name) || s.system_net.names.contains(name)
                || s.system_client.names.contains(name) || s.system_oxlib.names.contains(
                name,
            ),
    );
    lemma_members(s.esx.old, s.server_scripts, codes, false, calls, block, name);
    assert forall|i: int| 0 <= i < s.server_scripts.len() && #[trigger] codes[i] is Some implies (
    script_names(codes[i]->0, calls).contains(name) <==> {
        ||| names_in("ESX.RegisterServerCallback"@, codes[i]->0).contains(name)
    }) by {
        lemma_one(codes[i]->0, "ESX.RegisterServerCallback"@, name);
    }
}

/// A name is one of the list `oxlib` after this step exactly where it was before, or a server
/// script of a resource that is not of the system passes it to one of the functions, and it is no
/// name of the system.
pub proof fn law_custom_server_gathers_oxlib(s: State, codes: Seq<Option<Seq<u8>>>, name: Seq<char>)
    requires
        tidy(s.oxlib.old),
    ensures
        with_custom_server(s, codes).oxlib.old.names.contains(name) <==> {
            ||| s.oxlib.old.names.contains(name)
            ||| !s.system_server.names.contains(name) && !s.system_net.names.contains(name)
                && !s.system_client.names.contains(name) && !s.system_oxlib.names.contains(name)
                && exists|i: int|
                0 <= i < s.server_scripts.len() && #[trigger] codes[i] is Some
                    && !in_system_resource(s.server_scripts[i]) && {
                    ||| names_in("lib.callback.register"@, codes[i]->0).contains(name)
                    ||| names_in("lib.callback.await"@, codes[i]->0).contains(name)
                    ||| names_in("lib.callback"@, codes[i]->0).contains(name)
                }
        },
{
    let calls = seq!["lib.callback.register"@, "lib.callback.await"@, "lib.callback"@];
    law_custom_server_lists(s, codes);
    let block = Set::new(
        |name: Seq<char>|
            s.system_server.names.contains(name) || s.system_net.names.contains(name)
                || s.system_client.names.contains(name) || s.system_oxlib.names.contains(
                name,
            ),
    );
    lemma_members(s.oxlib.old, s.server_scripts, codes, false, calls, block, name);
    assert forall|i: int| 0 <= i < s.server_scripts.len() && #[trigger] codes[i] is Some implies (
    script_names(codes[i]->0, calls).contains(name) <==> {
        ||| names_in("lib.callback.register"@, codes[i]->0).contains(name)
        ||| names_in("lib.callback.await"@, codes[i]->0).contains(name)
        ||| names_in("lib.callback"@, codes[i]->0).contains(name)
    }) by {
        lemma_three(
            codes[i]->0,
            "lib.callback.register"@,
            "lib.callback.await"@,
            "lib.callback"@,
            name,
        );
    }
}

/// A name is one of the list `qbcore` after this step exactly where it was before, or a server
/// script of a resource that is not of the system passes it to one of the functions, and it is no
/// name of the system.
pub proof fn law_custom_server_gathers_qbcore(
    s: State,
    codes: Seq<Option<Seq<u8>>>,
    name: Seq<char>,
)
    requires
        tidy(s.qbcore.old),
    ensures
        with_custom_server(s, codes).qbcore.old.names.contains(name) <==> {
            ||| s.qbcore.old.names.contains(name)
            ||| !s.system_server.names.contains(name) && !s.system_net.names.contains(name)
                && !s.system_client.names.contains(name) && !s.system_oxlib.names.contains(name)
                && exists|i: int|
                0 <= i < s.server_scripts.len() && #[trigger] codes[i] is Some
                    && !in_system_resource(s.server_scripts[i]) && {
                    ||| names_in("QBCore.Functions.CreateCallback"@, codes[i]->0).contains(name)
                }
        },
{
    let calls = seq!["QBCore.Functions.CreateCallback"@];
    law_custom_server_lists(s, codes);
    let block = Set::new(
        |name: Seq<char>|
            s.system_server.names.contains(name) || s.system_net.names.contains(name)
                || s.system_client.names.contains(name) || s.system_oxlib.names.contains(
                name,
            ),
    );
    lemma_members(s.qbcore.old, s.server_scripts, codes, false, calls, block, name);
    assert forall|i: int| 0 <= i < s.server_scripts.len() && #[trigger] codes[i] is Some implies (
    script_names(codes[i]->0, calls).contains(name) <==> {
        ||| names_in("QBCore.Functions.CreateCallback"@, codes[i]->0).contains(name)
    }) by {
        lemma_one(codes[i]->0, "QBCore.Functions.CreateCallback"@, name);
    }
}

/// From the client scripts of other resources the names of net events, client events and callbacks
/// are gathered, but for those of the system. Which names these are, and in which order they stand,
/// is told by the functions that they are passed to; everything else stays.
pub proof fn law_custom_client_lists(s: State, codes: Seq<Option<Seq<u8>>>)
    ensures
        ({
            let t = with_custom_client(s, codes);
            let block = Set::new(
                |name: Seq<char>|
                    s.system_server.names.contains(name) || s.system_net.names.contains(name)
                        || s.system_client.names.contains(name) || s.system_oxlib.names.contains(
                        name,
                    ),
            );
            &&& t.net.old == admitted(
                s.net.old,
                all_names(
                    s.client_scripts,
                    codes,
                    false,
                    seq!["RegisterNetEvent"@],
                ),
                block,
            )
            &&& t.net.new == s.net.new
            &&& t.client.old == admitted(
                s.client.old,
                all_names(
                    s.client_scripts,
                    codes,
                    false,
                    seq!["AddEventHandler"@, "TriggerEvent"@],
                ),
                block,
            )
            &&& t.client.new == s.client.new
            &&& t.esx.old == admitted(
                s.esx.old,
                all_names(
                    s.client_scripts,
                    codes,
                    false,
                    seq!["ESX.TriggerServerCallback"@],
                ),
                block,
            )
            &&& t.esx.new == s.esx.new
            &&& t.oxlib.old == admitted(
                s.oxlib.old,
                all_names(
                    s.client_scripts,
                    codes,
                    false,
                    seq!["lib.callback.register"@, "lib.callback.await"@, "lib.callback"@],
                ),
                block,
            )
            &&& t.oxlib.new == s.oxlib.new
            &&& t.qbcore.old == admitted(
                s.qbcore.old,
                all_names(
                    s.client_scripts,
                    codes,
                    false,
                    seq!["QBCore.Functions.TriggerCallback"@],
                ),
                block,
            )
            &&& t.qbcore.new == s.qbcore.new
            &&& t.loader == s.loader
            &&& t.system_server == s.system_server
            &&& t.system_net == s.system_net
            &&& t.system_client == s.system_client
            &&& t.system_oxlib == s.system_oxlib
            &&& t.server == s.server
            &&& t.server_scripts == s.server_scripts
            &&& t.client_scripts == s.client_scripts
            &&& t.directories == s.directories
            &&& t.target == s.target
        }),
{
    assert(system_names(s) =~= Set::new(
        |name: Seq<char>|
            s.system_server.names.contains(name) || s.system_net.names.contains(name)
                || s.system_client.names.contains(name) || s.system_oxlib.names.contains(
                name,
            ),
    ));
}

/// A name is one of the list `net` after this step exactly where it was before, or a client script
/// of a resource that is not of the system passes it to one of the functions, and it is no name of
/// the system.
pub proof fn law_custom_client_gathers_net(s: State, codes: Seq<Option<Seq<u8>>>, name: Seq<char>)
    requires
        tidy(s.net.old),
    ensures
        with_custom_client(s, codes).net.old.names.contains(name) <==> {
            ||| s.net.old.names.contains(name)
            ||| !s.system_server.names.contains(name) && !s.system_net.names.contains(name)
                && !s.system_client.names.contains(name) && !s.system_oxlib.names.contains(name)
                && exists|i: int|
                0 <= i < s.client_scripts.len() && #[trigger] codes[i] is Some
                    && !in_system_resource(s.client_scripts[i]) && {
                    ||| names_in("RegisterNetEvent"@, codes[i]->0).contains(name)
                }
        },
{
    let calls = seq!["RegisterNetEvent"@];
    law_custom_client_lists(s, codes);
    let block = Set::new(
        |name: Seq<char>|
            s.system_server.names.contains(name) || s.system_net.names.contains(name)
                || s.system_client.names.contains(name) || s.system_oxlib.names.contains(
                name,
            ),
    );
    lemma_members(s.net.old, s.client_scripts, codes, false, calls, block, name);
    assert forall|i: int| 0 <= i < s.client_scripts.len() && #[trigger] codes[i] is Some implies (
    script_names(codes[i]->0, calls).contains(name) <==> {
        ||| names_in("RegisterNetEvent"@, codes[i]->0).contains(name)
    }) by {
        lemma_one(codes[i]->0, "RegisterNetEvent"@, name);
    }
}

/// A name is one of the list `client` after this step exactly where it was before, or a client
/// script of a resource that is not of the system passes it to one of the functions, and it is no
/// name of the system.
pub proof fn law_custom_client_gathers_client(
    s: State,
    codes: Seq<Option<Seq<u8>>>,
    name: Seq<char>,
)
    requires
        tidy(s.client.old),
    ensures
        with_custom_client(s, codes).client.old.names.contains(name) <==> {
            ||| s.client.old.names.contains(name)
            ||| !s.system_server.names.contains(name) && !s.system_net.names.contains(name)
                && !s.system_client.names.contains(name) && !s.system_oxlib.names.contains(name)
                && exists|i: int|
                0 <= i < s.client_scripts.len() && #[trigger] codes[i] is Some
                    && !in_system_resource(s.client_scripts[i]) && {
                    ||| names_in("AddEventHandler"@, codes[i]->0).contains(name)
                    ||| names_in("TriggerEvent"@, codes[i]->0).contains(name)
                }
        },
{
    let calls = seq!["AddEventHandler"@, "TriggerEvent"@];
    law_custom_client_lists(s, codes);
    let block = Set::new(
        |name: Seq<char>|
            s.system_server.names.contains(name) || s.system_net.names.contains(name)
                || s.system_client.names.contains(name) || s.system_oxlib.names.contains(
                name,
            ),
    );
    lemma_members(s.client.old, s.client_scripts, codes, false, calls, block, name);
    assert forall|i: int| 0 <= i < s.client_scripts.len() && #[trigger] codes[i] is Some implies (
    script_names(codes[i]->0, calls).contains(name) <==> {
        ||| names_in("AddEventHandler"@, codes[i]->0).contains(name)
        ||| names_in("TriggerEvent"@, codes[i]->0).contains(name)
    }) by {
        lemma_two(codes[i]->0, "AddEventHandler"@, "TriggerEvent"@, name);
    }
}

/// A name is one of the list `esx` after this step exactly where it was before, or a client script
/// of a resource that is not of the system passes it to one of the functions, and it is no name of
/// the system.
pub proof fn law_custom_client_gathers_esx(s: State, codes: Seq<Option<Seq<u8>>>, name: Seq<char>)
    requires
        tidy(s.esx.old),
    ensures
        with_custom_client(s, codes).esx.old.names.contains(name) <==> {
            ||| s.esx.old.names.contains(name)
            ||| !s.system_server.names.contains(name) && !s.system_net.names.contains(name)
                && !s.system_client.names.contains(name) && !s.system_oxlib.names.contains(name)
                && exists|i: int|
                0 <= i < s.client_scripts.len() && #[trigger] codes[i] is Some
                    && !in_system_resource(s.client_scripts[i]) && {
                    ||| names_in("ESX.TriggerServerCallback"@, codes[i]->0).contains(name)
                }
        },
{
    let calls = seq!["ESX.TriggerServerCallback"@];
    law_custom_client_lists(s, codes);
    let block = Set::new(
        |name: Seq<char>|
            s.system_server.names.contains(name) || s.system_net.names.contains(name)
                || s.system_client.names.contains(name) || s.system_oxlib.names.contains(
                name,
            ),
    );
    lemma_members(s.esx.old, s.client_scripts, codes, false, calls, block, name);
    assert forall|i: int| 0 <= i < s.client_scripts.len() && #[trigger] codes[i] is Some implies (
    script_names(codes[i]->0, calls).contains(name) <==> {
        ||| names_in("ESX.TriggerServerCallback"@, codes[i]->0).contains(name)
    }) by {
        lemma_one(codes[i]->0, "ESX.TriggerServerCallback"@, name);
    }
}

/// A name is one of the list `oxlib` after this step exactly where it was before, or a client
/// script of a resource that is not of the system passes it to one of the functions, and it is no
/// name of the system.
pub proof fn law_custom_client_gathers_oxlib(s: State, codes: Seq<Option<Seq<u8>>>, name: Seq<char>)
    requires
        tidy(s.oxlib.old),
    ensures
        with_custom_client(s, codes).oxlib.old.names.contains(name) <==> {
            ||| s.oxlib.old.names.contains(name)
            ||| !s.system_server.names.contains(name) && !s.system_net.names.contains(name)
                && !s.system_client.names.contains(name) && !s.system_oxlib.names.contains(name)
                && exists|i: int|
                0 <= i < s.client_scripts.len() && #[trigger] codes[i] is Some
                    && !in_system_resource(s.client_scripts[i]) && {
                    ||| names_in("lib.callback.register"@, codes[i]->0).contains(name)
                    ||| names_in("lib.callback.await"@, codes[i]->0).contains(name)
                    ||| names_in("lib.callback"@, codes[i]->0).contains(name)
                }
        },
{
    let calls = seq!["lib.callback.register"@, "lib.callback.await"@, "lib.callback"@];
    law_custom_client_lists(s, codes);
    let block = Set::new(
        |name: Seq<char>|
            s.system_server.names.contains(name) || s.system_net.names.contains(name)
                || s.system_client.names.contains(name) || s.system_oxlib.names.contains(
                name,
            ),
    );
    lemma_members(s.oxlib.old, s.client_scripts, codes, false, calls, block, name);
    assert forall|i: int| 0 <= i < s.client_scripts.len() && #[trigger] codes[i] is Some implies (
    script_names(codes[i]->0, calls).contains(name) <==> {
        ||| names_in("lib.callback.register"@, codes[i]->0).contains(name)
        ||| names_in("lib.callback.await"@, codes[i]->0).contains(name)
        ||| names_in("lib.callback"@, codes[i]->0).contains(name)
    }) by {
        lemma_three(
            codes[i]->0,
            "lib.callback.register"@,
            "lib.callback.await"@,
            "lib.callback"@,
            name,
        );
    }
}

/// A name is one of the list `qbcore` after this step exactly where it was before, or a client
/// script of a resource that is not of the system passes it to one of the functions, and it is no
/// name of the system.
pub proof fn law_custom_client_gathers_qbcore(
    s: State,
    codes: Seq<Option<Seq<u8>>>,
    name: Seq<char>,
)
    requires
        tidy(s.qbcore.old),
    ensures
        with_custom_client(s, codes).qbcore.old.names.contains(name) <==> {
            ||| s.qbcore.old.names.contains(name)
            ||| !s.system_server.names.contains(name) && !s.system_net.names.contains(name)
                && !s.system_client.names.contains(name) && !s.system_oxlib.names.contains(name)
                && exists|i: int|
                0 <= i < s.client_scripts.len() && #[trigger] codes[i] is Some
                    && !in_system_resource(s.client_scripts[i]) && {
                    ||| names_in("QBCore.Functions.TriggerCallback"@, codes[i]->0).contains(name)
                }
        },
{
    let calls = seq!["QBCore.Functions.TriggerCallback"@];
    law_custom_client_lists(s, codes);
    let block = Set::new(
        |name: Seq<char>|
            s.system_server.names.contains(name) || s.system_net.names.contains(name)
                || s.system_client.names.contains(name) || s.system_oxlib.names.contains(
                name,
            ),
    );
    lemma_members(s.qbcore.old, s.client_scripts, codes, false, calls, block, name);
    assert forall|i: int| 0 <= i < s.client_scripts.len() && #[trigger] codes[i] is Some implies (
    script_names(codes[i]->0, calls).contains(name) <==> {
        ||| names_in("QBCore.Functions.TriggerCallback"@, codes[i]->0).contains(name)
    }) by {
        lemma_one(codes[i]->0, "QBCore.Functions.TriggerCallback"@, name);
    }
}

/// A name is one of the system where one of the four lists of the system holds it.
pub proof fn law_system_names(s: State, name: Seq<char>)
    ensures
        is_system_name(s, name) <==> system_names(s).contains(name),
        system_names(s).contains(name) <==> s.system_server.names.contains(name)
            || s.system_net.names.contains(name) || s.system_client.names.contains(name)
            || s.system_oxlib.names.contains(name),
{
}

} // verus!
