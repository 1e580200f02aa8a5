//! What holds of the names that a scrambler gathers.
use crate::calls::{
    call_sites, is_quote, lemma_first_site, lemma_next_quote, lemma_sites, names_in, next_quote,
    site_name,
};
use crate::events::{
    all_names, client_event_calls, esx_calls, net_event_calls, oxlib_calls, qbcore_calls,
    script_names, server_event_calls,
};
use crate::names::{admitted, lemma_admitted, no_names, tidy, Names};
use crate::rewrite_laws::{no_quotes, quote_free};
use crate::scripts::in_system_resource;
use crate::state::{
    detector_event, initial, is_system_name, system_names, with_custom_client, with_custom_server,
    with_system_client, with_system_server, State,
};
use vstd::prelude::*;
use vstd::utf8::*;

verus! {

/// A list in which no name stands twice or holds a quotation mark.
pub open spec fn good_list(list: Names) -> bool {
    &&& tidy(list)
    &&& all_quote_free(list.names)
}

/// Names without quotation marks.
pub open spec fn all_quote_free(names: Seq<Seq<char>>) -> bool {
    forall|name: Seq<char>| #[trigger] names.contains(name) ==> quote_free(name)
}

/// The name is one of a resource that is not of the system.
pub open spec fn is_custom_name(s: State, name: Seq<char>) -> bool {
    ||| s.server.old.names.contains(name)
    ||| s.net.old.names.contains(name)
    ||| s.client.old.names.contains(name)
    ||| s.esx.old.names.contains(name)
    ||| s.oxlib.old.names.contains(name)
    ||| s.qbcore.old.names.contains(name)
}

/// No names of other resources have been gathered.
pub open spec fn no_custom(s: State) -> bool {
    forall|name: Seq<char>| !#[trigger] is_custom_name(s, name)
}

/// Every list is good, and no name is both one of the system and one of other resources.
pub open spec fn prepared(s: State) -> bool {
    &&& good_list(s.system_server)
    &&& good_list(s.system_net)
    &&& good_list(s.system_client)
    &&& good_list(s.system_oxlib)
    &&& good_list(s.server.old)
    &&& good_list(s.net.old)
    &&& good_list(s.client.old)
    &&& good_list(s.esx.old)
    &&& good_list(s.oxlib.old)
    &&& good_list(s.qbcore.old)
    &&& forall|name: Seq<char>| #[trigger] is_custom_name(s, name) ==> !is_system_name(s, name)
}

proof fn lemma_quoted(text: Seq<char>)
    requires
        no_quotes(encode_utf8(text)),
    ensures
        quote_free(text),
    decreases text.len(),
{
    if text.len() > 0 {
        let c = text[0];
        let head = encode_scalar(c as u32);
        let rest = text.drop_first();
        let tail = encode_utf8(rest);
        assert(encode_utf8(text) == head + tail);
        assert forall|i: int| 0 <= i < tail.len() implies !is_quote(
            #[trigger] tail[i],
        ) by {
            assert((head + tail)[head.len() + i] == tail[i]);
        }
        lemma_quoted(rest);
        assert(c != '"' && c != '\'') by {
            if c == '"' || c == '\'' {
                let s = c as u32;
                assert((s & 0x7F) as u8 == s) by (bit_vector)
                    requires
                        s <= 0x7f,
                ;
                assert((head + tail)[0] == s as u8);
            }
        }
        assert forall|i: int| 0 <= i < text.len() implies #[trigger] text[i] != '"' && text[i]
            != '\'' by {
            if i > 0 {
                assert(text[i] == rest[i - 1]);
            }
        }
    }
}

/// A name at a call holds no quotation mark.
pub proof fn lemma_names_quote_free(func: Seq<char>, code: Seq<u8>, from: int)
    requires
        0 <= from,
    ensures
        forall|k: int|
            0 <= k < call_sites(func, code, from).len() ==> quote_free(
                site_name(code, #[trigger] call_sites(func, code, from)[k]),
            ),
    decreases code.len() - from,
{
    let sites = call_sites(func, code, from);
    lemma_first_site(func, code, from);
    lemma_sites(func, code, from);
    if sites.len() > 0 {
        let site = sites[0];
        let paren = site.start + encode_utf8(func).len();
        let open = next_quote(code, paren + 1);
        lemma_next_quote(code, paren + 1);
        lemma_next_quote(code, open + 1);
        let bytes = code.subrange(site.name_start, site.name_end);
        decode_utf8_encode_utf8(bytes);
        assert forall|i: int| 0 <= i < bytes.len() implies !is_quote(
            #[trigger] bytes[i],
        ) by {
            assert(bytes[i] == code[site.name_start + i]);
        }
        lemma_quoted(decode_utf8(bytes));
        lemma_names_quote_free(func, code, site.end);
        assert forall|k: int| 0 <= k < sites.len() implies quote_free(
            site_name(code, #[trigger] sites[k]),
        ) by {
            if k > 0 {
                assert(sites[k] == sites.drop_first()[k - 1]);
            }
        }
    }
}

proof fn lemma_concat_quote_free(a: Seq<Seq<char>>, b: Seq<Seq<char>>)
    requires
        all_quote_free(a),
        all_quote_free(b),
    ensures
        all_quote_free(a + b),
{
    assert forall|name: Seq<char>| #[trigger] (a + b).contains(name) implies quote_free(name) by {
        let k = choose|k: int| 0 <= k < (a + b).len() && (a + b)[k] == name;
        if k < a.len() {
            assert(a[k] == name && a.contains(name));
        } else {
            assert(b[k - a.len()] == name && b.contains(name));
        }
    }
}

proof fn lemma_script_names_quote_free(code: Seq<u8>, calls: Seq<Seq<char>>)
    ensures
        all_quote_free(script_names(code, calls)),
    decreases calls.len(),
{
    if calls.len() > 0 {
        lemma_script_names_quote_free(code, calls.drop_last());
        lemma_names_quote_free(calls.last(), code, 0);
        let names = names_in(calls.last(), code);
        assert forall|name: Seq<char>| #[trigger] names.contains(name) implies quote_free(name) by {
            let k = choose|k: int| 0 <= k < names.len() && names[k] == name;
            assert(name == site_name(code, call_sites(calls.last(), code, 0)[k]));
        }
        lemma_concat_quote_free(script_names(code, calls.drop_last()), names);
    }
}

proof fn lemma_all_names_quote_free(
    paths: Seq<Seq<u8>>,
    codes: Seq<Option<Seq<u8>>>,
    system: bool,
    calls: Seq<Seq<char>>,
)
    ensures
        all_quote_free(all_names(paths, codes, system, calls)),
    decreases paths.len(),
{
    if paths.len() > 0 {
        lemma_all_names_quote_free(paths.drop_last(), codes, system, calls);
        let before = all_names(paths.drop_last(), codes, system, calls);
        match codes[paths.len() - 1] {
            Some(code) => {
                lemma_script_names_quote_free(code, calls);
                lemma_concat_quote_free(before, script_names(code, calls));
            },
            None => {},
        }
        lemma_concat_quote_free(before, Seq::empty());
    }
}

/// A good list stays good when names of scripts are put into it. What it holds then was in it or is
/// not blocked.
proof fn lemma_list_stays_good(
    list: Names,
    paths: Seq<Seq<u8>>,
    codes: Seq<Option<Seq<u8>>>,
    system: bool,
    calls: Seq<Seq<char>>,
    block: Set<Seq<char>>,
)
    requires
        good_list(list),
    ensures
        good_list(admitted(list, all_names(paths, codes, system, calls), block)),
        forall|name: Seq<char>| #[trigger]
            admitted(list, all_names(paths, codes, system, calls), block).names.contains(name)
                ==> list.names.contains(name) || !block.contains(name),
{
    let found = all_names(paths, codes, system, calls);
    lemma_all_names_quote_free(paths, codes, system, calls);
    lemma_admitted(list, found, block);
}

/// A scrambler is prepared from the start, and knows no names of other resources.
pub proof fn law_prepared_at_first(loader: Seq<char>)
    ensures
        prepared(initial(loader)),
        no_custom(initial(loader)),
{
    let s = initial(loader);
    reveal_strlit("scrambler:injectionDetected");
    let only = seq![detector_event()];
    assert(only[0] == detector_event());
    assert(good_list(s.system_server));
    assert(good_list(no_names()));
}

/// A scrambler stays prepared when the names of system resources are gathered before those of
/// other resources.
pub proof fn law_prepared_after_system(s: State, codes: Seq<Option<Seq<u8>>>)
    requires
        prepared(s),
        no_custom(s),
    ensures
        prepared(with_system_server(s, codes)),
        no_custom(with_system_server(s, codes)),
        prepared(with_system_client(s, codes)),
        no_custom(with_system_client(s, codes)),
{
    lemma_system_lists(s, codes);
    let a = with_system_server(s, codes);
    let b = with_system_client(s, codes);
    assert forall|name: Seq<char>| !#[trigger] is_custom_name(a, name) by {
        assert(!is_custom_name(s, name));
    }
    assert forall|name: Seq<char>| !#[trigger] is_custom_name(b, name) by {
        assert(!is_custom_name(s, name));
    }
}

proof fn lemma_system_lists(s: State, codes: Seq<Option<Seq<u8>>>)
    requires
        prepared(s),
    ensures
        good_list(with_system_server(s, codes).system_server),
        good_list(with_system_server(s, codes).system_net),
        good_list(with_system_server(s, codes).system_oxlib),
        good_list(with_system_client(s, codes).system_net),
        good_list(with_system_client(s, codes).system_client),
        good_list(with_system_client(s, codes).system_oxlib),
{
    let none = Set::<Seq<char>>::empty();
    let a = s.server_scripts;
    let b = s.client_scripts;
    lemma_list_stays_good(s.system_server, a, codes, true, server_event_calls(), none);
    lemma_list_stays_good(s.system_net, a, codes, true, net_event_calls(), none);
    lemma_list_stays_good(s.system_oxlib, a, codes, true, oxlib_calls(), none);
    lemma_list_stays_good(s.system_net, b, codes, true, net_event_calls(), none);
    lemma_list_stays_good(s.system_client, b, codes, true, client_event_calls(), none);
    lemma_list_stays_good(s.system_oxlib, b, codes, true, oxlib_calls(), none);
}

/// A scrambler stays prepared when the names of other resources are gathered.
pub proof fn law_prepared_after_custom(s: State, codes: Seq<Option<Seq<u8>>>)
    requires
        prepared(s),
    ensures
        prepared(with_custom_server(s, codes)),
        prepared(with_custom_client(s, codes)),
{
    let block = system_names(s);
    let a = s.server_scripts;
    let b = s.client_scripts;
    lemma_list_stays_good(s.server.old, a, codes, false, server_event_calls(), block);
    lemma_list_stays_good(s.net.old, a, codes, false, net_event_calls(), block);
    lemma_list_stays_good(s.esx.old, a, codes, false, esx_calls(true), block);
    lemma_list_stays_good(s.oxlib.old, a, codes, false, oxlib_calls(), block);
    lemma_list_stays_good(s.qbcore.old, a, codes, false, qbcore_calls(true), block);
    let t = with_custom_server(s, codes);
    assert forall|name: Seq<char>| #[trigger] is_custom_name(t, name) implies !is_system_name(
        t,
        name,
    ) by {
        assert(is_system_name(t, name) == is_system_name(s, name));
        assert(block.contains(name) == is_system_name(s, name));
        assert(is_custom_name(s, name) || !block.contains(name));
    }
    lemma_list_stays_good(s.net.old, b, codes, false, net_event_calls(), block);
    lemma_list_stays_good(s.client.old, b, codes, false, client_event_calls(), block);
    lemma_list_stays_good(s.esx.old, b, codes, false, esx_calls(false), block);
    lemma_list_stays_good(s.oxlib.old, b, codes, false, oxlib_calls(), block);
    lemma_list_stays_good(s.qbcore.old, b, codes, false, qbcore_calls(false), block);
    let u = with_custom_client(s, codes);
    assert forall|name: Seq<char>| #[trigger] is_custom_name(u, name) implies !is_system_name(
        u,
        name,
    ) by {
        assert(is_system_name(u, name) == is_system_name(s, name));
        assert(block.contains(name) == is_system_name(s, name));
        assert(is_custom_name(s, name) || !block.contains(name));
    }
}

/// The event that a detector reports is a name of the system from the start, and a name of the
/// system remains one.
pub proof fn law_system_names_remain(
    loader: Seq<char>,
    s: State,
    codes: Seq<Option<Seq<u8>>>,
    name: Seq<char>,
)
    requires
        prepared(s),
        is_system_name(s, name),
    ensures
        is_system_name(initial(loader), detector_event()),
        is_system_name(with_system_server(s, codes), name),
        is_system_name(with_system_client(s, codes), name),
        is_system_name(with_custom_server(s, codes), name),
        is_system_name(with_custom_client(s, codes), name),
{
    assert(initial(loader).system_server.names[0] == detector_event());
    let none = Set::<Seq<char>>::empty();
    let a = s.server_scripts;
    let b = s.client_scripts;
    lemma_admitted(s.system_server, all_names(a, codes, true, server_event_calls()), none);
    lemma_admitted(s.system_net, all_names(a, codes, true, net_event_calls()), none);
    lemma_admitted(s.system_oxlib, all_names(a, codes, true, oxlib_calls()), none);
    lemma_admitted(s.system_net, all_names(b, codes, true, net_event_calls()), none);
    lemma_admitted(s.system_client, all_names(b, codes, true, client_event_calls()), none);
    lemma_admitted(s.system_oxlib, all_names(b, codes, true, oxlib_calls()), none);
}

/// Every one of the names stands in the list or is one of the system.
pub open spec fn known(list: Names, s: State, names: Seq<Seq<char>>) -> bool {
    forall|name: Seq<char>| #[trigger]
        names.contains(name) ==> list.names.contains(name) || is_system_name(s, name)
}

/// What a scan finds in a script of one side is known to the scrambler.
pub open spec fn gathered(s: State, server: bool, code: Seq<u8>) -> bool {
    &&& server ==> known(s.server.old, s, script_names(code, server_event_calls()))
    &&& !server ==> known(s.client.old, s, script_names(code, client_event_calls()))
    &&& known(s.net.old, s, script_names(code, net_event_calls()))
    &&& known(s.esx.old, s, script_names(code, esx_calls(server)))
    &&& known(s.oxlib.old, s, script_names(code, oxlib_calls()))
    &&& known(s.qbcore.old, s, script_names(code, qbcore_calls(server)))
}

proof fn lemma_all_names_contains(
    paths: Seq<Seq<u8>>,
    codes: Seq<Option<Seq<u8>>>,
    system: bool,
    calls: Seq<Seq<char>>,
    i: int,
    name: Seq<char>,
)
    requires
        0 <= i < paths.len(),
        codes[i] is Some,
        in_system_resource(paths[i]) == system,
        script_names(codes[i]->0, calls).contains(name),
    ensures
        all_names(paths, codes, system, calls).contains(name),
    decreases paths.len(),
{
    let k = paths.len() - 1;
    let before = all_names(paths.drop_last(), codes, system, calls);
    let all = all_names(paths, codes, system, calls);
    if i < k {
        lemma_all_names_contains(paths.drop_last(), codes, system, calls, i, name);
        let j = choose|j: int| 0 <= j < before.len() && before[j] == name;
        assert(all[j] == name);
    } else {
        let own = script_names(codes[i]->0, calls);
        let j = choose|j: int| 0 <= j < own.len() && own[j] == name;
        assert(all[before.len() + j] == name);
    }
}

/// What a scan for events and ox_lib callbacks finds in a script of a system resource is a name of
/// the system once that script was read.
pub proof fn law_system_scripts_are_gathered(
    s: State,
    server: bool,
    codes: Seq<Option<Seq<u8>>>,
    i: int,
    calls: Seq<Seq<char>>,
    name: Seq<char>,
)
    requires
        prepared(s),
        0 <= i < if server {
            s.server_scripts.len()
        } else {
            s.client_scripts.len()
        },
        codes[i] is Some,
        in_system_resource(
            if server {
                s.server_scripts[i]
            } else {
                s.client_scripts[i]
            },
        ),
        calls == net_event_calls() || calls == oxlib_calls() || calls == if server {
            server_event_calls()
        } else {
            client_event_calls()
        },
        script_names(codes[i]->0, calls).contains(name),
    ensures
        server ==> is_system_name(with_system_server(s, codes), name),
        !server ==> is_system_name(with_system_client(s, codes), name),
{
    let paths = if server {
        s.server_scripts
    } else {
        s.client_scripts
    };
    let none = Set::<Seq<char>>::empty();
    let found = all_names(paths, codes, true, calls);
    lemma_all_names_contains(paths, codes, true, calls, i, name);
    lemma_admitted(s.system_net, found, none);
    lemma_admitted(s.system_oxlib, found, none);
    lemma_admitted(s.system_server, found, none);
    lemma_admitted(s.system_client, found, none);
}

proof fn lemma_known(
    list: Names,
    s: State,
    paths: Seq<Seq<u8>>,
    codes: Seq<Option<Seq<u8>>>,
    calls: Seq<Seq<char>>,
    i: int,
)
    requires
        tidy(list),
        0 <= i < paths.len(),
        codes[i] is Some,
        !in_system_resource(paths[i]),
    ensures
        known(
            admitted(list, all_names(paths, codes, false, calls), system_names(s)),
            s,
            script_names(codes[i]->0, calls),
        ),
{
    let found = all_names(paths, codes, false, calls);
    lemma_admitted(list, found, system_names(s));
    assert forall|name: Seq<char>| #[trigger]
        script_names(codes[i]->0, calls).contains(name) implies admitted(
        list,
        found,
        system_names(s),
    ).names.contains(name) || is_system_name(s, name) by {
        lemma_all_names_contains(paths, codes, false, calls, i, name);
        assert(system_names(s).contains(name) == is_system_name(s, name));
    }
}

proof fn lemma_known_grows(
    list: Names,
    found: Seq<Seq<char>>,
    block: Set<Seq<char>>,
    s: State,
    names: Seq<Seq<char>>,
)
    requires
        tidy(list),
        known(list, s, names),
    ensures
        known(admitted(list, found, block), s, names),
{
    lemma_admitted(list, found, block);
}

/// After the names of the other resources were gathered, what a scan finds in one of their scripts
/// is known to the scrambler.
pub proof fn law_scripts_are_gathered(
    s: State,
    server: bool,
    codes: Seq<Option<Seq<u8>>>,
    i: int,
)
    requires
        prepared(s),
        0 <= i < if server {
            s.server_scripts.len()
        } else {
            s.client_scripts.len()
        },
        codes[i] is Some,
        !in_system_resource(
            if server {
                s.server_scripts[i]
            } else {
                s.client_scripts[i]
            },
        ),
    ensures
        server ==> gathered(with_custom_server(s, codes), true, codes[i]->0),
        !server ==> gathered(with_custom_client(s, codes), false, codes[i]->0),
{
    let code = codes[i]->0;
    if server {
        let a = s.server_scripts;
        let t = with_custom_server(s, codes);
        assert(forall|name: Seq<char>| #[trigger]
            is_system_name(t, name) == is_system_name(s, name));
        lemma_known(s.server.old, s, a, codes, server_event_calls(), i);
        lemma_known(s.net.old, s, a, codes, net_event_calls(), i);
        lemma_known(s.esx.old, s, a, codes, esx_calls(true), i);
        lemma_known(s.oxlib.old, s, a, codes, oxlib_calls(), i);
        lemma_known(s.qbcore.old, s, a, codes, qbcore_calls(true), i);
        lemma_known_same(t.server.old, s, t, script_names(code, server_event_calls()));
        lemma_known_same(t.net.old, s, t, script_names(code, net_event_calls()));
        lemma_known_same(t.esx.old, s, t, script_names(code, esx_calls(true)));
        lemma_known_same(t.oxlib.old, s, t, script_names(code, oxlib_calls()));
        lemma_known_same(t.qbcore.old, s, t, script_names(code, qbcore_calls(true)));
    } else {
        let b = s.client_scripts;
        let t = with_custom_client(s, codes);
        assert(forall|name: Seq<char>| #[trigger]
            is_system_name(t, name) == is_system_name(s, name));
        lemma_known(s.net.old, s, b, codes, net_event_calls(), i);
        lemma_known(s.client.old, s, b, codes, client_event_calls(), i);
        lemma_known(s.esx.old, s, b, codes, esx_calls(false), i);
        lemma_known(s.oxlib.old, s, b, codes, oxlib_calls(), i);
        lemma_known(s.qbcore.old, s, b, codes, qbcore_calls(false), i);
        lemma_known_same(t.net.old, s, t, script_names(code, net_event_calls()));
        lemma_known_same(t.client.old, s, t, script_names(code, client_event_calls()));
        lemma_known_same(t.esx.old, s, t, script_names(code, esx_calls(false)));
        lemma_known_same(t.oxlib.old, s, t, script_names(code, oxlib_calls()));
        lemma_known_same(t.qbcore.old, s, t, script_names(code, qbcore_calls(false)));
    }
}

proof fn lemma_known_same(list: Names, s: State, t: State, names: Seq<Seq<char>>)
    requires
        forall|name: Seq<char>| #[trigger] is_system_name(t, name) == is_system_name(s, name),
        known(list, s, names),
    ensures
        known(list, t, names),
{
    assert forall|name: Seq<char>| #[trigger] names.contains(name) implies list.names.contains(name)
        || is_system_name(t, name) by {
        assert(is_system_name(t, name) == is_system_name(s, name));
    }
}

/// What is known of a script stays known when further names of other resources are gathered.
pub proof fn law_gathered_stays(
    s: State,
    codes: Seq<Option<Seq<u8>>>,
    server: bool,
    code: Seq<u8>,
)
    requires
        prepared(s),
        gathered(s, server, code),
    ensures
        gathered(with_custom_server(s, codes), server, code),
        gathered(with_custom_client(s, codes), server, code),
{
    lemma_gathered_grows(s, with_custom_server(s, codes), codes, true, server, code);
    lemma_gathered_grows(s, with_custom_client(s, codes), codes, false, server, code);
}

proof fn lemma_gathered_grows(
    s: State,
    t: State,
    codes: Seq<Option<Seq<u8>>>,
    step: bool,
    server: bool,
    code: Seq<u8>,
)
    requires
        prepared(s),
        gathered(s, server, code),
        t == if step {
            with_custom_server(s, codes)
        } else {
            with_custom_client(s, codes)
        },
    ensures
        gathered(t, server, code),
{
    let block = system_names(s);
    let paths = if step {
        s.server_scripts
    } else {
        s.client_scripts
    };
    assert(forall|name: Seq<char>| #[trigger] is_system_name(t, name) == is_system_name(s, name));
    let events = if server {
        server_event_calls()
    } else {
        client_event_calls()
    };
    let own = script_names(code, events);
    if server {
        if step {
            let found = all_names(paths, codes, false, server_event_calls());
            lemma_known_grows(s.server.old, found, block, s, own);
        }
        lemma_known_same(t.server.old, s, t, own);
    } else {
        if !step {
            let found = all_names(paths, codes, false, client_event_calls());
            lemma_known_grows(s.client.old, found, block, s, own);
        }
        lemma_known_same(t.client.old, s, t, own);
    }
    let net = script_names(code, net_event_calls());
    lemma_known_grows(
        s.net.old,
        all_names(paths, codes, false, net_event_calls()),
        block,
        s,
        net,
    );
    lemma_known_same(t.net.old, s, t, net);
    let esx = script_names(code, esx_calls(server));
    lemma_known_grows(s.esx.old, all_names(paths, codes, false, esx_calls(step)), block, s, esx);
    lemma_known_same(t.esx.old, s, t, esx);
    let oxlib = script_names(code, oxlib_calls());
    lemma_known_grows(s.oxlib.old, all_names(paths, codes, false, oxlib_calls()), block, s, oxlib);
    lemma_known_same(t.oxlib.old, s, t, oxlib);
    let qbcore = script_names(code, qbcore_calls(server));
    lemma_known_grows(
        s.qbcore.old,
        all_names(paths, codes, false, qbcore_calls(step)),
        block,
        s,
        qbcore,
    );
    lemma_known_same(t.qbcore.old, s, t, qbcore);
}

/// At first a scrambler knows one name, which is one of the system, and nothing else.
pub proof fn law_at_first(loader: Seq<char>)
    ensures
        ({
            let s = initial(loader);
            &&& s.loader == loader
            &&& s.system_server.names == seq!["scrambler:injectionDetected"@]
            &&& s.system_net.names.len() == 0
            &&& s.system_client.names.len() == 0
            &&& s.system_oxlib.names.len() == 0
            &&& s.server_scripts.len() == 0
            &&& s.client_scripts.len() == 0
            &&& s.directories.len() == 0
            &&& s.target is None
        }),
{
}

} // verus!
