//! What holds of the names that a scrambler puts in the place of others.
use crate::calls::names_in;
use crate::events::{
    client_event_calls, esx_calls, net_event_calls, oxlib_calls, qbcore_calls, script_names,
    server_event_calls,
};
use crate::gathering_laws::{gathered, is_custom_name, known, prepared};
use crate::names::{lemma_position, position};
use crate::passes::{
    distinguishable, harmless, law_passes_rename, paren_free, renamed_by, separate,
};
use crate::replacement::{concat, first_seen, lemma_first_seen, replacement, replacements};
use crate::rewrite::{lookup, paired, pairs};
use crate::rewrite_laws::{quote_free, renamed};
use crate::state::{finished, is_system_name, shared_names, with_replacements, State};
use crate::text::ends_with;
use crate::uuids::{all_uuids, is_hex, is_uuid};
use crate::writer::{bucket_map, bucket_of, scrambled, script_passes, side_calls, sort_maps, Sort};
use vstd::prelude::*;
use vstd::utf8::*;

verus! {

/// The functions whose calls are rewritten in a script of one side.
pub open spec fn side_funcs(server: bool) -> Seq<Seq<char>> {
    Seq::new(side_calls(server).len(), |k: int| side_calls(server)[k].0)
}

/// There is a replacement for every name.
pub open spec fn supplied(s: State, supply: Seq<Seq<char>>, esx: Seq<Seq<char>>) -> bool {
    &&& first_seen(shared_names(s)).len() <= supply.len()
    &&& esx.len() == s.esx.old.names.len()
}

/// What takes the place of a name of one of the sorts.
pub open spec fn new_name(
    s: State,
    supply: Seq<Seq<char>>,
    esx: Seq<Seq<char>>,
    sort: Sort,
    name: Seq<char>,
) -> Seq<char> {
    if sort is Esx {
        esx[position(s.esx.old.names, name)]
    } else {
        replacement(shared_names(s), supply, name)
    }
}

/// The names of system resources that are of a sort.
pub open spec fn system_of(s: State, sort: Sort) -> Seq<Seq<char>> {
    match sort {
        Sort::Server => s.system_server.names,
        Sort::Net => s.system_net.names,
        Sort::Client => s.system_client.names,
        Sort::Oxlib => s.system_oxlib.names,
        _ => Seq::empty(),
    }
}

/// The name is of one of the sorts.
pub open spec fn in_scope(s: State, sorts: Seq<Sort>, name: Seq<char>) -> bool {
    exists|i: int|
        0 <= i < sorts.len() && bucket_of(s, #[trigger] sorts[i]).old.names.contains(name)
}

pub proof fn lemma_concat_contains(a: Seq<Seq<char>>, b: Seq<Seq<char>>, name: Seq<char>)
    ensures
        (a + b).contains(name) <==> a.contains(name) || b.contains(name),
{
    if a.contains(name) {
        let k = choose|k: int| 0 <= k < a.len() && a[k] == name;
        assert((a + b)[k] == name);
    }
    if b.contains(name) {
        let k = choose|k: int| 0 <= k < b.len() && b[k] == name;
        assert((a + b)[a.len() + k] == name);
    }
    if (a + b).contains(name) {
        let k = choose|k: int| 0 <= k < (a + b).len() && (a + b)[k] == name;
        if k < a.len() {
            assert(a[k] == name);
        } else {
            assert(b[k - a.len()] == name);
        }
    }
}

/// The mapping of names with replacements and of others that stay.
proof fn lemma_fixed_map(
    old: Seq<Seq<char>>,
    new: Seq<Seq<char>>,
    fixed: Seq<Seq<char>>,
    name: Seq<char>,
)
    requires
        old.len() == new.len(),
    ensures
        paired(old + fixed, new + fixed).contains_key(name) <==> old.contains(name)
            || fixed.contains(name),
        old.contains(name) ==> position(old, name) < old.len() && paired(
            old + fixed,
            new + fixed,
        )[name] == new[position(old, name)],
        !old.contains(name) && fixed.contains(name) ==> paired(old + fixed, new + fixed)[name]
            == name,
{
    let x = old + fixed;
    let y = new + fixed;
    assert(x.take(pairs(x, y)) =~= x);
    lemma_concat_contains(old, fixed, name);
    lemma_position(x, name);
    lemma_position(old, name);
    if old.contains(name) {
        let k = choose|k: int| 0 <= k < old.len() && old[k] == name;
        let p = position(x, name);
        assert(x[k] == name);
        assert(old[p] == name);
        let q = position(old, name);
        assert(x[q] == name);
        assert(p == q);
    } else if fixed.contains(name) {
        let k = choose|k: int| 0 <= k < fixed.len() && fixed[k] == name;
        assert(x[old.len() + k] == name);
        let p = position(x, name);
        if p < old.len() {
            assert(old[p] == name);
        }
    }
}

/// The mapping of a sort of names when they have been replaced.
proof fn lemma_bucket_map(
    s: State,
    supply: Seq<Seq<char>>,
    esx: Seq<Seq<char>>,
    sort: Sort,
    name: Seq<char>,
)
    requires
        supplied(s, supply, esx),
    ensures
        ({
            let map = bucket_map(bucket_of(finished(s, supply, esx), sort));
            let own = bucket_of(s, sort).old.names.contains(name);
            &&& map.contains_key(name) <==> own || system_of(s, sort).contains(name)
            &&& own ==> map[name] == new_name(s, supply, esx, sort, name)
            &&& !own && system_of(s, sort).contains(name) ==> map[name] == name
        }),
{
    let t = finished(s, supply, esx);
    let all = shared_names(s);
    let old = bucket_of(s, sort).old.names;
    let fixed = system_of(s, sort);
    let new = if sort is Esx {
        esx
    } else {
        replacements(all, supply, old)
    };
    lemma_fixed_map(old, new, fixed, name);
    lemma_position(old, name);
    assert(bucket_of(t, sort).old.names =~= old + fixed);
    assert(bucket_of(t, sort).new =~= new + fixed);
}

proof fn lemma_lookup(maps: Seq<Map<Seq<char>, Seq<char>>>, name: Seq<char>, value: Seq<char>)
    requires
        forall|i: int|
            0 <= i < maps.len() && (#[trigger] maps[i]).contains_key(name) ==> maps[i][name]
                == value,
    ensures
        lookup(maps, name) == if exists|i: int|
            0 <= i < maps.len() && (#[trigger] maps[i]).contains_key(name) {
            Some(value)
        } else {
            None
        },
    decreases maps.len(),
{
    if maps.len() > 0 && !maps[0].contains_key(name) {
        let rest = maps.drop_first();
        assert forall|i: int|
            0 <= i < rest.len() && (#[trigger] rest[i]).contains_key(name) implies rest[i][name]
            == value by {
            assert(rest[i] == maps[i + 1]);
        }
        lemma_lookup(rest, name, value);
        if exists|i: int| 0 <= i < maps.len() && (#[trigger] maps[i]).contains_key(name) {
            let i = choose|i: int| 0 <= i < maps.len() && (#[trigger] maps[i]).contains_key(name);
            assert(rest[i - 1] == maps[i]);
            assert(rest[i - 1].contains_key(name));
        } else if exists|i: int| 0 <= i < rest.len() && (#[trigger] rest[i]).contains_key(name) {
            let i = choose|i: int| 0 <= i < rest.len() && (#[trigger] rest[i]).contains_key(name);
            assert(maps[i + 1] == rest[i]);
        }
    }
}

/// Sorts that are looked up together: ESX callbacks stand alone.
pub open spec fn compatible(sorts: Seq<Sort>) -> bool {
    &&& sorts.len() > 0
    &&& forall|i: int| 0 <= i < sorts.len() && #[trigger] sorts[i] is Esx ==> sorts.len() == 1
}

pub proof fn lemma_compatible(server: bool, k: int)
    requires
        0 <= k < side_calls(server).len(),
    ensures
        compatible(side_calls(server)[k].1),
{
    let sorts = side_calls(server)[k].1;
    assert(sorts.len() <= 2);
    assert(sorts.len() == 2 ==> !(sorts[0] is Esx) && !(sorts[1] is Esx));
}

/// A name of one of the sorts that a call is for is replaced by its new name. Every other name
/// stays, among them the names of system resources.
pub proof fn law_renamed(
    s: State,
    supply: Seq<Seq<char>>,
    esx: Seq<Seq<char>>,
    server: bool,
    k: int,
    name: Seq<char>,
)
    requires
        prepared(s),
        supplied(s, supply, esx),
        0 <= k < side_calls(server).len(),
    ensures
        ({
            let sorts = side_calls(server)[k].1;
            renamed(sort_maps(finished(s, supply, esx), sorts), name) == if in_scope(
                s,
                sorts,
                name,
            ) {
                new_name(s, supply, esx, sorts[0], name)
            } else {
                name
            }
        }),
        is_system_name(s, name) ==> renamed(
            sort_maps(finished(s, supply, esx), side_calls(server)[k].1),
            name,
        ) == name,
{
    let sorts = side_calls(server)[k].1;
    let t = finished(s, supply, esx);
    let maps = sort_maps(t, sorts);
    lemma_compatible(server, k);
    let value = if in_scope(s, sorts, name) {
        new_name(s, supply, esx, sorts[0], name)
    } else {
        name
    };
    assert forall|i: int| 0 <= i < maps.len() && (#[trigger] maps[i]).contains_key(
        name,
    ) implies maps[i][name] == value by {
        lemma_bucket_map(s, supply, esx, sorts[i], name);
        lemma_scope(s, sorts, i, name);
    }
    lemma_lookup(maps, name, value);
    if in_scope(s, sorts, name) {
        let i = choose|i: int|
            0 <= i < sorts.len() && bucket_of(s, #[trigger] sorts[i]).old.names.contains(name);
        lemma_bucket_map(s, supply, esx, sorts[i], name);
        assert(maps[i].contains_key(name));
        lemma_scope(s, sorts, i, name);
        assert(is_custom_name(s, name));
    }
}

/// A name of a sort is not one of the system, and the other way round.
proof fn lemma_scope(s: State, sorts: Seq<Sort>, i: int, name: Seq<char>)
    requires
        prepared(s),
        0 <= i < sorts.len(),
    ensures
        in_scope(s, sorts, name) ==> is_custom_name(s, name) && !is_system_name(s, name),
        system_of(s, sorts[i]).contains(name) ==> is_system_name(s, name) && !is_custom_name(
            s,
            name,
        ),
        bucket_of(s, sorts[i]).old.names.contains(name) ==> is_custom_name(s, name),
{
    if in_scope(s, sorts, name) {
        let j = choose|j: int|
            0 <= j < sorts.len() && bucket_of(s, #[trigger] sorts[j]).old.names.contains(name);
        assert(is_custom_name(s, name));
    }
    if system_of(s, sorts[i]).contains(name) {
        assert(is_system_name(s, name));
        assert(is_custom_name(s, name) ==> !is_system_name(s, name));
    }
}

/// The text of a UUID holds neither quotation marks nor parentheses.
proof fn lemma_uuid(text: Seq<char>)
    requires
        is_uuid(text),
    ensures
        quote_free(text),
        paren_free(text),
{
    assert forall|i: int| 0 <= i < text.len() implies #[trigger] text[i] != '"' && text[i] != '\''
        && text[i] != '(' by {
        assert(text[i] == '-' || is_hex(text[i]));
    }
}

/// The new name of a name of one of the sorts is one of those that were supplied.
pub proof fn lemma_new_name(
    s: State,
    supply: Seq<Seq<char>>,
    esx: Seq<Seq<char>>,
    sort: Sort,
    name: Seq<char>,
)
    requires
        supplied(s, supply, esx),
        all_uuids(supply),
        all_uuids(esx),
        bucket_of(s, sort).old.names.contains(name),
    ensures
        is_uuid(new_name(s, supply, esx, sort, name)),
        !(sort is Esx) ==> supply.contains(new_name(s, supply, esx, sort, name)),
{
    if sort is Esx {
        let old = s.esx.old.names;
        let k = choose|k: int| 0 <= k < old.len() && old[k] == name;
        lemma_position(old, name);
    } else {
        let all = shared_names(s);
        lemma_shared_contains(s, sort, name);
        lemma_first_seen(all);
        let seen = first_seen(all);
        assert(seen.contains(name));
        let k = choose|k: int| 0 <= k < seen.len() && seen[k] == name;
        lemma_position(seen, name);
    }
}

pub proof fn lemma_shared_contains(s: State, sort: Sort, name: Seq<char>)
    requires
        !(sort is Esx),
        bucket_of(s, sort).old.names.contains(name),
    ensures
        shared_names(s).contains(name),
{
    let lists = seq![
        s.server.old.names,
        s.net.old.names,
        s.client.old.names,
        s.oxlib.old.names,
        s.qbcore.old.names,
    ];
    let k = match sort {
        Sort::Server => 0int,
        Sort::Net => 1int,
        Sort::Client => 2int,
        Sort::Oxlib => 3int,
        _ => 4int,
    };
    lemma_concat_has(lists, k, name);
}

proof fn lemma_concat_has(lists: Seq<Seq<Seq<char>>>, k: int, name: Seq<char>)
    requires
        0 <= k < lists.len(),
        lists[k].contains(name),
    ensures
        concat(lists).contains(name),
    decreases lists.len(),
{
    lemma_concat_contains(concat(lists.drop_last()), lists.last(), name);
    if k < lists.len() - 1 {
        lemma_concat_has(lists.drop_last(), k, name);
    }
}

/// No new name makes a call of its own.
pub proof fn lemma_harmless(
    s: State,
    supply: Seq<Seq<char>>,
    esx: Seq<Seq<char>>,
    sorts: Seq<Sort>,
)
    requires
        prepared(s),
        supplied(s, supply, esx),
        all_uuids(supply),
        all_uuids(esx),
    ensures
        harmless(sort_maps(finished(s, supply, esx), sorts)),
{
    let maps = sort_maps(finished(s, supply, esx), sorts);
    assert forall|i: int, name: Seq<char>|
        0 <= i < maps.len() && #[trigger] maps[i].contains_key(name) implies quote_free(
        maps[i][name],
    ) && (maps[i][name] == name || paren_free(maps[i][name])) by {
        lemma_bucket_map(s, supply, esx, sorts[i], name);
        if bucket_of(s, sorts[i]).old.names.contains(name) {
            lemma_new_name(s, supply, esx, sorts[i], name);
            lemma_uuid(maps[i][name]);
        }
    }
}

/// A name of which the last twelve characters begin with these two.
spec fn marked(func: Seq<char>, first: char, second: char) -> bool {
    &&& func.len() >= 12
    &&& func[func.len() - 12] == first
    &&& func[func.len() - 11] == second
    &&& is_ascii_chars(func)
    &&& quote_free(func)
    &&& paren_free(func)
}

/// The marks of the functions whose calls are rewritten.
spec fn marks(server: bool) -> Seq<(char, char)> {
    if server {
        seq![
            ('r', 'S'),
            ('s', 't'),
            ('E', 'v'),
            ('T', 'r'),
            ('r', 'C'),
            ('r', 'v'),
            ('a', 'c'),
            ('l', 'l'),
            ('l', 'i'),
            ('e', 'a'),
        ]
    } else {
        seq![
            ('r', 'S'),
            ('s', 't'),
            ('E', 'v'),
            ('T', 'r'),
            ('r', 'v'),
            ('a', 'c'),
            ('l', 'l'),
            ('l', 'i'),
            ('g', 'g'),
        ]
    }
}

proof fn lemma_marks(server: bool)
    ensures
        marks(server).len() == side_calls(server).len(),
        forall|k: int|
            0 <= k < side_calls(server).len() ==> marked(
                #[trigger] side_calls(server)[k].0,
                marks(server)[k].0,
                marks(server)[k].1,
            ),
{
    reveal_strlit("AddEventHandler");
    reveal_strlit("TriggerEvent");
    reveal_strlit("TriggerClientEvent");
    reveal_strlit("TriggerServerEvent");
    reveal_strlit("RegisterServerEvent");
    reveal_strlit("RegisterNetEvent");
    reveal_strlit("ESX.RegisterServerCallback");
    reveal_strlit("ESX.TriggerServerCallback");
    reveal_strlit("lib.callback.register");
    reveal_strlit("lib.callback.await");
    reveal_strlit("lib.callback");
    reveal_strlit("QBCore.Functions.CreateCallback");
    reveal_strlit("QBCore.Functions.TriggerCallback");
    let calls = side_calls(server);
    if server {
        assert(marked(calls[0].0, 'r', 'S'));
        assert(marked(calls[1].0, 's', 't'));
        assert(marked(calls[2].0, 'E', 'v'));
        assert(marked(calls[3].0, 'T', 'r'));
        assert(marked(calls[4].0, 'r', 'C'));
        assert(marked(calls[5].0, 'r', 'v'));
        assert(marked(calls[6].0, 'a', 'c'));
        assert(marked(calls[7].0, 'l', 'l'));
        assert(marked(calls[8].0, 'l', 'i'));
        assert(marked(calls[9].0, 'e', 'a'));
    } else {
        assert(marked(calls[0].0, 'r', 'S'));
        assert(marked(calls[1].0, 's', 't'));
        assert(marked(calls[2].0, 'E', 'v'));
        assert(marked(calls[3].0, 'T', 'r'));
        assert(marked(calls[4].0, 'r', 'v'));
        assert(marked(calls[5].0, 'a', 'c'));
        assert(marked(calls[6].0, 'l', 'l'));
        assert(marked(calls[7].0, 'l', 'i'));
        assert(marked(calls[8].0, 'g', 'g'));
    }
}

proof fn lemma_not_end(a: Seq<char>, b: Seq<char>, p: (char, char), q: (char, char))
    requires
        marked(a, p.0, p.1),
        marked(b, q.0, q.1),
        p != q,
    ensures
        !ends_with(encode_utf8(a), encode_utf8(b)),
{
    is_ascii_chars_encode_utf8(a);
    is_ascii_chars_encode_utf8(b);
    let x = encode_utf8(a);
    let y = encode_utf8(b);
    if ends_with(x, y) {
        let end = x.skip(x.len() - y.len());
        assert(end[y.len() - 12] == x[x.len() - 12]);
        assert(end[y.len() - 11] == x[x.len() - 11]);
        assert(x[x.len() - 12] == a[a.len() - 12] as u8);
        assert(x[x.len() - 11] == a[a.len() - 11] as u8);
        assert(y[y.len() - 12] == b[b.len() - 12] as u8);
        assert(y[y.len() - 11] == b[b.len() - 11] as u8);
    }
}

/// The functions whose calls are rewritten in one script cannot be mistaken for each other.
pub proof fn lemma_distinguishable(server: bool)
    ensures
        distinguishable(side_funcs(server)),
{
    let funcs = side_funcs(server);
    let calls = side_calls(server);
    lemma_marks(server);
    assert forall|a: int| 0 <= a < funcs.len() implies quote_free(#[trigger] funcs[a])
        && paren_free(funcs[a]) by {
        assert(funcs[a] == calls[a].0);
    }
    assert forall|a: int, b: int|
        0 <= a < funcs.len() && 0 <= b < funcs.len() && a != b implies !ends_with(
        encode_utf8(#[trigger] funcs[a]),
        encode_utf8(#[trigger] funcs[b]),
    ) by {
        assert(funcs[a] == calls[a].0 && funcs[b] == calls[b].0);
        assert(marks(server)[a] != marks(server)[b]);
        lemma_not_end(funcs[a], funcs[b], marks(server)[a], marks(server)[b]);
    }
}

pub proof fn lemma_distinct(funcs: Seq<Seq<char>>, a: int, b: int)
    requires
        distinguishable(funcs),
        0 <= a < funcs.len(),
        0 <= b < funcs.len(),
        funcs[a] == funcs[b],
    ensures
        a == b,
{
    let bytes = encode_utf8(funcs[a]);
    assert(bytes.skip(bytes.len() - bytes.len()) =~= bytes);
    if a != b {
        assert(!ends_with(encode_utf8(funcs[a]), encode_utf8(funcs[b])));
    }
}

/// What the passes over a script of one side make of a name at the calls of one function.
pub proof fn lemma_renamed_by(s: State, server: bool, n: int, k: int, name: Seq<char>)
    requires
        0 <= n <= side_calls(server).len(),
        0 <= k < side_calls(server).len(),
    ensures
        renamed_by(script_passes(s, server).take(n), side_calls(server)[k].0, name) == if k < n {
            renamed(sort_maps(s, side_calls(server)[k].1), name)
        } else {
            name
        },
    decreases n,
{
    let passes = script_passes(s, server);
    if n > 0 {
        lemma_renamed_by(s, server, n - 1, k, name);
        assert(passes.take(n).drop_last() =~= passes.take(n - 1));
        assert(passes.take(n).last() == passes[n - 1]);
        lemma_distinguishable(server);
        if side_funcs(server)[n - 1] == side_funcs(server)[k] {
            lemma_distinct(side_funcs(server), n - 1, k);
        }
    }
}

/// In a script that was rewritten once, for one side, each function is called as it was before, in
/// the same order, with new names in the place of those that it is for, and with all other names
/// as they were. Left out are scripts in which one such call begins inside another. For a script
/// that is rewritten more than once see [`crate::shared_laws::law_renamed_in_turn`].
pub proof fn law_script_renamed(
    s: State,
    supply: Seq<Seq<char>>,
    esx: Seq<Seq<char>>,
    server: bool,
    code: Seq<u8>,
    k: int,
)
    requires
        prepared(s),
        supplied(s, supply, esx),
        all_uuids(supply),
        all_uuids(esx),
        0 <= k < side_calls(server).len(),
        separate(side_funcs(server), code),
    ensures
        ({
            let func = side_calls(server)[k].0;
            let sorts = side_calls(server)[k].1;
            names_in(func, scrambled(finished(s, supply, esx), server, code)) == names_in(
                func,
                code,
            ).map_values(
                |name: Seq<char>|
                    if in_scope(s, sorts, name) {
                        new_name(s, supply, esx, sorts[0], name)
                    } else {
                        name
                    },
            )
        }),
{
    let t = finished(s, supply, esx);
    let passes = script_passes(t, server);
    let func = side_calls(server)[k].0;
    let sorts = side_calls(server)[k].1;
    lemma_distinguishable(server);
    assert forall|i: int| 0 <= i < passes.len() implies harmless((#[trigger] passes[i]).maps)
        && side_funcs(server).contains(passes[i].func) by {
        lemma_harmless(s, supply, esx, side_calls(server)[i].1);
        assert(side_funcs(server)[i] == passes[i].func);
    }
    law_passes_rename(side_funcs(server), passes, code, k);
    assert(side_funcs(server)[k] == func);
    let before = names_in(func, code);
    let after = names_in(func, scrambled(t, server, code));
    assert forall|i: int| 0 <= i < before.len() implies after[i] == if in_scope(
        s,
        sorts,
        before[i],
    ) {
        new_name(s, supply, esx, sorts[0], before[i])
    } else {
        before[i]
    } by {
        law_renamed(s, supply, esx, server, k, before[i]);
        lemma_renamed_by(t, server, passes.len() as int, k, before[i]);
        assert(passes.take(passes.len() as int) =~= passes);
    }
    assert(after =~= before.map_values(
        |name: Seq<char>|
            if in_scope(s, sorts, name) {
                new_name(s, supply, esx, sorts[0], name)
            } else {
                name
            },
    ));
}

/// The function triggers an event on the other side.
pub open spec fn triggers_across(func: Seq<char>) -> bool {
    func == "TriggerClientEvent"@ || func == "TriggerServerEvent"@
}

/// The functions that are scanned for names and belong to a call that is rewritten, and the sort of
/// names that they give. Triggering across the network is rewritten but not scanned.
pub open spec fn scanned(server: bool, k: int) -> Option<(Seq<Seq<char>>, int, Sort)> {
    if server {
        if k == 0 {
            Some((server_event_calls(), 0, Sort::Server))
        } else if k == 1 {
            Some((net_event_calls(), 0, Sort::Net))
        } else if k == 2 || k == 3 {
            Some((server_event_calls(), k - 1, Sort::Server))
        } else if k == 5 {
            Some((esx_calls(true), 0, Sort::Esx))
        } else if 6 <= k <= 8 {
            Some((oxlib_calls(), k - 6, Sort::Oxlib))
        } else if k == 9 {
            Some((qbcore_calls(true), 0, Sort::Qbcore))
        } else {
            None
        }
    } else {
        if k == 1 {
            Some((net_event_calls(), 0, Sort::Net))
        } else if k == 2 || k == 3 {
            Some((client_event_calls(), k - 2, Sort::Client))
        } else if k == 4 {
            Some((esx_calls(false), 0, Sort::Esx))
        } else if 5 <= k <= 7 {
            Some((oxlib_calls(), k - 5, Sort::Oxlib))
        } else if k == 8 {
            Some((qbcore_calls(false), 0, Sort::Qbcore))
        } else {
            None
        }
    }
}

pub proof fn lemma_scanned(server: bool, k: int)
    requires
        0 <= k < side_calls(server).len(),
        !triggers_across(side_calls(server)[k].0),
    ensures
        scanned(server, k) matches Some((calls, i, sort)) && {
            &&& 0 <= i < calls.len()
            &&& calls[i] == side_calls(server)[k].0
            &&& exists|j: int|
                0 <= j < side_calls(server)[k].1.len() && #[trigger] side_calls(server)[k].1[j]
                    == sort
        },
{
    let sorts = side_calls(server)[k].1;
    let sort = scanned(server, k).unwrap().2;
    assert(sorts[0] == sort || (sorts.len() == 2 && sorts[1] == sort));
}

pub proof fn lemma_script_names_contains(
    code: Seq<u8>,
    calls: Seq<Seq<char>>,
    i: int,
    name: Seq<char>,
)
    requires
        0 <= i < calls.len(),
        names_in(calls[i], code).contains(name),
    ensures
        script_names(code, calls).contains(name),
    decreases calls.len(),
{
    lemma_concat_contains(
        script_names(code, calls.drop_last()),
        names_in(calls.last(), code),
        name,
    );
    if i < calls.len() - 1 {
        lemma_script_names_contains(code, calls.drop_last(), i, name);
    }
}

/// In a script that was rewritten once, for one side, a name that was gathered for a function is a
/// UUID at its calls. Where the names of the script were gathered too, every name is then a UUID
/// or one of the system, but for the two functions that trigger events on the other side: what
/// only they use is not gathered, and stays. Left out are scripts in which one such call begins
/// inside another.
pub proof fn law_no_name_left(
    s: State,
    supply: Seq<Seq<char>>,
    esx: Seq<Seq<char>>,
    server: bool,
    code: Seq<u8>,
    k: int,
    j: int,
)
    requires
        prepared(s),
        supplied(s, supply, esx),
        all_uuids(supply),
        all_uuids(esx),
        gathered(s, server, code),
        separate(side_funcs(server), code),
        0 <= k < side_calls(server).len(),
        0 <= j < names_in(
            side_calls(server)[k].0,
            scrambled(finished(s, supply, esx), server, code),
        ).len(),
    ensures
        ({
            let func = side_calls(server)[k].0;
            let old = names_in(func, code)[j];
            let new = names_in(func, scrambled(finished(s, supply, esx), server, code))[j];
            &&& in_scope(s, side_calls(server)[k].1, old) ==> is_uuid(new)
            &&& is_uuid(new) || is_system_name(s, new) || (triggers_across(func) && new == old)
        }),
{
    let func = side_calls(server)[k].0;
    let sorts = side_calls(server)[k].1;
    law_script_renamed(s, supply, esx, server, code, k);
    let old = names_in(func, code)[j];
    assert(names_in(func, code).contains(old));
    if !triggers_across(func) {
        lemma_scanned(server, k);
        let (calls, i, sort) = scanned(server, k).unwrap();
        lemma_script_names_contains(code, calls, i, old);
        assert(known(bucket_of(s, sort).old, s, script_names(code, calls)));
    }
    lemma_compatible(server, k);
    if in_scope(s, sorts, old) {
        let i = choose|i: int|
            0 <= i < sorts.len() && bucket_of(s, #[trigger] sorts[i]).old.names.contains(old);
        lemma_new_name(s, supply, esx, sorts[i], old);
    }
}

/// A name has one replacement wherever it is replaced: a call that triggers an event and one that
/// handles it still have the same name afterwards, in whatever scripts they stand.
pub proof fn law_one_replacement(
    s: State,
    supply: Seq<Seq<char>>,
    esx: Seq<Seq<char>>,
    server: bool,
    k: int,
    other_server: bool,
    other_k: int,
    name: Seq<char>,
)
    requires
        prepared(s),
        supplied(s, supply, esx),
        0 <= k < side_calls(server).len(),
        0 <= other_k < side_calls(other_server).len(),
        side_calls(server)[k].1[0] is Esx == side_calls(other_server)[other_k].1[0] is Esx,
        in_scope(s, side_calls(server)[k].1, name),
        in_scope(s, side_calls(other_server)[other_k].1, name),
    ensures
        renamed(sort_maps(finished(s, supply, esx), side_calls(server)[k].1), name) == renamed(
            sort_maps(finished(s, supply, esx), side_calls(other_server)[other_k].1),
            name,
        ),
{
    law_renamed(s, supply, esx, server, k, name);
    law_renamed(s, supply, esx, other_server, other_k, name);
}

/// Names and replacements are kept in lock-step: of every sort there are as many of one as of the
/// other once the names are replaced, however often that was done before.
pub proof fn law_lock_step(
    s: State,
    supply: Seq<Seq<char>>,
    esx: Seq<Seq<char>>,
    sort: Sort,
)
    requires
        esx.len() == s.esx.old.names.len(),
    ensures
        ({
            let bucket = bucket_of(with_replacements(s, supply, esx), sort);
            bucket.old.names.len() == bucket.new.len()
        }),
        ({
            let bucket = bucket_of(finished(s, supply, esx), sort);
            bucket.old.names.len() == bucket.new.len()
        }),
{
}

/// Different names have different replacements, as long as no replacement was supplied twice.
pub proof fn law_different_replacements(
    s: State,
    supply: Seq<Seq<char>>,
    a: Seq<char>,
    b: Seq<char>,
)
    requires
        first_seen(shared_names(s)).len() <= supply.len(),
        supply.no_duplicates(),
        shared_names(s).contains(a),
        shared_names(s).contains(b),
        a != b,
    ensures
        replacement(shared_names(s), supply, a) != replacement(shared_names(s), supply, b),
{
    let seen = first_seen(shared_names(s));
    lemma_first_seen(shared_names(s));
    assert(seen.contains(a) && seen.contains(b));
    lemma_position(seen, a);
    lemma_position(seen, b);
    let i = choose|i: int| 0 <= i < seen.len() && seen[i] == a;
    let j = choose|j: int| 0 <= j < seen.len() && seen[j] == b;
    assert(position(seen, a) <= i && position(seen, b) <= j);
}

} // verus!
