//! What holds of scripts that are rewritten more than once: for one side and then for the other, or
//! for one side several times.
use crate::calls::names_in;
use crate::gathering_laws::{is_custom_name, prepared};
use crate::passes::{
    distinguishable, harmless, law_passes_rename, paren_free, renamed_by, separate, Pass,
};
use crate::rewrite_laws::quote_free;
use crate::scrambling_laws::{
    in_scope, law_renamed, lemma_compatible, lemma_distinct, lemma_distinguishable, lemma_harmless,
    lemma_new_name, lemma_renamed_by, new_name, side_funcs, supplied,
};
use crate::state::{finished, State};
use crate::text::ends_with;
use crate::uuids::{all_uuids, is_uuid};
use crate::writer::{bucket_of, scrambled, script_passes, side_calls, Sort};
use vstd::prelude::*;
use vstd::utf8::*;

verus! {

/// The functions whose calls are rewritten on either side.
pub open spec fn all_funcs() -> Seq<Seq<char>> {
    side_funcs(true) + seq![
        "TriggerServerEvent"@,
        "ESX.TriggerServerCallback"@,
        "QBCore.Functions.TriggerCallback"@,
    ]
}

/// Where a function of [`all_funcs`] stands among those of one side, if it is looked at there.
pub open spec fn side_index(server: bool, a: int) -> Option<int> {
    if !server {
        client_index(a)
    } else if a < 10 {
        Some(a)
    } else {
        None
    }
}

/// Where a function of [`all_funcs`] stands among those of the client side.
pub open spec fn client_index(a: int) -> Option<int> {
    if 1 <= a <= 3 {
        Some(a)
    } else if 6 <= a <= 8 {
        Some(a - 1)
    } else if a == 10 {
        Some(0int)
    } else if a == 11 {
        Some(4int)
    } else if a == 12 {
        Some(8int)
    } else {
        None
    }
}

/// A function stands on a side where it is said to stand.
pub proof fn lemma_side_index(server: bool, a: int)
    requires
        0 <= a < all_funcs().len(),
    ensures
        side_index(server, a) matches Some(k) ==> 0 <= k < side_calls(server).len() && side_calls(
            server,
        )[k].0 == all_funcs()[a],
        side_index(true, a) is Some || side_index(false, a) is Some,
{
    lemma_client_index(a);
    assert(a < 10 ==> all_funcs()[a] == side_calls(true)[a].0);
}

proof fn lemma_client_index(a: int)
    requires
        0 <= a < all_funcs().len(),
    ensures
        client_index(a) matches Some(i) ==> 0 <= i < side_funcs(false).len() && side_funcs(false)[i]
            == all_funcs()[a],
        client_index(a) is None ==> a == 0 || a == 4 || a == 5 || a == 9,
{
    assert(a < 10 ==> all_funcs()[a] == side_calls(true)[a].0);
}

/// A text that differs from another at a distance from their ends is no end of it.
proof fn lemma_no_end(a: Seq<char>, b: Seq<char>, d: int)
    requires
        is_ascii_chars(a),
        is_ascii_chars(b),
        0 < d <= a.len(),
        d <= b.len(),
        a[a.len() - d] != b[b.len() - d],
    ensures
        !ends_with(encode_utf8(a), encode_utf8(b)),
        !ends_with(encode_utf8(b), encode_utf8(a)),
{
    is_ascii_chars_encode_utf8(a);
    is_ascii_chars_encode_utf8(b);
    let x = encode_utf8(a);
    let y = encode_utf8(b);
    assert(x[x.len() - d] == a[a.len() - d] as u8);
    assert(y[y.len() - d] == b[b.len() - d] as u8);
    if ends_with(x, y) {
        let end = x.skip(x.len() - y.len());
        assert(end[y.len() - d] == x[x.len() - d]);
    }
    if ends_with(y, x) {
        let end = y.skip(y.len() - x.len());
        assert(end[x.len() - d] == y[y.len() - d]);
    }
}

/// A function of the server side alone and one of the client side alone.
proof fn lemma_apart(a: int, b: int)
    requires
        a == 0 || a == 4 || a == 5 || a == 9,
        10 <= b <= 12,
    ensures
        !ends_with(encode_utf8(all_funcs()[a]), encode_utf8(all_funcs()[b])),
        !ends_with(encode_utf8(all_funcs()[b]), encode_utf8(all_funcs()[a])),
{
    reveal_strlit("RegisterServerEvent");
    reveal_strlit("TriggerClientEvent");
    reveal_strlit("ESX.RegisterServerCallback");
    reveal_strlit("QBCore.Functions.CreateCallback");
    reveal_strlit("TriggerServerEvent");
    reveal_strlit("ESX.TriggerServerCallback");
    reveal_strlit("QBCore.Functions.TriggerCallback");
    let x = all_funcs()[a];
    let y = all_funcs()[b];
    assert(x == side_calls(true)[a].0);
    let d = if a == 0 && b == 10 {
        14int
    } else if a == 4 && b == 10 {
        6int
    } else if a == 5 && b == 11 {
        17int
    } else if a == 5 && b == 12 {
        11int
    } else if a == 9 && b > 10 {
        9int
    } else {
        1int
    };
    lemma_no_end(x, y, d);
}

/// The functions whose calls are rewritten on either side cannot be mistaken for each other.
pub proof fn lemma_all_distinguishable()
    ensures
        distinguishable(all_funcs()),
{
    let funcs = all_funcs();
    let server = side_funcs(true);
    let client = side_funcs(false);
    lemma_distinguishable(true);
    lemma_distinguishable(false);
    assert forall|a: int| 0 <= a < funcs.len() implies quote_free(
        #[trigger] funcs[a],
    ) && paren_free(funcs[a]) by {
        lemma_client_index(a);
        if a < 10 {
            assert(funcs[a] == server[a]);
        } else {
            assert(funcs[a] == client[client_index(a)->0]);
        }
    }
    assert forall|a: int, b: int|
        0 <= a < funcs.len() && 0 <= b < funcs.len() && a != b implies !ends_with(
        encode_utf8(#[trigger] funcs[a]),
        encode_utf8(#[trigger] funcs[b]),
    ) by {
        lemma_client_index(a);
        lemma_client_index(b);
        if a < 10 && b < 10 {
            assert(funcs[a] == server[a] && funcs[b] == server[b]);
        } else if client_index(a) is Some && client_index(b) is Some {
            assert(funcs[a] == client[client_index(a)->0]);
            assert(funcs[b] == client[client_index(b)->0]);
        } else if a < 10 {
            lemma_apart(a, b);
        } else {
            lemma_apart(b, a);
        }
    }
}

/// Where a function of the client side stands among [`all_funcs`].
spec fn full_index(j: int) -> int {
    if j == 0 {
        10
    } else if j == 4 {
        11
    } else if j == 8 {
        12
    } else if j < 4 {
        j
    } else {
        j + 1
    }
}

proof fn lemma_full_index(j: int)
    requires
        0 <= j < side_calls(false).len(),
    ensures
        0 <= full_index(j) < all_funcs().len(),
        all_funcs()[full_index(j)] == side_calls(false)[j].0,
        client_index(full_index(j)) == Some(j),
{
    let a = full_index(j);
    assert(a < 10 ==> all_funcs()[a] == side_calls(true)[a].0);
}

/// A function of one side stands in one place among all.
proof fn lemma_place(server: bool, k: int, a: int)
    requires
        0 <= k < side_calls(server).len(),
        0 <= a < all_funcs().len(),
        side_calls(server)[k].0 == all_funcs()[a],
    ensures
        side_index(server, a) == Some(k),
{
    lemma_all_distinguishable();
    if server {
        assert(all_funcs()[k] == side_calls(true)[k].0);
        lemma_distinct(all_funcs(), k, a);
    } else {
        lemma_full_index(k);
        lemma_distinct(all_funcs(), full_index(k), a);
    }
}

/// What becomes of a script that is rewritten for some sides, one after the other.
pub open spec fn in_turn(t: State, sides: Seq<bool>, code: Seq<u8>) -> Seq<u8>
    decreases sides.len(),
{
    if sides.len() == 0 {
        code
    } else {
        scrambled(t, sides.last(), in_turn(t, sides.drop_last(), code))
    }
}

/// The sorts of names that are looked up at the calls of a function of [`all_funcs`] on one side.
pub open spec fn sorts_on(server: bool, a: int) -> Seq<Sort> {
    match side_index(server, a) {
        Some(k) => side_calls(server)[k].1,
        None => Seq::empty(),
    }
}

/// What stands for a name at the calls of a function after a script was rewritten for one side.
pub open spec fn renamed_on(
    s: State,
    supply: Seq<Seq<char>>,
    esx: Seq<Seq<char>>,
    server: bool,
    a: int,
    name: Seq<char>,
) -> Seq<char> {
    let sorts = sorts_on(server, a);
    if in_scope(s, sorts, name) {
        new_name(s, supply, esx, sorts[0], name)
    } else {
        name
    }
}

/// The same after it was rewritten for some sides, one after the other.
pub open spec fn renamed_in_turn(
    s: State,
    supply: Seq<Seq<char>>,
    esx: Seq<Seq<char>>,
    sides: Seq<bool>,
    a: int,
    name: Seq<char>,
) -> Seq<char>
    decreases sides.len(),
{
    if sides.len() == 0 {
        name
    } else {
        let before = renamed_in_turn(s, supply, esx, sides.drop_last(), a, name);
        renamed_on(s, supply, esx, sides.last(), a, before)
    }
}

proof fn lemma_renamed_by_none(passes: Seq<Pass>, func: Seq<char>, name: Seq<char>)
    requires
        forall|i: int| 0 <= i < passes.len() ==> (#[trigger] passes[i]).func != func,
    ensures
        renamed_by(passes, func, name) == name,
    decreases passes.len(),
{
    if passes.len() > 0 {
        let front = passes.drop_last();
        assert forall|i: int| 0 <= i < front.len() implies (#[trigger] front[i]).func != func by {
            assert(front[i] == passes[i]);
        }
        lemma_renamed_by_none(front, func, name);
        assert(passes[passes.len() - 1] == passes.last());
    }
}

/// What the passes over a script of one side make of a name.
proof fn lemma_renamed_on(
    s: State,
    supply: Seq<Seq<char>>,
    esx: Seq<Seq<char>>,
    server: bool,
    a: int,
    name: Seq<char>,
)
    requires
        prepared(s),
        supplied(s, supply, esx),
        0 <= a < all_funcs().len(),
    ensures
        renamed_by(script_passes(finished(s, supply, esx), server), all_funcs()[a], name)
            == renamed_on(s, supply, esx, server, a, name),
{
    let t = finished(s, supply, esx);
    let passes = script_passes(t, server);
    lemma_side_index(server, a);
    match side_index(server, a) {
        Some(k) => {
            lemma_renamed_by(t, server, passes.len() as int, k, name);
            assert(passes.take(passes.len() as int) =~= passes);
            law_renamed(s, supply, esx, server, k, name);
        },
        None => {
            assert forall|i: int| 0 <= i < passes.len() implies (#[trigger] passes[i]).func
                != all_funcs()[a] by {
                if side_calls(server)[i].0 == all_funcs()[a] {
                    lemma_place(server, i, a);
                }
            }
            lemma_renamed_by_none(passes, all_funcs()[a], name);
        },
    }
}

/// Rewriting for one side, seen by the functions of both.
proof fn lemma_side(
    s: State,
    supply: Seq<Seq<char>>,
    esx: Seq<Seq<char>>,
    server: bool,
    code: Seq<u8>,
    a: int,
)
    requires
        prepared(s),
        supplied(s, supply, esx),
        all_uuids(supply),
        all_uuids(esx),
        0 <= a < all_funcs().len(),
        separate(all_funcs(), code),
    ensures
        separate(all_funcs(), scrambled(finished(s, supply, esx), server, code)),
        names_in(all_funcs()[a], scrambled(finished(s, supply, esx), server, code)) == names_in(
            all_funcs()[a],
            code,
        ).map_values(|name: Seq<char>| renamed_on(s, supply, esx, server, a, name)),
{
    let t = finished(s, supply, esx);
    let passes = script_passes(t, server);
    let funcs = all_funcs();
    lemma_all_distinguishable();
    assert forall|i: int| 0 <= i < passes.len() implies harmless((#[trigger] passes[i]).maps)
        && funcs.contains(passes[i].func) by {
        lemma_harmless(s, supply, esx, side_calls(server)[i].1);
        if server {
            assert(funcs[i] == passes[i].func);
        } else {
            lemma_full_index(i);
            assert(funcs[full_index(i)] == passes[i].func);
        }
    }
    law_passes_rename(funcs, passes, code, a);
    let before = names_in(funcs[a], code);
    let after = names_in(funcs[a], scrambled(t, server, code));
    assert forall|i: int| 0 <= i < before.len() implies after[i] == renamed_on(
        s,
        supply,
        esx,
        server,
        a,
        before[i],
    ) by {
        lemma_renamed_on(s, supply, esx, server, a, before[i]);
    }
    assert(after =~= before.map_values(
        |name: Seq<char>| renamed_on(s, supply, esx, server, a, name),
    ));
}

/// A script that is rewritten for some sides, one after the other, calls each function as it did
/// before, in the same order, with the names that come of this. Left out are scripts in which a
/// call begins inside one of another function.
pub proof fn law_renamed_in_turn(
    s: State,
    supply: Seq<Seq<char>>,
    esx: Seq<Seq<char>>,
    sides: Seq<bool>,
    code: Seq<u8>,
    a: int,
)
    requires
        prepared(s),
        supplied(s, supply, esx),
        all_uuids(supply),
        all_uuids(esx),
        0 <= a < all_funcs().len(),
        separate(all_funcs(), code),
    ensures
        separate(all_funcs(), in_turn(finished(s, supply, esx), sides, code)),
        names_in(all_funcs()[a], in_turn(finished(s, supply, esx), sides, code)) == names_in(
            all_funcs()[a],
            code,
        ).map_values(|name: Seq<char>| renamed_in_turn(s, supply, esx, sides, a, name)),
    decreases sides.len(),
{
    let t = finished(s, supply, esx);
    let func = all_funcs()[a];
    if sides.len() > 0 {
        let front = sides.drop_last();
        law_renamed_in_turn(s, supply, esx, front, code, a);
        lemma_side(s, supply, esx, sides.last(), in_turn(t, front, code), a);
    }
    assert(names_in(func, in_turn(t, sides, code)) =~= names_in(func, code).map_values(
        |name: Seq<char>| renamed_in_turn(s, supply, esx, sides, a, name),
    ));
}

/// A name that is looked for on one of the sides becomes a UUID, and stays one. Every other name
/// stays as it is.
pub proof fn law_turns(
    s: State,
    supply: Seq<Seq<char>>,
    esx: Seq<Seq<char>>,
    sides: Seq<bool>,
    a: int,
    name: Seq<char>,
)
    requires
        supplied(s, supply, esx),
        all_uuids(supply),
        all_uuids(esx),
        0 <= a < all_funcs().len(),
    ensures
        ({
            let new = renamed_in_turn(s, supply, esx, sides, a, name);
            if exists|x: int| 0 <= x < sides.len() && in_scope(
                s,
                sorts_on(#[trigger] sides[x], a),
                name,
            ) {
                is_uuid(new)
            } else {
                new == name
            }
        }),
    decreases sides.len(),
{
    if sides.len() > 0 {
        let front = sides.drop_last();
        let before = renamed_in_turn(s, supply, esx, front, a, name);
        law_turns(s, supply, esx, front, a, name);
        lemma_renamed_uuid(s, supply, esx, sides.last(), a, before);
        if exists|x: int| 0 <= x < front.len() && in_scope(
            s,
            sorts_on(#[trigger] front[x], a),
            name,
        ) {
            let x = choose|x: int| 0 <= x < front.len() && in_scope(
                s,
                sorts_on(#[trigger] front[x], a),
                name,
            );
            assert(sides[x] == front[x]);
        } else if exists|x: int| 0 <= x < sides.len() && in_scope(
            s,
            sorts_on(#[trigger] sides[x], a),
            name,
        ) {
            let x = choose|x: int| 0 <= x < sides.len() && in_scope(
                s,
                sorts_on(#[trigger] sides[x], a),
                name,
            );
            if x < front.len() {
                assert(front[x] == sides[x]);
            }
        } else {
            assert(sides[sides.len() - 1] == sides.last());
        }
    }
}

proof fn lemma_renamed_uuid(
    s: State,
    supply: Seq<Seq<char>>,
    esx: Seq<Seq<char>>,
    server: bool,
    a: int,
    name: Seq<char>,
)
    requires
        supplied(s, supply, esx),
        all_uuids(supply),
        all_uuids(esx),
        0 <= a < all_funcs().len(),
    ensures
        in_scope(s, sorts_on(server, a), name) ==> is_uuid(
            renamed_on(s, supply, esx, server, a, name),
        ),
{
    let sorts = sorts_on(server, a);
    lemma_side_index(server, a);
    if in_scope(s, sorts, name) {
        let i = choose|i: int|
            0 <= i < sorts.len() && bucket_of(s, #[trigger] sorts[i]).old.names.contains(name);
        lemma_compatible(server, side_index(server, a)->0);
        lemma_new_name(s, supply, esx, sorts[i], name);
    }
}

/// The sorts of names that are looked up at the calls of a function on either side.
pub open spec fn both_sorts(a: int) -> Seq<Sort> {
    sorts_on(true, a) + sorts_on(false, a)
}

pub proof fn lemma_both_sorts(s: State, a: int, name: Seq<char>)
    ensures
        in_scope(s, both_sorts(a), name) <==> in_scope(s, sorts_on(true, a), name) || in_scope(
            s,
            sorts_on(false, a),
            name,
        ),
{
    let x = sorts_on(true, a);
    let y = sorts_on(false, a);
    let both = both_sorts(a);
    if in_scope(s, x, name) {
        let i = choose|i: int|
            0 <= i < x.len() && bucket_of(s, #[trigger] x[i]).old.names.contains(name);
        assert(both[i] == x[i]);
    }
    if in_scope(s, y, name) {
        let i = choose|i: int|
            0 <= i < y.len() && bucket_of(s, #[trigger] y[i]).old.names.contains(name);
        assert(both[x.len() + i] == y[i]);
    }
    if in_scope(s, both, name) {
        let i = choose|i: int|
            0 <= i < both.len() && bucket_of(s, #[trigger] both[i]).old.names.contains(name);
        if i < x.len() {
            assert(x[i] == both[i]);
        } else {
            assert(y[i - x.len()] == both[i]);
        }
    }
}

/// No replacement is a name that is itself replaced.
pub open spec fn unused(s: State, news: Seq<Seq<char>>) -> bool {
    forall|i: int| 0 <= i < news.len() ==> !is_custom_name(s, #[trigger] news[i])
}

/// A script that runs on both sides is rewritten for the server, and what comes of that for the
/// client. Every function that is looked at on either side is then called as it was before, with
/// new names in the place of those that it is for on either side. Left out are scripts in which a
/// call begins inside one of another function, and replacements that are themselves names to be
/// replaced.
pub proof fn law_shared_script_renamed(
    s: State,
    supply: Seq<Seq<char>>,
    esx: Seq<Seq<char>>,
    code: Seq<u8>,
    a: int,
)
    requires
        prepared(s),
        supplied(s, supply, esx),
        all_uuids(supply),
        all_uuids(esx),
        unused(s, supply),
        0 <= a < all_funcs().len(),
        separate(all_funcs(), code),
    ensures
        ({
            let t = finished(s, supply, esx);
            let func = all_funcs()[a];
            let sorts = both_sorts(a);
            names_in(func, scrambled(t, false, scrambled(t, true, code))) == names_in(
                func,
                code,
            ).map_values(
                |name: Seq<char>|
                    if in_scope(s, sorts, name) {
                        new_name(s, supply, esx, sorts[0], name)
                    } else {
                        name
                    },
            )
        }),
{
    let t = finished(s, supply, esx);
    let func = all_funcs()[a];
    let sorts = both_sorts(a);
    let middle = scrambled(t, true, code);
    lemma_side(s, supply, esx, true, code, a);
    lemma_side(s, supply, esx, false, middle, a);
    let before = names_in(func, code);
    let after = names_in(func, scrambled(t, false, middle));
    let new = |name: Seq<char>|
        if in_scope(s, sorts, name) {
            new_name(s, supply, esx, sorts[0], name)
        } else {
            name
        };
    assert forall|i: int| 0 <= i < before.len() implies after[i] == new(before[i]) by {
        lemma_renamed_both(s, supply, esx, a, before[i]);
    }
    assert(after =~= before.map_values(new));
}

proof fn lemma_renamed_both(
    s: State,
    supply: Seq<Seq<char>>,
    esx: Seq<Seq<char>>,
    a: int,
    name: Seq<char>,
)
    requires
        supplied(s, supply, esx),
        all_uuids(supply),
        all_uuids(esx),
        unused(s, supply),
        0 <= a < all_funcs().len(),
    ensures
        ({
            let sorts = both_sorts(a);
            renamed_on(
                s,
                supply,
                esx,
                false,
                a,
                renamed_on(s, supply, esx, true, a, name),
            ) == if in_scope(s, sorts, name) {
                new_name(s, supply, esx, sorts[0], name)
            } else {
                name
            }
        }),
{
    let sorts = sorts_on(true, a);
    let more = sorts_on(false, a);
    let first = renamed_on(s, supply, esx, true, a, name);
    lemma_both_sorts(s, a, name);
    if sorts.len() > 0 && more.len() > 0 {
        lemma_no_esx(a);
    }
    if in_scope(s, sorts, name) {
        let i = choose|i: int|
            0 <= i < sorts.len() && bucket_of(s, #[trigger] sorts[i]).old.names.contains(name);
        assert(both_sorts(a)[0] == sorts[0]);
        if more.len() > 0 {
            lemma_new_name(s, supply, esx, sorts[i], name);
            let j = choose|j: int| 0 <= j < supply.len() && supply[j] == first;
            assert(!is_custom_name(s, supply[j]));
        }
        if in_scope(s, more, first) {
            let j = choose|j: int|
                0 <= j < more.len() && bucket_of(s, #[trigger] more[j]).old.names.contains(first);
            assert(is_custom_name(s, first));
        }
    } else if sorts.len() > 0 {
        assert(both_sorts(a)[0] == sorts[0]);
    } else {
        assert(both_sorts(a) =~= more);
    }
}

/// The callbacks of ESX are registered on one side and triggered on the other by functions of
/// different names.
proof fn lemma_no_esx(a: int)
    requires
        0 <= a < all_funcs().len(),
        sorts_on(true, a).len() > 0,
        sorts_on(false, a).len() > 0,
    ensures
        forall|i: int|
            0 <= i < sorts_on(true, a).len() ==> !(#[trigger] sorts_on(true, a)[i] is Esx),
        !(sorts_on(false, a)[0] is Esx),
{
    assert(1 <= a <= 3 || 6 <= a <= 8);
}

} // verus!
