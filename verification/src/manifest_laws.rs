//! What holds of the scripts that a manifest lists.
use crate::manifest::{
    are_scripts, by_place, entry_views, executions, is_array_of, is_walk, lists, met, placed,
    seconds, table_entries, Evaluation, LuaEntry, LuaKey, ScriptTables,
};
use crate::sandbox::{Execution, Lookup};
use crate::scrambler::DEFAULT_LOADER_LUA;
use crate::sorting::{law_stable_sort_permutes, stable_sorted, weak_order};
use vstd::multiset::Multiset;
use vstd::prelude::*;
use vstd::utf8::*;

verus! {

/// The number that a key is.
spec fn number(entry: Option<LuaEntry>) -> int {
    match entry->0.key {
        LuaKey::Integer(n) => n as int,
        LuaKey::Number(n) => n as int,
        LuaKey::Other => 0,
    }
}

/// The entry could be read, its key is a number, and its value a string in UTF-8.
spec fn counts(entry: Option<LuaEntry>) -> bool {
    entry matches Some(e) && !(e.key is Other) && e.value is Some && valid_utf8(e.value->0@)
}

/// Where the strings of a table stand in it.
proof fn lemma_sources(entries: Seq<Option<LuaEntry>>) -> (sources: Seq<int>)
    ensures
        sources.len() == placed(entries).len(),
        forall|k: int|
            0 <= k < sources.len() ==> 0 <= #[trigger] sources[k] < entries.len() && counts(
                entries[sources[k]],
            ) && placed(entries)[k] == (
                number(entries[sources[k]]),
                decode_utf8((entries[sources[k]]->0).value->0@),
            ),
        forall|k: int, m: int|
            0 <= k < m < sources.len() ==> #[trigger] sources[k] < #[trigger] sources[m],
        forall|i: int|
            0 <= i < entries.len() && counts(#[trigger] entries[i]) ==> sources.contains(i),
    decreases entries.len(),
{
    if entries.len() == 0 {
        Seq::empty()
    } else {
        let front = entries.drop_last();
        let n = front.len() as int;
        let before = lemma_sources(front);
        let sources = if counts(entries[n]) {
            before.push(n)
        } else {
            before
        };
        assert forall|i: int| 0 <= i < entries.len() && counts(
            #[trigger] entries[i],
        ) implies sources.contains(i) by {
            if i < n {
                assert(entries[i] == front[i]);
                let k = choose|k: int| 0 <= k < before.len() && before[k] == i;
                assert(sources[k] == i);
            } else {
                assert(sources[before.len() as int] == i);
            }
        }
        assert forall|k: int| 0 <= k < sources.len() implies 0 <= #[trigger] sources[k]
            < entries.len() && counts(entries[sources[k]]) && placed(entries)[k] == (
            number(entries[sources[k]]),
            decode_utf8((entries[sources[k]]->0).value->0@),
        ) by {
            if k < before.len() {
                assert(sources[k] == before[k]);
                assert(entries[sources[k]] == front[before[k]]);
            }
        }
        sources
    }
}

/// What a table lists: every string in UTF-8 whose key is a number and that could be read, each
/// entry once, and nothing else. They come in the order of their keys; those at one key in the
/// order of the entries.
pub proof fn law_listed_strings(entries: Seq<Option<LuaEntry>>, strings: Seq<Seq<char>>)
    requires
        is_array_of(strings, entries),
    ensures
        ({
            let counted = |i: int|
                entries[i] matches Some(entry) && !(entry.key is Other) && entry.value is Some
                    && valid_utf8(entry.value->0@);
            let key = |i: int|
                match entries[i]->0.key {
                    LuaKey::Integer(n) => n as int,
                    LuaKey::Number(n) => n as int,
                    LuaKey::Other => 0,
                };
            exists|order: Seq<int>|
                {
                    &&& #[trigger] order.len() == strings.len()
                    &&& forall|k: int|
                        0 <= k < order.len() ==> {
                            &&& 0 <= #[trigger] order[k] < entries.len()
                            &&& counted(order[k])
                            &&& strings[k] == decode_utf8((entries[order[k]]->0).value->0@)
                        }
                    &&& forall|i: int|
                        0 <= i < entries.len() && #[trigger] counted(i) ==> order.contains(i)
                    &&& forall|k: int, m: int|
                        0 <= k < m < order.len() ==> #[trigger] order[k] != #[trigger] order[m]
                            && (key(order[k]) < key(order[m]) || (key(order[k]) == key(order[m])
                            && order[k] < order[m]))
                }
        }),
{
    let counted = |i: int|
        entries[i] matches Some(entry) && !(entry.key is Other) && entry.value is Some
            && valid_utf8(entry.value->0@);
    let key = |i: int|
        match entries[i]->0.key {
            LuaKey::Integer(n) => n as int,
            LuaKey::Number(n) => n as int,
            LuaKey::Other => 0,
        };
    let lt = by_place();
    let old = placed(entries);
    let sorted = choose|sorted: Seq<(int, Seq<char>)>| #[trigger]
        stable_sorted(placed(entries), sorted, by_place()) && strings
            == seconds(sorted);
    let sources = lemma_sources(entries);
    assert(weak_order(lt));
    law_stable_sort_permutes(old, sorted, lt);
    let p = choose|p: Seq<int>|
        {
            &&& #[trigger] p.len() == sorted.len()
            &&& sorted.len() == old.len()
            &&& forall|k: int|
                0 <= k < sorted.len() ==> 0 <= #[trigger] p[k] < old.len() && sorted[k] == old[p[k]]
            &&& forall|k: int, m: int|
                0 <= k < m < sorted.len() ==> #[trigger] p[k] != #[trigger] p[m] && !lt(
                    old[p[m]],
                    old[p[k]],
                ) && (p[k] > p[m] ==> lt(old[p[k]], old[p[m]]))
            &&& forall|i: int| 0 <= i < old.len() ==> #[trigger] p.contains(i)
        };
    let order = Seq::new(strings.len(), |k: int| sources[p[k]]);
    assert(order.len() == strings.len());
    assert forall|k: int| 0 <= k < order.len() implies 0 <= #[trigger] order[k] < entries.len()
        && counted(order[k]) && strings[k] == decode_utf8((entries[order[k]]->0).value->0@) by {
        assert(0 <= p[k] < old.len());
        assert(order[k] == sources[p[k]]);
    }
    assert forall|i: int| 0 <= i < entries.len() && #[trigger] counted(i) implies order.contains(
        i,
    ) by {
        assert(counts(entries[i]));
        let a = choose|a: int| 0 <= a < sources.len() && sources[a] == i;
        assert(p.contains(a));
        let k = choose|k: int| 0 <= k < p.len() && p[k] == a;
        assert(order[k] == i);
    }
    assert forall|k: int, m: int| 0 <= k < m < order.len() implies #[trigger] order[k]
        != #[trigger] order[m] && (key(order[k]) < key(order[m]) || (key(order[k]) == key(order[m])
        && order[k] < order[m])) by {
        assert(p[k] != p[m]);
        assert(old[p[k]].0 == key(sources[p[k]]));
        assert(old[p[m]].0 == key(sources[p[m]]));
    }
}

/// A table that was not found lists nothing; one that was found lists what
/// [`law_listed_strings`] says.
pub proof fn law_lists(table: Option<Vec<Option<LuaEntry>>>, strings: Seq<Seq<char>>)
    requires
        lists(table, strings),
    ensures
        table is None ==> strings.len() == 0,
        table matches Some(entries) ==> is_array_of(strings, entries@),
{
}

/// The contents of entries, all of which could be read.
proof fn lemma_met(steps: Seq<Option<(LuaKey, Option<Seq<u8>>)>>)
    requires
        forall|i: int| 0 <= i < steps.len() ==> #[trigger] steps[i] is Some,
    ensures
        met(steps) == Seq::new(steps.len(), |i: int| steps[i]->0).to_multiset(),
    decreases steps.len(),
{
    broadcast use vstd::seq_lib::group_to_multiset_ensures;

    let all = Seq::new(steps.len(), |i: int| steps[i]->0);
    if steps.len() > 0 {
        let front = steps.drop_last();
        assert forall|i: int| 0 <= i < front.len() implies #[trigger] front[i] is Some by {
            assert(front[i] == steps[i]);
        }
        lemma_met(front);
        let before = Seq::new(front.len(), |i: int| front[i]->0);
        assert(all =~= before.push(steps.last()->0));
        assert(steps[steps.len() - 1] is Some);
    } else {
        assert(all =~= Seq::empty());
        assert(all.to_multiset() =~= Multiset::empty());
    }
}

/// The tables of scripts are those under `server` and `client` in the global table `__SCRIPTS`. Of
/// each all is read that stands in it, as long as no step of the walk fails, and there is one
/// exactly where it was found.
pub proof fn law_tables_are_read(before: Seq<Lookup>, after: Seq<Lookup>, tables: ScriptTables)
    requires
        are_scripts(before, after, Ok(tables)),
    ensures
        after.len() == before.len() + 3,
        before.is_prefix_of(after),
        after[before.len() as int].table is None,
        after[before.len() as int].key == "__SCRIPTS"@,
        after[before.len() as int].found is Ok,
        after[(before.len() + 1) as int].table == Some(after[before.len() as int].found->Ok_0),
        after[(before.len() + 1) as int].key == "server"@,
        after[(before.len() + 2) as int].table == Some(after[before.len() as int].found->Ok_0),
        after[(before.len() + 2) as int].key == "client"@,
        tables.server is Some <==> after[(before.len() + 1) as int].found is Ok,
        tables.client is Some <==> after[(before.len() + 2) as int].found is Ok,
        tables.server matches Some(entries) ==> (forall|i: int|
            0 <= i < entries@.len() ==> #[trigger] entries@[i] is Some) ==> Seq::new(
            entries@.len(),
            |i: int|
                (
                    (entries@[i]->0).key,
                    match (entries@[i]->0).value {
                        Some(bytes) => Some(bytes@),
                        None => None,
                    },
                ),
        ).to_multiset() == table_entries(after[(before.len() + 1) as int].found->Ok_0),
        tables.client matches Some(entries) ==> (forall|i: int|
            0 <= i < entries@.len() ==> #[trigger] entries@[i] is Some) ==> Seq::new(
            entries@.len(),
            |i: int|
                (
                    (entries@[i]->0).key,
                    match (entries@[i]->0).value {
                        Some(bytes) => Some(bytes@),
                        None => None,
                    },
                ),
        ).to_multiset() == table_entries(after[(before.len() + 2) as int].found->Ok_0),
{
    if tables.server is Some {
        let entries = tables.server->0;
        if forall|i: int| 0 <= i < entries@.len() ==> #[trigger] entries@[i] is Some {
            lemma_walk(entries@, table_entries(after[(before.len() + 1) as int].found->Ok_0));
        }
    }
    if tables.client is Some {
        let entries = tables.client->0;
        if forall|i: int| 0 <= i < entries@.len() ==> #[trigger] entries@[i] is Some {
            lemma_walk(entries@, table_entries(after[(before.len() + 2) as int].found->Ok_0));
        }
    }
}

/// Where there is no global table `__SCRIPTS`, nothing else is looked for, and the error is told.
pub proof fn law_missing_tables(before: Seq<Lookup>, after: Seq<Lookup>, failure: String)
    requires
        are_scripts(before, after, Err(failure)),
    ensures
        after.len() == before.len() + 1,
        before.is_prefix_of(after),
        after[before.len() as int].table is None,
        after[before.len() as int].key == "__SCRIPTS"@,
        after[before.len() as int].found == Err::<mlua::Table, Seq<char>>(failure@),
{
}

proof fn lemma_walk(
    entries: Seq<Option<LuaEntry>>,
    all: Multiset<(LuaKey, Option<Seq<u8>>)>,
)
    requires
        is_walk(entry_views(entries), all),
        forall|i: int| 0 <= i < entries.len() ==> #[trigger] entries[i] is Some,
    ensures
        Seq::new(
            entries.len(),
            |i: int|
                (
                    (entries[i]->0).key,
                    match (entries[i]->0).value {
                        Some(bytes) => Some(bytes@),
                        None => None,
                    },
                ),
        ).to_multiset() == all,
{
    let steps = entry_views(entries);
    assert forall|i: int| 0 <= i < steps.len() implies #[trigger] steps[i] is Some by {
        assert(entries[i] is Some);
    }
    lemma_met(steps);
    assert(Seq::new(steps.len(), |i: int| steps[i]->0) =~= Seq::new(
        entries.len(),
        |i: int|
            (
                (entries[i]->0).key,
                match (entries[i]->0).value {
                    Some(bytes) => Some(bytes@),
                    None => None,
                },
            ),
    ));
}

/// The loader runs first, and then, where it did not fail, the manifest. What is told of their
/// failures is what happened.
pub proof fn law_loader_runs_first(
    before: Seq<Execution>,
    loader: Seq<char>,
    manifest: Seq<char>,
    evaluation: Evaluation,
)
    ensures
        ({
            let after = executions(before, loader, manifest, evaluation);
            &&& before.is_prefix_of(after)
            &&& after[before.len() as int].program == loader
            &&& evaluation is LoaderFailed <==> after[before.len() as int].failure is Some
            &&& evaluation is LoaderFailed ==> after.len() == before.len() + 1
            &&& evaluation is Ran ==> after.len() == before.len() + 2
                && after[(before.len() + 1) as int].program == manifest
            &&& evaluation matches Evaluation::LoaderFailed(message)
                ==> after[before.len() as int].failure == Some(message@)
            &&& evaluation matches Evaluation::Ran { failure, .. } ==> after[(before.len()
                + 1) as int].failure == match failure {
                Some(message) => Some(message@),
                None => None,
            }
        }),
{
}

/// What runs before a manifest unless another program is given. The functions that list scripts put
/// every value that they are given behind those of the tables that they are for, one value or a
/// table of values: those for the server, those for the client, and those for both. The other
/// directives of manifests do nothing.
pub proof fn law_default_loader()
    ensures
        DEFAULT_LOADER_LUA@ == "__SCRIPTS = { server = {}, client = {} }

local function lister(...)
  local lists = { ... }
  return function(value)
    local values = value
    if type(values) ~= 'table' then
      values = { values }
    end
    for i = 1, #values do
      for j = 1, #lists do
        lists[j][#lists[j] + 1] = values[i]
      end
    end
  end
end

server_script = lister(__SCRIPTS.server)
server_scripts = server_script
client_script = lister(__SCRIPTS.client)
client_scripts = client_script
shared_script = lister(__SCRIPTS.server, __SCRIPTS.client)
shared_scripts = shared_script

local function dummy()
  return dummy
end

local ignored = {
  'resource_manifest_version', 'resource_type', 'fx_version', 'game', 'games',
  'name', 'description', 'version', 'author', 'url', 'repository', 'license',
  'dependency', 'dependencies', 'provide', 'file', 'files', 'data_file',
  'ui_page', 'ui_page_preload', 'loadscreen', 'loadscreen_manual_shutdown',
  'export', 'exports', 'server_export', 'server_exports', 'map', 'this_is_a_map',
  'before_level_meta', 'after_level_meta', 'replace_level_meta', 'server_only',
  'client_only', 'lua54', 'use_fxv2_oal', 'use_experimental_fxv2_oal', 'rdr3_warning',
  'convar_category', 'escrow_ignore', 'clr_disable_task_scheduler', 'disable_lazy_natives',
}

for i = 1, #ignored do
  _G[ignored[i]] = dummy
end
"@,
{
}

} // verus!
