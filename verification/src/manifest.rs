//! Manifests of resources: Lua programs that list the scripts of a resource.
use crate::sandbox::{found_of, text_of, Execution, Lookup, Sandbox};
use crate::sorting::{lemma_insert, stable_sorted, weak_order};
use crate::text::{copy_bytes, views};
use mlua::{Table, Value};
use vstd::multiset::Multiset;
use vstd::prelude::*;
use vstd::utf8::*;

verus! {

#[verifier::external_type_specification]
#[verifier::external_body]
pub struct ExError(mlua::Error);

/// What stands in a Lua table when it is walked.
pub uninterp spec fn table_entries(table: Table) -> Multiset<(LuaKey, Option<Seq<u8>>)>;

/// Walks a table with `mlua::Table::pairs`, and tells the variants of the `mlua::Value`s apart. Of
/// a key that is a number but no integer the fraction is cut off, and one that is out of range
/// becomes the nearest in range; of a value that is a string the bytes are taken, by
/// `mlua::String::as_bytes`.
///
/// What is claimed: the walk meets nothing but what stands in the table, each entry at most once,
/// and all of it unless it breaks off with an error. The order, which is that of Lua's hash table
/// and differs from run to run, is left open. The table is given up, since what stands in it can
/// change when a program runs: it is walked once. The call panics where the state of the table is
/// gone, which is why a state that holds the table has to be at hand.
#[verifier::external_body]
fn pairs(_sandbox: &Sandbox, table: Table) -> (r: Vec<Result<LuaEntry, mlua::Error>>)
    requires
        _sandbox.holds(table),
    ensures
        is_walk(readable(r@), table_entries(table)),
{
    let read = |entry: Result<(Value, Value), mlua::Error>| entry.map(|(key, value)| LuaEntry {
        key: match key {
            Value::Integer(i) => LuaKey::Integer(i),
            Value::Number(n) => LuaKey::Number(n as i64),
            _ => LuaKey::Other,
        },
        value: match value {
            Value::String(s) => Some(s.as_bytes().to_vec()),
            _ => None,
        },
    });
    table.pairs::<Value, Value>().map(read).collect()
}

/// A key of a Lua table, as far as it can say at which place an item stands.
#[derive(Clone, Copy, Debug)]
pub enum LuaKey {
    /// A whole number.
    Integer(i64),
    /// Another number, cut down to a whole one.
    Number(i64),
    /// A key that is no number.
    Other,
}

/// An entry of a Lua table. The value is there where it is a string, which may be any bytes.
#[derive(Debug)]
pub struct LuaEntry {
    pub key: LuaKey,
    pub value: Option<Vec<u8>>,
}

impl View for LuaEntry {
    type V = (LuaKey, Option<Seq<u8>>);

    open spec fn view(&self) -> (LuaKey, Option<Seq<u8>>) {
        (
            self.key,
            match self.value {
                Some(bytes) => Some(bytes@),
                None => None,
            },
        )
    }
}

/// What a walk met, step by step; a step may fail.
pub open spec fn readable(steps: Seq<Result<LuaEntry, mlua::Error>>) -> Seq<
    Option<(LuaKey, Option<Seq<u8>>)>,
> {
    Seq::new(
        steps.len(),
        |i: int|
            match steps[i] {
                Ok(entry) => Some(entry@),
                Err(_) => None,
            },
    )
}

/// The contents of entries, each where it could be read.
pub open spec fn entry_views(entries: Seq<Option<LuaEntry>>) -> Seq<
    Option<(LuaKey, Option<Seq<u8>>)>,
> {
    Seq::new(
        entries.len(),
        |i: int|
            match entries[i] {
                Some(entry) => Some(entry@),
                None => None,
            },
    )
}

/// The entries that could be read, in whatever order.
pub open spec fn met(steps: Seq<Option<(LuaKey, Option<Seq<u8>>)>>) -> Multiset<
    (LuaKey, Option<Seq<u8>>),
>
    decreases steps.len(),
{
    if steps.len() == 0 {
        Multiset::empty()
    } else {
        match steps.last() {
            Some(entry) => met(steps.drop_last()).insert(entry),
            None => met(steps.drop_last()),
        }
    }
}

/// The steps are those of a walk through a table that holds `all`: each entry is met at most once,
/// and where no step fails, every one is.
pub open spec fn is_walk(
    steps: Seq<Option<(LuaKey, Option<Seq<u8>>)>>,
    all: Multiset<(LuaKey, Option<Seq<u8>>)>,
) -> bool {
    &&& met(steps).subset_of(all)
    &&& (forall|i: int| 0 <= i < steps.len() ==> #[trigger] steps[i] is Some) ==> met(steps) == all
}

/// The place that a key stands for.
pub open spec fn place(key: LuaKey) -> Option<int> {
    match key {
        LuaKey::Integer(i) => Some(i as int),
        LuaKey::Number(n) => Some(n as int),
        LuaKey::Other => None,
    }
}

/// The strings of a table whose keys are numbers, with their places, in the order in which the
/// table was walked. Entries that could not be read and strings that are not UTF-8 are left out.
pub open spec fn placed(entries: Seq<Option<LuaEntry>>) -> Seq<(int, Seq<char>)>
    decreases entries.len(),
{
    if entries.len() == 0 {
        Seq::empty()
    } else {
        let before = placed(entries.drop_last());
        match entries.last() {
            Some(entry) => match (place(entry.key), entry.value) {
                (Some(at), Some(bytes)) => if valid_utf8(bytes@) {
                    before.push((at, decode_utf8(bytes@)))
                } else {
                    before
                },
                _ => before,
            },
            None => before,
        }
    }
}

/// The order of places.
pub open spec fn by_place() -> spec_fn((int, Seq<char>), (int, Seq<char>)) -> bool {
    |a: (int, Seq<char>), b: (int, Seq<char>)| a.0 < b.0
}

/// The second parts of pairs.
pub open spec fn seconds(pairs: Seq<(int, Seq<char>)>) -> Seq<Seq<char>> {
    Seq::new(pairs.len(), |i: int| pairs[i].1)
}

/// `strings` are the strings of the table in the order of their places; those at one place stand
/// in the order in which the table was walked.
pub open spec fn is_array_of(strings: Seq<Seq<char>>, entries: Seq<Option<LuaEntry>>) -> bool {
    exists|sorted: Seq<(int, Seq<char>)>| #[trigger]
        stable_sorted(placed(entries), sorted, by_place()) && strings == seconds(sorted)
}

/// Pairs of places and strings, as the model has them.
spec fn model(places: Seq<i64>, strings: Seq<String>) -> Seq<(int, Seq<char>)> {
    Seq::new(places.len(), |i: int| (places[i] as int, strings[i]@))
}

/// The strings of a table in the order of their places.
pub fn lua_array_to_strings(entries: &Vec<Option<LuaEntry>>) -> (r: Vec<String>)
    ensures
        is_array_of(views(r@), entries@),
{
    let ghost lt = by_place();
    let mut places: Vec<i64> = Vec::new();
    let mut strings: Vec<String> = Vec::new();
    let mut n: usize = 0;
    proof {
        assert(entries@.take(0) =~= Seq::empty());
        assert(model(places@, strings@) =~= Seq::empty());
    }
    while n < entries.len()
        invariant
            lt == by_place(),
            weak_order(lt),
            n <= entries.len(),
            places.len() == strings.len(),
            stable_sorted(placed(entries@.take(n as int)), model(places@, strings@), lt),
        decreases entries.len() - n,
    {
        let ghost before = placed(entries@.take(n as int));
        proof {
            assert(entries@.take(n + 1).drop_last() =~= entries@.take(n as int));
            assert(entries@.take(n + 1).last() == entries@[n as int]);
        }
        if let Some(entry) = &entries[n] {
            let at: Option<i64> = match entry.key {
                LuaKey::Integer(i) => Some(i),
                LuaKey::Number(i) => Some(i),
                LuaKey::Other => None,
            };
            if let Some(at) = at {
                if let Some(bytes) = &entry.value {
                    match core::str::from_utf8(bytes.as_slice()) {
                        Ok(text) => {
                            proof {
                                encode_utf8_decode_utf8(text@);
                            }
                            insert(&mut places, &mut strings, at, text, Ghost(before));
                        },
                        Err(_) => {},
                    }
                }
            }
        }
        n += 1;
    }
    proof {
        assert(entries@.take(n as int) =~= entries@);
        assert(views(strings@) =~= seconds(model(places@, strings@)));
    }
    strings
}

/// Puts a string behind those at its place and before it.
fn insert(
    places: &mut Vec<i64>,
    strings: &mut Vec<String>,
    at: i64,
    text: &str,
    Ghost(before): Ghost<Seq<(int, Seq<char>)>>,
)
    requires
        old(places)@.len() == old(strings)@.len(),
        stable_sorted(before, model(old(places)@, old(strings)@), by_place()),
    ensures
        final(places)@.len() == final(strings)@.len(),
        stable_sorted(
            before.push((at as int, text@)),
            model(final(places)@, final(strings)@),
            by_place(),
        ),
{
    let mut i: usize = places.len();
    while i > 0 && at < places[i - 1]
        invariant
            i <= places.len(),
            i < places.len() ==> at < places@[i as int],
        ensures
            i > 0 ==> at >= places@[i - 1],
        decreases i,
    {
        i -= 1;
    }
    proof {
        lemma_insert(
            before,
            model(places@, strings@),
            (at as int, text@),
            i as int,
            by_place(),
        );
    }
    places.insert(i, at);
    strings.insert(i, text.to_owned());
    assert(model(places@, strings@) =~= model(old(places)@, old(strings)@).insert(
        i as int,
        (at as int, text@),
    ));
}

/// The entries of a table, as far as they matter here, in the order of a walk through it.
fn read_entries(sandbox: &Sandbox, table: Table) -> (r: Vec<Option<LuaEntry>>)
    requires
        sandbox.holds(table),
    ensures
        is_walk(entry_views(r@), table_entries(table)),
{
    let found = pairs(sandbox, table);
    let ghost steps = readable(found@);
    let mut r: Vec<Option<LuaEntry>> = Vec::new();
    let mut i: usize = 0;
    assert(entry_views(r@) =~= steps.take(0));
    while i < found.len()
        invariant
            steps == readable(found@),
            i <= found.len(),
            entry_views(r@) == steps.take(i as int),
        decreases found.len() - i,
    {
        let entry: Option<LuaEntry> = match &found[i] {
            Ok(entry) => Some(
                LuaEntry {
                    key: entry.key,
                    value: match &entry.value {
                        Some(bytes) => Some(copy_bytes(bytes.as_slice())),
                        None => None,
                    },
                },
            ),
            Err(_) => None,
        };
        let ghost before = r@;
        let ghost item = entry_views(seq![entry])[0];
        r.push(entry);
        proof {
            assert(steps[i as int] == item);
            assert(entry_views(r@) =~= entry_views(before).push(item));
            assert(steps.take(i + 1) =~= steps.take(i as int).push(item));
        }
        i += 1;
    }
    assert(steps.take(i as int) =~= steps);
    r
}

/// `read` holds the entries of the table that was found, where one was.
pub open spec fn is_read(
    read: Option<Vec<Option<LuaEntry>>>,
    found: Result<Table, Seq<char>>,
) -> bool {
    match found {
        Ok(table) => read matches Some(entries) && is_walk(
            entry_views(entries@),
            table_entries(table),
        ),
        Err(_) => read is None,
    }
}

/// The entries of a table, where it was found.
fn read_found(sandbox: &Sandbox, found: Result<Table, String>) -> (r: Option<
    Vec<Option<LuaEntry>>,
>)
    requires
        found matches Ok(table) ==> sandbox.holds(table),
    ensures
        is_read(r, found_of(found)),
{
    match found {
        Ok(table) => Some(read_entries(sandbox, table)),
        Err(_) => None,
    }
}

impl Sandbox {
    /// Runs a program, and returns the message with which it failed, if it did. What it did before
    /// that stays done. Whether a program fails is not said here: it can depend on the clock and
    /// the disk.
    pub fn run(&mut self, program: &str) -> (r: Option<String>)
        ensures
            final(self).ran() == old(self).ran().push(
                Execution { program: program@, failure: text_of(r) },
            ),
            final(self).looked_up() == old(self).looked_up(),
    {
        self.execute(program)
    }

    /// The tables of scripts that the programs have left behind: those under `server` and `client`
    /// in the global table `__SCRIPTS`, or the message of the error where that is not there. Which
    /// tables are found is not said here: it is up to the programs.
    pub fn scripts(&mut self) -> (r: Result<ScriptTables, String>)
        ensures
            final(self).ran() == old(self).ran(),
            are_scripts(old(self).looked_up(), final(self).looked_up(), r),
    {
        let ghost n = self.looked_up().len() as int;
        match self.look_up_global("__SCRIPTS") {
            Ok(scripts) => {
                assert(self.looked_up()[n].found == found_of(Ok(scripts)));
                let found = self.look_up(&scripts, "server");
                assert(self.looked_up()[n + 1].found == found_of(found));
                let server = read_found(self, found);
                assert(self.looked_up()[n].found == found_of(Ok(scripts)));
                let found = self.look_up(&scripts, "client");
                assert(self.looked_up()[n + 2].found == found_of(found));
                let client = read_found(self, found);
                Ok(ScriptTables { server, client })
            },
            Err(failure) => Err(failure),
        }
    }
}

/// What is looked for to find the scripts: a global table, and then, where it is there, a table in
/// it for each side. The result holds what stands in those that were found.
pub open spec fn are_scripts(
    before: Seq<Lookup>,
    after: Seq<Lookup>,
    scripts: Result<ScriptTables, String>,
) -> bool {
    let n = before.len() as int;
    match scripts {
        Ok(tables) => {
            &&& after.len() == n + 3
            &&& before.is_prefix_of(after)
            &&& after[n].table is None && after[n].key == "__SCRIPTS"@
            &&& after[n].found matches Ok(table) && {
                &&& after[n + 1].table == Some(table) && after[n + 1].key == "server"@
                &&& after[n + 2].table == Some(table) && after[n + 2].key == "client"@
            }
            &&& is_read(tables.server, after[n + 1].found)
            &&& is_read(tables.client, after[n + 2].found)
        },
        Err(failure) => after == before.push(
            Lookup { table: None, key: "__SCRIPTS"@, found: Err(failure@) },
        ),
    }
}

/// The tables that list the scripts of a resource, each where there is one.
#[derive(Debug)]
pub struct ScriptTables {
    pub server: Option<Vec<Option<LuaEntry>>>,
    pub client: Option<Vec<Option<LuaEntry>>>,
}

/// What came of running a manifest.
#[derive(Debug)]
pub enum Evaluation {
    /// The loader failed, so that the manifest did not run.
    LoaderFailed(String),
    /// The manifest ran. It may have failed midway; what it listed before that counts.
    Ran { failure: Option<String>, scripts: Result<ScriptTables, String> },
}

/// Runs the loader, and then, where the loader did not fail, the manifest.
pub fn evaluate(sandbox: &mut Sandbox, loader: &str, manifest: &str) -> (r: Evaluation)
    ensures
        final(sandbox).ran() == executions(old(sandbox).ran(), loader@, manifest@, r),
        match r {
            Evaluation::LoaderFailed(_) => final(sandbox).looked_up() == old(sandbox).looked_up(),
            Evaluation::Ran { scripts, .. } => are_scripts(
                old(sandbox).looked_up(),
                final(sandbox).looked_up(),
                scripts,
            ),
        },
{
    match sandbox.run(loader) {
        Some(failure) => Evaluation::LoaderFailed(failure),
        None => {
            let failure: Option<String> = sandbox.run(manifest);
            Evaluation::Ran { failure, scripts: sandbox.scripts() }
        },
    }
}

/// What ran when a manifest was evaluated: the loader, and then, where that did not fail, the
/// manifest. The evaluation tells of the failure of either.
pub open spec fn executions(
    before: Seq<Execution>,
    loader: Seq<char>,
    manifest: Seq<char>,
    evaluation: Evaluation,
) -> Seq<Execution> {
    match evaluation {
        Evaluation::LoaderFailed(failure) => before.push(
            Execution { program: loader, failure: Some(failure@) },
        ),
        Evaluation::Ran { failure, .. } => before.push(
            Execution { program: loader, failure: None },
        ).push(Execution { program: manifest, failure: text_of(failure) }),
    }
}

/// `strings` are what a table lists; where there is no table, they are none.
pub open spec fn lists(table: Option<Vec<Option<LuaEntry>>>, strings: Seq<Seq<char>>) -> bool {
    match table {
        Some(entries) => is_array_of(strings, entries@),
        None => strings == Seq::<Seq<char>>::empty(),
    }
}

/// What a table lists, in order.
pub fn list_of(table: &Option<Vec<Option<LuaEntry>>>) -> (r: Vec<String>)
    ensures
        lists(*table, views(r@)),
{
    match table {
        Some(entries) => lua_array_to_strings(entries),
        None => {
            let r: Vec<String> = Vec::new();
            assert(views(r@) =~= Seq::<Seq<char>>::empty());
            r
        },
    }
}

} // verus!
