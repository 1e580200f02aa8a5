//! Lua states in which manifests run.
//!
//! What is done to a state is recorded, and the record grows by the calls of this module alone: no
//! other module can write to it.
use mlua::{Lua, Table};
use vstd::prelude::*;

verus! {

#[verifier::external_type_specification]
#[verifier::external_body]
pub struct ExLua(mlua::Lua);

#[verifier::external_type_specification]
#[verifier::external_body]
pub struct ExTable(mlua::Table);

/// `mlua::Lua::new` makes a Lua state with the standard libraries. Nothing is claimed of it. Where
/// there is no memory for it, the call panics.
pub assume_specification[ mlua::Lua::new ]() -> (r: Lua)
;

/// A program that ran, and the message with which it failed, if it did.
pub struct Execution {
    pub program: Seq<char>,
    pub failure: Option<Seq<char>>,
}

/// A table that was looked for: the table that it was looked for in, or none for the globals, its
/// key there, and what was found, or the message of the error.
pub struct Lookup {
    pub table: Option<Table>,
    pub key: Seq<char>,
    pub found: Result<Table, Seq<char>>,
}

/// The text of an optional message.
pub open spec fn text_of(message: Option<String>) -> Option<Seq<char>> {
    match message {
        Some(text) => Some(text@),
        None => None,
    }
}

/// What was found, or the text of the message.
pub open spec fn found_of(found: Result<Table, String>) -> Result<Table, Seq<char>> {
    match found {
        Ok(table) => Ok(table),
        Err(text) => Err(text@),
    }
}

/// A Lua state, and a record of the programs that ran in it and of the tables that were looked for.
pub struct Sandbox {
    lua: Lua,
    ran: Ghost<Seq<Execution>>,
    looked_up: Ghost<Seq<Lookup>>,
}

impl Sandbox {
    /// The programs that ran, in order.
    pub closed spec fn ran(&self) -> Seq<Execution> {
        self.ran@
    }

    /// The tables that were looked for, in order.
    pub closed spec fn looked_up(&self) -> Seq<Lookup> {
        self.looked_up@
    }

    /// The table was found in this state, so that it lives as long as the state does.
    pub open spec fn holds(&self, table: Table) -> bool {
        exists|i: int|
            0 <= i < self.looked_up().len() && (#[trigger] self.looked_up()[i]).found == Ok::<
                Table,
                Seq<char>,
            >(table)
    }

    /// A state in which no program ran.
    pub fn new() -> (r: Self)
        ensures
            r.ran() == Seq::<Execution>::empty(),
            r.looked_up() == Seq::<Lookup>::empty(),
    {
        Sandbox { lua: Lua::new(), ran: Ghost(Seq::empty()), looked_up: Ghost(Seq::empty()) }
    }

    /// Runs a program with `mlua::Lua::load` and `mlua::Chunk::exec`, and returns the message of the
    /// error, if there is one.
    ///
    /// What is claimed: this program ran, and ended as the result says. What it does is up to the
    /// program, which can read the clock and the disk; nothing is claimed of that, nor that it
    /// ends.
    #[verifier::external_body]
    pub(crate) fn execute(&mut self, program: &str) -> (r: Option<String>)
        ensures
            final(self).ran() == old(self).ran().push(
                Execution { program: program@, failure: text_of(r) },
            ),
            final(self).looked_up() == old(self).looked_up(),
    {
        self.lua.load(program).exec().err().map(|error| error.to_string())
    }

    /// Looks for a table among the globals with `mlua::Lua::globals` and `mlua::Table::get`, and
    /// returns it, or the message of the error.
    ///
    /// What is claimed: this key was looked for there, and what was found is the result. What is
    /// there is up to the programs that ran; nothing is claimed of that.
    #[verifier::external_body]
    pub(crate) fn look_up_global(&mut self, key: &str) -> (r: Result<Table, String>)
        ensures
            final(self).ran() == old(self).ran(),
            final(self).looked_up() == old(self).looked_up().push(
                Lookup { table: None, key: key@, found: found_of(r) },
            ),
    {
        self.lua.globals().get(key).map_err(|error| error.to_string())
    }

    /// Looks for a table in another with `mlua::Table::get`, and returns it, or the message of the
    /// error.
    ///
    /// What is claimed: this key was looked for in this table, and what was found is the result.
    /// What is there is up to the programs that ran; nothing is claimed of that. The call panics
    /// where the state of the table is gone, which is why the table has to be one of this state.
    #[verifier::external_body]
    pub(crate) fn look_up(&mut self, table: &Table, key: &str) -> (r: Result<Table, String>)
        requires
            old(self).holds(*table),
        ensures
            final(self).ran() == old(self).ran(),
            final(self).looked_up() == old(self).looked_up().push(
                Lookup { table: Some(*table), key: key@, found: found_of(r) },
            ),
    {
        table.get(key).map_err(|error: mlua::Error| error.to_string())
    }
}

} // verus!
