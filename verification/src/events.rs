//! The functions through which scripts register and trigger events, and the names that a set of
//! scripts passes to them.
use crate::calls::{names_in, scan_pattern, scan_regex, CallRegex, MAX_FUNC};
use crate::names::{admitted, extract_into_filtered, lemma_admit_concat, NameList};
use crate::scripts::{in_system_resource, is_system_path};
use crate::text::views;
use vstd::hash_set::StringHashSet;
use vstd::prelude::*;
use vstd::utf8::*;

verus! {

/// Functions whose names are server events, in scripts of the server.
pub open spec fn server_event_calls() -> Seq<Seq<char>> {
    seq!["RegisterServerEvent"@, "AddEventHandler"@, "TriggerEvent"@]
}

/// Functions whose names are net events, on both sides.
pub open spec fn net_event_calls() -> Seq<Seq<char>> {
    seq!["RegisterNetEvent"@]
}

/// Functions whose names are client events, in scripts of the client.
pub open spec fn client_event_calls() -> Seq<Seq<char>> {
    seq!["AddEventHandler"@, "TriggerEvent"@]
}

/// Functions whose names are callbacks of ox_lib, on both sides.
pub open spec fn oxlib_calls() -> Seq<Seq<char>> {
    seq!["lib.callback.register"@, "lib.callback.await"@, "lib.callback"@]
}

/// Functions whose names are callbacks of ESX: they are registered on the server and triggered on
/// the client.
pub open spec fn esx_calls(server: bool) -> Seq<Seq<char>> {
    if server {
        seq!["ESX.RegisterServerCallback"@]
    } else {
        seq!["ESX.TriggerServerCallback"@]
    }
}

/// Functions whose names are callbacks of QBCore: they are created on the server and triggered on
/// the client.
pub open spec fn qbcore_calls(server: bool) -> Seq<Seq<char>> {
    if server {
        seq!["QBCore.Functions.CreateCallback"@]
    } else {
        seq!["QBCore.Functions.TriggerCallback"@]
    }
}

/// The functions' names are short enough for a [`CallRegex`].
pub proof fn lemma_func_lengths()
    ensures
        encode_utf8("AddEventHandler"@).len() <= MAX_FUNC,
        encode_utf8("TriggerEvent"@).len() <= MAX_FUNC,
        encode_utf8("TriggerClientEvent"@).len() <= MAX_FUNC,
        encode_utf8("TriggerServerEvent"@).len() <= MAX_FUNC,
        encode_utf8("RegisterServerEvent"@).len() <= MAX_FUNC,
        encode_utf8("RegisterNetEvent"@).len() <= MAX_FUNC,
        encode_utf8("ESX.RegisterServerCallback"@).len() <= MAX_FUNC,
        encode_utf8("ESX.TriggerServerCallback"@).len() <= MAX_FUNC,
        encode_utf8("lib.callback.register"@).len() <= MAX_FUNC,
        encode_utf8("lib.callback.await"@).len() <= MAX_FUNC,
        encode_utf8("lib.callback"@).len() <= MAX_FUNC,
        encode_utf8("QBCore.Functions.CreateCallback"@).len() <= MAX_FUNC,
        encode_utf8("QBCore.Functions.TriggerCallback"@).len() <= MAX_FUNC,
{
    reveal_strlit("AddEventHandler");
    reveal_strlit("TriggerEvent");
    reveal_strlit("TriggerClientEvent");
    reveal_strlit("TriggerServerEvent");
    reveal_strlit("RegisterServerEvent");
    reveal_strlit("RegisterNetEvent");
    reveal_strlit("ESX.RegisterServerCallback");
    reveal_strlit("ESX.TriggerServerCallback");
    reveal_strlit("lib.callback.register");
    reveal_strlit("lib.callback.await");
    reveal_strlit("lib.callback");
    reveal_strlit("QBCore.Functions.CreateCallback");
    reveal_strlit("QBCore.Functions.TriggerCallback");
    is_ascii_chars_encode_utf8("AddEventHandler"@);
    is_ascii_chars_encode_utf8("TriggerEvent"@);
    is_ascii_chars_encode_utf8("TriggerClientEvent"@);
    is_ascii_chars_encode_utf8("TriggerServerEvent"@);
    is_ascii_chars_encode_utf8("RegisterServerEvent"@);
    is_ascii_chars_encode_utf8("RegisterNetEvent"@);
    is_ascii_chars_encode_utf8("ESX.RegisterServerCallback"@);
    is_ascii_chars_encode_utf8("ESX.TriggerServerCallback"@);
    is_ascii_chars_encode_utf8("lib.callback.register"@);
    is_ascii_chars_encode_utf8("lib.callback.await"@);
    is_ascii_chars_encode_utf8("lib.callback"@);
    is_ascii_chars_encode_utf8("QBCore.Functions.CreateCallback"@);
    is_ascii_chars_encode_utf8("QBCore.Functions.TriggerCallback"@);
}

/// The expressions that find event names, one for each function.
pub struct EventRegexes {
    pub add_event_handler: CallRegex,
    pub trigger_event: CallRegex,
    pub register_server_event: CallRegex,
    pub register_net_event: CallRegex,
    pub esx_register_server_callback: CallRegex,
    pub esx_trigger_server_callback: CallRegex,
    pub oxlib_callback_register: CallRegex,
    pub oxlib_callback_await: CallRegex,
    pub oxlib_callback: CallRegex,
    pub qbcore_create_callback: CallRegex,
    pub qbcore_trigger_callback: CallRegex,
}

/// `re` is the expression that scans for the names passed to `func`.
pub open spec fn scans(re: CallRegex, func: Seq<char>) -> bool {
    re.wf() && re.func@ == func && re.pattern@ == scan_pattern(func)
}

impl EventRegexes {
    /// Each expression is the one that scans for the function it is named after.
    pub open spec fn wf(&self) -> bool {
        &&& scans(self.add_event_handler, "AddEventHandler"@)
        &&& scans(self.trigger_event, "TriggerEvent"@)
        &&& scans(self.register_server_event, "RegisterServerEvent"@)
        &&& scans(self.register_net_event, "RegisterNetEvent"@)
        &&& scans(self.esx_register_server_callback, "ESX.RegisterServerCallback"@)
        &&& scans(self.esx_trigger_server_callback, "ESX.TriggerServerCallback"@)
        &&& scans(self.oxlib_callback_register, "lib.callback.register"@)
        &&& scans(self.oxlib_callback_await, "lib.callback.await"@)
        &&& scans(self.oxlib_callback, "lib.callback"@)
        &&& scans(self.qbcore_create_callback, "QBCore.Functions.CreateCallback"@)
        &&& scans(self.qbcore_trigger_callback, "QBCore.Functions.TriggerCallback"@)
    }

    /// The expressions. That for `lib.callback` does not find `lib.callback.register`: it asks for
    /// a parenthesis right after the name.
    pub fn new() -> (r: Self)
        ensures
            r.wf(),
    {
        proof {
            lemma_func_lengths();
        }
        EventRegexes {
            add_event_handler: scan_regex("AddEventHandler"),
            trigger_event: scan_regex("TriggerEvent"),
            register_server_event: scan_regex("RegisterServerEvent"),
            register_net_event: scan_regex("RegisterNetEvent"),
            esx_register_server_callback: scan_regex("ESX.RegisterServerCallback"),
            esx_trigger_server_callback: scan_regex("ESX.TriggerServerCallback"),
            oxlib_callback_register: scan_regex("lib.callback.register"),
            oxlib_callback_await: scan_regex("lib.callback.await"),
            oxlib_callback: scan_regex("lib.callback"),
            qbcore_create_callback: scan_regex("QBCore.Functions.CreateCallback"),
            qbcore_trigger_callback: scan_regex("QBCore.Functions.TriggerCallback"),
        }
    }

    /// Functions that give server events, in scripts of the server.
    pub(crate) fn server_events(&self) -> (r: Vec<&CallRegex>)
        requires
            self.wf(),
        ensures
            all_wf(r@),
            funcs(r@) == server_event_calls(),
    {
        let r: Vec<&CallRegex> = vec![
            &self.register_server_event,
            &self.add_event_handler,
            &self.trigger_event,
        ];
        assert(funcs(r@) =~= server_event_calls());
        r
    }

    /// Functions that give net events.
    pub(crate) fn net_events(&self) -> (r: Vec<&CallRegex>)
        requires
            self.wf(),
        ensures
            all_wf(r@),
            funcs(r@) == net_event_calls(),
    {
        let r: Vec<&CallRegex> = vec![&self.register_net_event];
        assert(funcs(r@) =~= net_event_calls());
        r
    }

    /// Functions that give client events, in scripts of the client.
    pub(crate) fn client_events(&self) -> (r: Vec<&CallRegex>)
        requires
            self.wf(),
        ensures
            all_wf(r@),
            funcs(r@) == client_event_calls(),
    {
        let r: Vec<&CallRegex> = vec![&self.add_event_handler, &self.trigger_event];
        assert(funcs(r@) =~= client_event_calls());
        r
    }

    /// Functions that give callbacks of ox_lib.
    pub(crate) fn oxlib_callbacks(&self) -> (r: Vec<&CallRegex>)
        requires
            self.wf(),
        ensures
            all_wf(r@),
            funcs(r@) == oxlib_calls(),
    {
        let r: Vec<&CallRegex> = vec![
            &self.oxlib_callback_register,
            &self.oxlib_callback_await,
            &self.oxlib_callback,
        ];
        assert(funcs(r@) =~= oxlib_calls());
        r
    }

    /// Functions that give callbacks of ESX, in scripts of one side.
    pub(crate) fn esx_callbacks(&self, server: bool) -> (r: Vec<&CallRegex>)
        requires
            self.wf(),
        ensures
            all_wf(r@),
            funcs(r@) == esx_calls(server),
    {
        let r: Vec<&CallRegex> = if server {
            vec![&self.esx_register_server_callback]
        } else {
            vec![&self.esx_trigger_server_callback]
        };
        assert(funcs(r@) =~= esx_calls(server));
        r
    }

    /// Functions that give callbacks of QBCore, in scripts of one side.
    pub(crate) fn qbcore_callbacks(&self, server: bool) -> (r: Vec<&CallRegex>)
        requires
            self.wf(),
        ensures
            all_wf(r@),
            funcs(r@) == qbcore_calls(server),
    {
        let r: Vec<&CallRegex> = if server {
            vec![&self.qbcore_create_callback]
        } else {
            vec![&self.qbcore_trigger_callback]
        };
        assert(funcs(r@) =~= qbcore_calls(server));
        r
    }
}

/// Every expression is one of its function.
pub open spec fn all_wf(calls: Seq<&CallRegex>) -> bool {
    forall|i: int| 0 <= i < calls.len() ==> (#[trigger] calls[i]).wf()
}

/// The texts of scripts, as far as they could be read.
pub open spec fn texts(codes: Seq<Option<Vec<u8>>>) -> Seq<Option<Seq<u8>>> {
    Seq::new(
        codes.len(),
        |i: int|
            match codes[i] {
                Some(code) => Some(code@),
                None => None,
            },
    )
}

/// The functions that the expressions are for.
pub open spec fn funcs(calls: Seq<&CallRegex>) -> Seq<Seq<char>> {
    Seq::new(calls.len(), |i: int| calls[i].func@)
}

/// The names that a script passes to the functions: those passed to the first, then those passed
/// to the second, and so on.
pub open spec fn script_names(code: Seq<u8>, calls: Seq<Seq<char>>) -> Seq<Seq<char>>
    decreases calls.len(),
{
    if calls.len() == 0 {
        Seq::empty()
    } else {
        script_names(code, calls.drop_last()) + names_in(calls.last(), code)
    }
}

/// The names that the scripts pass to the functions, script after script. Only those scripts
/// count that belong to system resources, or that do not, and that could be read.
pub open spec fn all_names(
    paths: Seq<Seq<u8>>,
    codes: Seq<Option<Seq<u8>>>,
    system: bool,
    calls: Seq<Seq<char>>,
) -> Seq<Seq<char>>
    decreases paths.len(),
{
    if paths.len() == 0 {
        Seq::empty()
    } else {
        let k = paths.len() - 1;
        all_names(paths.drop_last(), codes, system, calls) + match codes[k] {
            Some(code) => if in_system_resource(paths[k]) == system {
                script_names(code, calls)
            } else {
                Seq::empty()
            },
            None => Seq::empty(),
        }
    }
}

/// Puts the names that one script passes to the functions at the end of the list, each once, but
/// for those in `block`.
fn gather_script(
    list: &mut NameList,
    code: &[u8],
    calls: &[&CallRegex],
    block: &StringHashSet,
)
    requires
        all_wf(calls@),
    ensures
        final(list)@ == admitted(old(list)@, script_names(code@, funcs(calls@)), block@),
{
    let ghost all = funcs(calls@);
    let mut i: usize = 0;
    assert(all.take(0) =~= Seq::empty());
    while i < calls.len()
        invariant
            all == funcs(calls@),
            all_wf(calls@),
            i <= calls.len(),
            list@ == admitted(old(list)@, script_names(code@, all.take(i as int)), block@),
        decreases calls.len() - i,
    {
        proof {
            assert(all.take(i + 1).drop_last() =~= all.take(i as int));
            assert(all.take(i + 1).last() == calls@[i as int].func@);
            lemma_admit_concat(
                old(list)@,
                script_names(code@, all.take(i as int)),
                names_in(calls@[i as int].func@, code@),
                block@,
            );
        }
        extract_into_filtered(calls[i], code, list, block);
        i += 1;
    }
    assert(all.take(i as int) =~= all);
}

/// Puts the names that the scripts pass to the functions at the end of the list, each once, but
/// for those in `block`. Only the scripts of system resources count, or only the others.
pub fn gather(
    list: &mut NameList,
    paths: &Vec<Vec<u8>>,
    codes: &Vec<Option<Vec<u8>>>,
    system: bool,
    calls: &[&CallRegex],
    block: &StringHashSet,
)
    requires
        paths@.len() == codes@.len(),
        all_wf(calls@),
    ensures
        final(list)@ == admitted(
            old(list)@,
            all_names(views(paths@), texts(codes@), system, funcs(calls@)),
            block@,
        ),
{
    let ghost all = views(paths@);
    let ghost read = texts(codes@);
    let ghost names = funcs(calls@);
    let mut i: usize = 0;
    assert(all.take(0) =~= Seq::empty());
    while i < paths.len()
        invariant
            all == views(paths@),
            read == texts(codes@),
            names == funcs(calls@),
            paths@.len() == codes@.len(),
            all_wf(calls@),
            i <= paths.len(),
            list@ == admitted(
                old(list)@,
                all_names(all.take(i as int), read, system, names),
                block@,
            ),
        decreases paths.len() - i,
    {
        let ghost before = all_names(all.take(i as int), read, system, names);
        proof {
            assert(all.take(i + 1).drop_last() =~= all.take(i as int));
            assert(all.take(i + 1)[i as int] == paths@[i as int]@);
            assert(before + Seq::empty() =~= before);
        }
        match &codes[i] {
            Some(code) => {
                if is_system_path(paths[i].as_slice()) == system {
                    proof {
                        lemma_admit_concat(old(list)@, before, script_names(code@, names), block@);
                    }
                    gather_script(list, code.as_slice(), calls, block);
                }
            },
            None => {},
        }
        i += 1;
    }
    assert(all.take(i as int) =~= all);
}

} // verus!
