//! What a scrambler knows, and what each of its steps makes of it.
use crate::events::{
    all_names, client_event_calls, esx_calls, net_event_calls, oxlib_calls, qbcore_calls,
    server_event_calls,
};
use crate::names::{admitted, no_names, Names};
use crate::path_order::path_order;
use crate::replacement::{concat, replacements};
use crate::scripts::{is_manifest, undeclared, with_existing, with_parents};
use crate::sorting::stable_sorted;
use vstd::prelude::*;

verus! {

/// Names of one sort and the names that take their place: the name at `new[i]` is for that at
/// `old.names[i]`.
#[verifier::ext_equal]
pub struct Bucket {
    pub old: Names,
    pub new: Seq<Seq<char>>,
}

/// What a scrambler knows.
#[verifier::ext_equal]
pub struct State {
    /// The Lua program that runs before every manifest.
    pub loader: Seq<char>,
    /// Names that system resources use.
    pub system_server: Names,
    pub system_net: Names,
    pub system_client: Names,
    pub system_oxlib: Names,
    /// Names that the other resources use.
    pub server: Bucket,
    pub net: Bucket,
    pub client: Bucket,
    pub esx: Bucket,
    pub oxlib: Bucket,
    pub qbcore: Bucket,
    /// The scripts of all resources.
    pub server_scripts: Seq<Seq<u8>>,
    pub client_scripts: Seq<Seq<u8>>,
    /// The directories of the resources.
    pub directories: Seq<Seq<u8>>,
    /// The directory that holds the resources.
    pub target: Option<Seq<u8>>,
}

/// No names and no replacements.
pub open spec fn empty_bucket() -> Bucket {
    Bucket { old: no_names(), new: Seq::empty() }
}

/// The event that a detector reports. It is a system event from the start.
pub open spec fn detector_event() -> Seq<char> {
    "scrambler:injectionDetected"@
}

/// What a scrambler knows at first.
pub open spec fn initial(loader: Seq<char>) -> State {
    State {
        loader,
        system_server: Names {
            names: seq![detector_event()],
            seen: Set::empty().insert(detector_event()),
        },
        system_net: no_names(),
        system_client: no_names(),
        system_oxlib: no_names(),
        server: empty_bucket(),
        net: empty_bucket(),
        client: empty_bucket(),
        esx: empty_bucket(),
        oxlib: empty_bucket(),
        qbcore: empty_bucket(),
        server_scripts: Seq::empty(),
        client_scripts: Seq::empty(),
        directories: Seq::empty(),
        target: None,
    }
}

/// `manifests` are the manifests among the files, in order.
pub open spec fn manifests_of(files: Seq<Seq<u8>>, manifests: Seq<Seq<u8>>) -> bool {
    stable_sorted(files.filter(|path: Seq<u8>| is_manifest(path)), manifests, path_order())
}

/// After the manifests below a directory were found.
pub open spec fn with_manifests(s: State, directory: Seq<u8>, manifests: Seq<Seq<u8>>) -> State {
    State {
        target: Some(directory),
        directories: with_parents(s.directories, manifests),
        ..s
    }
}

/// After it was seen which of the declared scripts are there.
pub open spec fn with_scripts(
    s: State,
    paths: Seq<Seq<u8>>,
    there: Seq<bool>,
    server: bool,
) -> State {
    if server {
        State { server_scripts: with_existing(s.server_scripts, paths, there), ..s }
    } else {
        State { client_scripts: with_existing(s.client_scripts, paths, there), ..s }
    }
}

/// After the files in the directories of the resources were found.
pub open spec fn with_undeclared(s: State, found: Seq<Seq<u8>>) -> State {
    State {
        server_scripts: s.server_scripts + found.filter(undeclared(s.server_scripts, true)),
        client_scripts: s.client_scripts + found.filter(undeclared(s.client_scripts, false)),
        ..s
    }
}

/// The name is one of a system resource.
pub open spec fn is_system_name(s: State, name: Seq<char>) -> bool {
    ||| s.system_server.names.contains(name)
    ||| s.system_net.names.contains(name)
    ||| s.system_client.names.contains(name)
    ||| s.system_oxlib.names.contains(name)
}

/// The names of system resources.
pub open spec fn system_names(s: State) -> Set<Seq<char>> {
    Set::new(|name: Seq<char>| is_system_name(s, name))
}

/// A list with the names that scripts of system resources pass to some functions.
pub open spec fn system_from(
    list: Names,
    scripts: Seq<Seq<u8>>,
    codes: Seq<Option<Seq<u8>>>,
    calls: Seq<Seq<char>>,
) -> Names {
    admitted(list, all_names(scripts, codes, true, calls), Set::empty())
}

/// A bucket with the names that scripts of other resources pass to some functions, but for those
/// in `block`.
pub open spec fn custom_from(
    bucket: Bucket,
    scripts: Seq<Seq<u8>>,
    codes: Seq<Option<Seq<u8>>>,
    calls: Seq<Seq<char>>,
    block: Set<Seq<char>>,
) -> Bucket {
    Bucket {
        old: admitted(bucket.old, all_names(scripts, codes, false, calls), block),
        new: bucket.new,
    }
}

/// After the server scripts of system resources were read.
pub open spec fn with_system_server(s: State, codes: Seq<Option<Seq<u8>>>) -> State {
    let scripts = s.server_scripts;
    State {
        system_server: system_from(s.system_server, scripts, codes, server_event_calls()),
        system_net: system_from(s.system_net, scripts, codes, net_event_calls()),
        system_oxlib: system_from(s.system_oxlib, scripts, codes, oxlib_calls()),
        ..s
    }
}

/// After the client scripts of system resources were read.
pub open spec fn with_system_client(s: State, codes: Seq<Option<Seq<u8>>>) -> State {
    let scripts = s.client_scripts;
    State {
        system_net: system_from(s.system_net, scripts, codes, net_event_calls()),
        system_client: system_from(s.system_client, scripts, codes, client_event_calls()),
        system_oxlib: system_from(s.system_oxlib, scripts, codes, oxlib_calls()),
        ..s
    }
}

/// After the server scripts of other resources were read.
pub open spec fn with_custom_server(s: State, codes: Seq<Option<Seq<u8>>>) -> State {
    let scripts = s.server_scripts;
    let block = system_names(s);
    State {
        server: custom_from(s.server, scripts, codes, server_event_calls(), block),
        net: custom_from(s.net, scripts, codes, net_event_calls(), block),
        esx: custom_from(s.esx, scripts, codes, esx_calls(true), block),
        oxlib: custom_from(s.oxlib, scripts, codes, oxlib_calls(), block),
        qbcore: custom_from(s.qbcore, scripts, codes, qbcore_calls(true), block),
        ..s
    }
}

/// After the client scripts of other resources were read.
pub open spec fn with_custom_client(s: State, codes: Seq<Option<Seq<u8>>>) -> State {
    let scripts = s.client_scripts;
    let block = system_names(s);
    State {
        net: custom_from(s.net, scripts, codes, net_event_calls(), block),
        client: custom_from(s.client, scripts, codes, client_event_calls(), block),
        esx: custom_from(s.esx, scripts, codes, esx_calls(false), block),
        oxlib: custom_from(s.oxlib, scripts, codes, oxlib_calls(), block),
        qbcore: custom_from(s.qbcore, scripts, codes, qbcore_calls(false), block),
        ..s
    }
}

/// The names that share their replacements: all but those of ESX.
pub open spec fn shared_names(s: State) -> Seq<Seq<char>> {
    concat(
        seq![
            s.server.old.names,
            s.net.old.names,
            s.client.old.names,
            s.oxlib.old.names,
            s.qbcore.old.names,
        ],
    )
}

/// A bucket whose names are replaced from a supply, together with the other names of `all`.
pub open spec fn replaced(bucket: Bucket, all: Seq<Seq<char>>, supply: Seq<Seq<char>>) -> Bucket {
    Bucket { old: bucket.old, new: replacements(all, supply, bucket.old.names) }
}

/// After replacements were taken from a supply. Those for ESX callbacks are `esx`.
pub open spec fn with_replacements(
    s: State,
    supply: Seq<Seq<char>>,
    esx: Seq<Seq<char>>,
) -> State {
    let all = shared_names(s);
    State {
        server: replaced(s.server, all, supply),
        net: replaced(s.net, all, supply),
        client: replaced(s.client, all, supply),
        oxlib: replaced(s.oxlib, all, supply),
        qbcore: replaced(s.qbcore, all, supply),
        esx: Bucket { old: s.esx.old, new: esx },
        ..s
    }
}

/// A bucket with further names that are replaced by themselves.
pub open spec fn with_fixed(bucket: Bucket, names: Seq<Seq<char>>) -> Bucket {
    Bucket {
        old: Names { names: bucket.old.names + names, seen: bucket.old.seen },
        new: bucket.new + names,
    }
}

/// After the names of system resources were put behind the others, each to be replaced by itself.
pub open spec fn with_system_fixed(s: State) -> State {
    State {
        server: with_fixed(s.server, s.system_server.names),
        net: with_fixed(s.net, s.system_net.names),
        client: with_fixed(s.client, s.system_client.names),
        oxlib: with_fixed(s.oxlib, s.system_oxlib.names),
        ..s
    }
}

/// What a scrambler knows when the names in the scripts have been gathered: first those of system
/// resources, then the others.
pub open spec fn loaded(
    s: State,
    server_codes: Seq<Option<Seq<u8>>>,
    client_codes: Seq<Option<Seq<u8>>>,
) -> State {
    let system = with_system_client(with_system_server(s, server_codes), client_codes);
    with_custom_client(with_custom_server(system, server_codes), client_codes)
}

/// What a scrambler knows when its names have been replaced.
pub open spec fn finished(s: State, supply: Seq<Seq<char>>, esx: Seq<Seq<char>>) -> State {
    with_system_fixed(with_replacements(s, supply, esx))
}

} // verus!
