//! Which scripts belong to a resource, and to which side of it.
use crate::paths::{
    components, file_name, get_file_name, get_parent, has_lua_extension, is_lua, join, joined,
    parent, same_path, split, split_path,
};
use crate::text::{
    append_bytes, begins_with, contains_part, copy_bytes, has_part, has_prefix, same_bytes, views,
};
use vstd::prelude::*;
use vstd::utf8::*;

verus! {

/// Resources of the platform and of vendors. Their events keep their names.
pub open spec fn system_resources() -> Seq<Seq<char>> {
    seq![
        "fivem"@,
        "fivem-awesome1501"@,
        "fivem-map-hipster"@,
        "fivem-map-skater"@,
        "runcode"@,
        "race"@,
        "race-test"@,
        "channelfeed"@,
        "irc"@,
        "obituary"@,
        "obituary-deaths"@,
        "playernames"@,
        "mapmanager"@,
        "baseevents"@,
        "chat"@,
        "hardcap"@,
        "rconlog"@,
        "scoreboard"@,
        "sessionmanager"@,
        "spawnmanager"@,
        "yarn"@,
        "betaguns"@,
        "gameInit"@,
        "keks"@,
        "mysql-async"@,
        "ox_lib"@,
    ]
}

/// The names of [`system_resources`].
pub fn system_resource_names() -> (r: Vec<&'static str>)
    ensures
        views(r@) == system_resources(),
{
    let r: Vec<&'static str> = vec![
        "fivem",
        "fivem-awesome1501",
        "fivem-map-hipster",
        "fivem-map-skater",
        "runcode",
        "race",
        "race-test",
        "channelfeed",
        "irc",
        "obituary",
        "obituary-deaths",
        "playernames",
        "mapmanager",
        "baseevents",
        "chat",
        "hardcap",
        "rconlog",
        "scoreboard",
        "sessionmanager",
        "spawnmanager",
        "yarn",
        "betaguns",
        "gameInit",
        "keks",
        "mysql-async",
        "ox_lib",
    ];
    assert(views(r@) =~= system_resources());
    r
}

/// `name` between two slashes.
pub open spec fn as_directory(name: Seq<char>) -> Seq<u8> {
    encode_utf8("/"@) + encode_utf8(name) + encode_utf8("/"@)
}

/// The path leads through the directory of a system resource.
pub open spec fn in_system_resource(path: Seq<u8>) -> bool {
    exists|k: int|
        0 <= k < system_resources().len() && has_part(
            path,
            as_directory(#[trigger] system_resources()[k]),
        )
}

/// Whether a path leads through the directory of a system resource.
pub fn is_system_path(path: &[u8]) -> (r: bool)
    ensures
        r == in_system_resource(path@),
{
    let names = system_resource_names();
    let mut k: usize = 0;
    while k < names.len()
        invariant
            k <= names.len(),
            views(names@) == system_resources(),
            forall|j: int|
                0 <= j < k ==> !has_part(path@, as_directory(#[trigger] system_resources()[j])),
        decreases names.len() - k,
    {
        let mut part: Vec<u8> = copy_bytes("/".as_bytes());
        append_bytes(&mut part, names[k].as_bytes());
        append_bytes(&mut part, "/".as_bytes());
        assert(views(names@)[k as int] == names@[k as int]@);
        assert(part@ == as_directory(system_resources()[k as int]));
        if contains_part(path, part.as_slice()) {
            return true;
        }
        k += 1;
    }
    false
}

/// The path leads to the manifest of a resource.
pub open spec fn is_manifest(path: Seq<u8>) -> bool {
    file_name(path) matches Some(name) && {
        ||| name == encode_utf8("__resource.lua"@)
        ||| name == encode_utf8("fxmanifest.lua"@)
    }
}

/// Whether a path leads to the manifest of a resource.
pub fn is_manifest_path(path: &[u8]) -> (r: bool)
    ensures
        r == is_manifest(path@),
{
    match get_file_name(path) {
        Some(name) => same_bytes(name, "__resource.lua".as_bytes()) || same_bytes(
            name,
            "fxmanifest.lua".as_bytes(),
        ),
        None => false,
    }
}

/// A path with the components of `path` stands in the list.
pub open spec fn listed(list: Seq<Seq<u8>>, path: Seq<u8>) -> bool {
    exists|i: int| 0 <= i < list.len() && components(#[trigger] list[i]) == components(path)
}

/// The list with `path` at its end, unless it stands in it already.
pub open spec fn with_path(list: Seq<Seq<u8>>, path: Seq<u8>) -> Seq<Seq<u8>> {
    if listed(list, path) {
        list
    } else {
        list.push(path)
    }
}

/// Whether a path with the components of `path` stands in the list.
pub fn contains_path(list: &Vec<Vec<u8>>, path: &[u8]) -> (r: bool)
    ensures
        r == listed(views(list@), path@),
{
    let mut i: usize = 0;
    while i < list.len()
        invariant
            i <= list.len(),
            forall|j: int|
                0 <= j < i ==> components(#[trigger] views(list@)[j]) != components(path@),
        decreases list.len() - i,
    {
        if same_path(list[i].as_slice(), path) {
            assert(components(views(list@)[i as int]) == components(path@));
            return true;
        }
        i += 1;
    }
    false
}

/// Puts `path` at the end of the list, unless it stands in it already.
pub fn add_path(list: &mut Vec<Vec<u8>>, path: Vec<u8>)
    ensures
        views(final(list)@) == with_path(views(old(list)@), path@),
{
    if !contains_path(list, path.as_slice()) {
        list.push(path);
        assert(views(list@) =~= views(old(list)@).push(path@));
    }
}

/// The file name, where it is valid UTF-8; else nothing.
pub open spec fn readable_name(path: Seq<u8>) -> Seq<u8> {
    match file_name(path) {
        Some(name) => if valid_utf8(name) {
            name
        } else {
            Seq::empty()
        },
        None => Seq::empty(),
    }
}

/// The path hints at the server side.
pub open spec fn hints_server(path: Seq<u8>) -> bool {
    ||| has_part(path, encode_utf8("/server/"@))
    ||| has_part(path, encode_utf8("/sv-"@))
    ||| has_part(path, encode_utf8("/sv_"@))
    ||| begins_with(readable_name(path), encode_utf8("sv_"@))
    ||| begins_with(readable_name(path), encode_utf8("sv-"@))
    ||| begins_with(readable_name(path), encode_utf8("server."@))
}

/// The path hints at the client side.
pub open spec fn hints_client(path: Seq<u8>) -> bool {
    ||| has_part(path, encode_utf8("/client/"@))
    ||| has_part(path, encode_utf8("/cl-"@))
    ||| has_part(path, encode_utf8("/cl_"@))
    ||| begins_with(readable_name(path), encode_utf8("cl_"@))
    ||| begins_with(readable_name(path), encode_utf8("cl-"@))
    ||| begins_with(readable_name(path), encode_utf8("client."@))
}

/// A script that no manifest declares is taken to run on a side unless its path hints at the
/// other side alone.
pub open spec fn runs_on(path: Seq<u8>, server: bool) -> bool {
    if server {
        hints_server(path) || !hints_client(path)
    } else {
        hints_client(path) || !hints_server(path)
    }
}

/// The path leads to a script that is to be added to those declared for a side.
pub open spec fn undeclared(declared: Seq<Seq<u8>>, server: bool) -> spec_fn(Seq<u8>) -> bool {
    |path: Seq<u8>|
        is_lua(path) && !is_manifest(path) && runs_on(path, server) && !listed(declared, path)
}

fn hint_at(path: &[u8], name: &[u8], server: bool) -> (r: bool)
    requires
        name@ == readable_name(path@),
    ensures
        r == if server {
            hints_server(path@)
        } else {
            hints_client(path@)
        },
{
    if server {
        contains_part(path, "/server/".as_bytes()) || contains_part(path, "/sv-".as_bytes())
            || contains_part(path, "/sv_".as_bytes()) || has_prefix(name, "sv_".as_bytes())
            || has_prefix(name, "sv-".as_bytes()) || has_prefix(name, "server.".as_bytes())
    } else {
        contains_part(path, "/client/".as_bytes()) || contains_part(path, "/cl-".as_bytes())
            || contains_part(path, "/cl_".as_bytes()) || has_prefix(name, "cl_".as_bytes())
            || has_prefix(name, "cl-".as_bytes()) || has_prefix(name, "client.".as_bytes())
    }
}

/// Whether a script runs on a side, by its path.
pub fn runs_on_side(path: &[u8], server: bool) -> (r: bool)
    ensures
        r == runs_on(path@, server),
{
    let empty: Vec<u8> = Vec::new();
    let mut name: &[u8] = empty.as_slice();
    assert(name@ =~= Seq::empty());
    match get_file_name(path) {
        Some(found) => {
            if core::str::from_utf8(found).is_ok() {
                name = found;
            }
        },
        None => {},
    }
    hint_at(path, name, server) || !hint_at(path, name, !server)
}

/// Of the files found, the scripts that are to be added to those declared for a side, in the
/// order in which they were found.
pub fn find_undeclared(found: &Vec<Vec<u8>>, declared: &Vec<Vec<u8>>, server: bool) -> (r: Vec<
    Vec<u8>,
>)
    ensures
        views(r@) == views(found@).filter(undeclared(views(declared@), server)),
{
    let ghost all = views(found@);
    let ghost pred = undeclared(views(declared@), server);
    let mut r: Vec<Vec<u8>> = Vec::new();
    let mut i: usize = 0;
    proof {
        reveal(Seq::filter);
        assert(all.take(0) =~= Seq::empty());
        assert(views(r@) =~= Seq::empty());
    }
    while i < found.len()
        invariant
            all == views(found@),
            pred == undeclared(views(declared@), server),
            i <= found.len(),
            views(r@) == all.take(i as int).filter(pred),
        decreases found.len() - i,
    {
        let path: &[u8] = found[i].as_slice();
        proof {
            reveal(Seq::filter);
            assert(all.take(i + 1).drop_last() =~= all.take(i as int));
            assert(all.take(i + 1).last() == path@);
        }
        if has_lua_extension(path) && !is_manifest_path(path) && runs_on_side(path, server)
            && !contains_path(declared, path) {
            let ghost before = r@;
            r.push(copy_bytes(path));
            assert(views(r@) =~= views(before).push(path@));
        }
        i += 1;
    }
    assert(all.take(i as int) =~= all);
    r
}

/// The path that the parts make when each is seen from those before it.
pub open spec fn join_all(parts: Seq<Seq<u8>>) -> Seq<u8>
    decreases parts.len(),
{
    if parts.len() == 0 {
        Seq::empty()
    } else {
        joined(join_all(parts.drop_last()), parts.last())
    }
}

/// The first of the directories with the given name.
pub open spec fn directory_named(dirs: Seq<Seq<u8>>, name: Seq<u8>) -> Option<Seq<u8>>
    decreases dirs.len(),
{
    if dirs.len() == 0 {
        None
    } else if file_name(dirs[0]) == Some(name) {
        Some(dirs[0])
    } else {
        directory_named(dirs.drop_first(), name)
    }
}

/// Where a script lies that a manifest in `home` declares as `script`. `@name/rest` lies in the
/// resource directory of that name; everything else is seen from `home`.
pub open spec fn script_path(dirs: Seq<Seq<u8>>, home: Seq<u8>, script: Seq<u8>) -> Option<Seq<u8>> {
    if script.len() > 0 && script[0] == 0x40 {
        let parts = split(script.skip(1));
        match directory_named(dirs, parts[0]) {
            Some(dir) => Some(joined(dir, join_all(parts.drop_first()))),
            None => None,
        }
    } else {
        Some(joined(home, script))
    }
}

/// The same, where the path leads to a Lua script by its name.
pub open spec fn candidate(dirs: Seq<Seq<u8>>, home: Seq<u8>, script: Seq<u8>) -> Option<Seq<u8>> {
    match script_path(dirs, home, script) {
        Some(path) => if is_lua(path) {
            Some(path)
        } else {
            None
        },
        None => None,
    }
}

/// The candidates for a list of declared scripts, in order.
pub open spec fn candidates(dirs: Seq<Seq<u8>>, home: Seq<u8>, scripts: Seq<Seq<char>>) -> Seq<
    Seq<u8>,
>
    decreases scripts.len(),
{
    if scripts.len() == 0 {
        Seq::empty()
    } else {
        let before = candidates(dirs, home, scripts.drop_last());
        match candidate(dirs, home, encode_utf8(scripts.last())) {
            Some(path) => before.push(path),
            None => before,
        }
    }
}

pub proof fn lemma_split(path: Seq<u8>)
    ensures
        split(path).len() > 0,
    decreases path.len(),
{
}

/// The first of the directories with the given name.
pub fn find_directory<'a>(dirs: &'a Vec<Vec<u8>>, name: &[u8]) -> (r: Option<&'a Vec<u8>>)
    ensures
        match r {
            Some(dir) => directory_named(views(dirs@), name@) == Some(dir@),
            None => directory_named(views(dirs@), name@) is None,
        },
{
    let ghost all = views(dirs@);
    let mut i: usize = 0;
    assert(all.skip(0) =~= all);
    while i < dirs.len()
        invariant
            all == views(dirs@),
            i <= dirs.len(),
            directory_named(all, name@) == directory_named(all.skip(i as int), name@),
        decreases dirs.len() - i,
    {
        assert(all.skip(i as int)[0] == dirs@[i as int]@);
        assert(all.skip(i as int).drop_first() =~= all.skip(i + 1));
        match get_file_name(dirs[i].as_slice()) {
            Some(found) => {
                if same_bytes(found, name) {
                    return Some(&dirs[i]);
                }
            },
            None => {},
        }
        i += 1;
    }
    None
}

/// Where a declared script lies, if that is a place for a Lua script.
pub fn find_candidate(dirs: &Vec<Vec<u8>>, home: &[u8], script: &[u8]) -> (r: Option<Vec<u8>>)
    ensures
        match r {
            Some(path) => candidate(views(dirs@), home@, script@) == Some(path@),
            None => candidate(views(dirs@), home@, script@) is None,
        },
{
    let path: Vec<u8> = if script.len() > 0 && script[0] == 0x40 {
        let stripped: &[u8] = &script[1..script.len()];
        assert(stripped@ =~= script@.skip(1));
        let parts = split_path(stripped);
        let ghost all = views(parts@);
        proof {
            lemma_split(stripped@);
            assert(all[0] == parts@[0]@);
        }
        let mut rest: Vec<u8> = Vec::new();
        let mut i: usize = 1;
        assert(all.subrange(1, 1) =~= Seq::empty());
        while i < parts.len()
            invariant
                all == views(parts@),
                1 <= i <= parts.len(),
                rest@ == join_all(all.subrange(1, i as int)),
            decreases parts.len() - i,
        {
            assert(all.subrange(1, i + 1).drop_last() =~= all.subrange(1, i as int));
            assert(all.subrange(1, i + 1).last() == parts@[i as int]@);
            rest = join(rest.as_slice(), parts[i].as_slice());
            i += 1;
        }
        assert(all.subrange(1, i as int) =~= all.drop_first());
        match find_directory(dirs, parts[0].as_slice()) {
            Some(dir) => join(dir.as_slice(), rest.as_slice()),
            None => {
                return None;
            },
        }
    } else {
        join(home, script)
    };
    if has_lua_extension(path.as_slice()) {
        Some(path)
    } else {
        None
    }
}

/// The candidates for a list of declared scripts, in order.
pub fn find_candidates(dirs: &Vec<Vec<u8>>, home: &[u8], scripts: &Vec<String>) -> (r: Vec<Vec<u8>>)
    ensures
        views(r@) == candidates(views(dirs@), home@, views(scripts@)),
{
    let ghost all = views(scripts@);
    let mut r: Vec<Vec<u8>> = Vec::new();
    let mut i: usize = 0;
    assert(all.take(0) =~= Seq::empty());
    assert(views(r@) =~= Seq::empty());
    while i < scripts.len()
        invariant
            all == views(scripts@),
            i <= scripts.len(),
            views(r@) == candidates(views(dirs@), home@, all.take(i as int)),
        decreases scripts.len() - i,
    {
        proof {
            assert(all.take(i + 1).drop_last() =~= all.take(i as int));
            assert(all.take(i + 1).last() == scripts@[i as int]@);
        }
        match find_candidate(dirs, home, scripts[i].as_str().as_bytes()) {
            Some(path) => {
                let ghost before = r@;
                r.push(path);
                assert(views(r@) =~= views(before).push(path@));
            },
            None => {},
        }
        i += 1;
    }
    assert(all.take(i as int) =~= all);
    r
}

/// The list with those of the paths that exist put at its end, each unless it stands in it.
pub open spec fn with_existing(list: Seq<Seq<u8>>, paths: Seq<Seq<u8>>, there: Seq<bool>) -> Seq<
    Seq<u8>,
>
    decreases paths.len(),
{
    if paths.len() == 0 {
        list
    } else {
        let before = with_existing(list, paths.drop_last(), there);
        if there[paths.len() - 1] {
            with_path(before, paths.last())
        } else {
            before
        }
    }
}

/// The directories of manifests, each once, put at the end of a list.
pub open spec fn with_parents(list: Seq<Seq<u8>>, paths: Seq<Seq<u8>>) -> Seq<Seq<u8>>
    decreases paths.len(),
{
    if paths.len() == 0 {
        list
    } else {
        let before = with_parents(list, paths.drop_last());
        match parent(paths.last()) {
            Some(dir) => with_path(before, dir),
            None => before,
        }
    }
}

/// Puts those of the paths that exist at the end of a list, each unless it stands in it.
pub fn add_existing(list: &mut Vec<Vec<u8>>, paths: &Vec<Vec<u8>>, found: &Vec<bool>)
    requires
        paths@.len() == found@.len(),
    ensures
        views(final(list)@) == with_existing(views(old(list)@), views(paths@), found@),
{
    let ghost all = views(paths@);
    let mut i: usize = 0;
    assert(all.take(0) =~= Seq::empty());
    while i < paths.len()
        invariant
            all == views(paths@),
            paths@.len() == found@.len(),
            i <= paths.len(),
            views(list@) == with_existing(views(old(list)@), all.take(i as int), found@),
        decreases paths.len() - i,
    {
        proof {
            assert(all.take(i + 1).drop_last() =~= all.take(i as int));
            assert(all.take(i + 1).last() == paths@[i as int]@);
        }
        if found[i] {
            add_path(list, copy_bytes(paths[i].as_slice()));
        }
        i += 1;
    }
    assert(all.take(i as int) =~= all);
}

/// Puts the directories of the manifests at the end of a list, each unless it stands in it.
pub fn add_parents(list: &mut Vec<Vec<u8>>, paths: &Vec<Vec<u8>>)
    ensures
        views(final(list)@) == with_parents(views(old(list)@), views(paths@)),
{
    let ghost all = views(paths@);
    let mut i: usize = 0;
    assert(all.take(0) =~= Seq::empty());
    while i < paths.len()
        invariant
            all == views(paths@),
            i <= paths.len(),
            views(list@) == with_parents(views(old(list)@), all.take(i as int)),
        decreases paths.len() - i,
    {
        proof {
            assert(all.take(i + 1).drop_last() =~= all.take(i as int));
            assert(all.take(i + 1).last() == paths@[i as int]@);
        }
        match get_parent(paths[i].as_slice()) {
            Some(dir) => {
                add_path(list, copy_bytes(dir));
            },
            None => {},
        }
        i += 1;
    }
    assert(all.take(i as int) =~= all);
}

/// The manifests among the files, in the order in which they came.
pub fn filter_manifests(files: &Vec<Vec<u8>>) -> (r: Vec<Vec<u8>>)
    ensures
        views(r@) == views(files@).filter(|path: Seq<u8>| is_manifest(path)),
{
    let ghost all = views(files@);
    let ghost pred = |path: Seq<u8>| is_manifest(path);
    let mut r: Vec<Vec<u8>> = Vec::new();
    let mut i: usize = 0;
    proof {
        reveal(Seq::filter);
        assert(all.take(0) =~= Seq::empty());
        assert(views(r@) =~= Seq::empty());
    }
    while i < files.len()
        invariant
            all == views(files@),
            pred == (|path: Seq<u8>| is_manifest(path)),
            i <= files.len(),
            views(r@) == all.take(i as int).filter(pred),
        decreases files.len() - i,
    {
        let path: &[u8] = files[i].as_slice();
        proof {
            reveal(Seq::filter);
            assert(all.take(i + 1).drop_last() =~= all.take(i as int));
            assert(all.take(i + 1).last() == path@);
        }
        if is_manifest_path(path) {
            let ghost before = r@;
            r.push(copy_bytes(path));
            assert(views(r@) =~= views(before).push(path@));
        }
        i += 1;
    }
    assert(all.take(i as int) =~= all);
    r
}

/// The path beside `path` that its new contents are written to before they take its place.
pub open spec fn temporary_path(path: Seq<u8>) -> Seq<u8> {
    let dir = match parent(path) {
        Some(dir) => dir,
        None => encode_utf8("."@),
    };
    let name = match file_name(path) {
        Some(name) => name,
        None => Seq::empty(),
    };
    joined(dir, name + encode_utf8(".scrambler-tmp"@))
}

/// The path beside `path` that its new contents are written to before they take its place.
pub fn get_temporary_path(path: &[u8]) -> (r: Vec<u8>)
    ensures
        r@ == temporary_path(path@),
{
    let dir: &[u8] = match get_parent(path) {
        Some(dir) => dir,
        None => ".".as_bytes(),
    };
    let mut name: Vec<u8> = match get_file_name(path) {
        Some(name) => copy_bytes(name),
        None => Vec::new(),
    };
    append_bytes(&mut name, ".scrambler-tmp".as_bytes());
    join(dir, name.as_slice())
}

} // verus!
