//! What holds of the lists that scripts and directories are put into, one by one.
use crate::path_laws::law_split;
use crate::path_order::{lemma_path_order, path_order};
use crate::paths::{
    components, file_name, is_lua, joined, last_part, lemma_last_part, parent, split,
};
use crate::manifest::{lists, LuaEntry};
use crate::scrambler::are_candidates;
use crate::scripts::{
    candidate, candidates, directory_named, is_manifest, join_all, listed, runs_on,
    temporary_path, with_existing, with_parents, with_path,
};
use crate::selection::{lemma_pick_none, lemma_pick_same, lemma_pick_step};
use crate::sorting::law_stable_sort_permutes;
use crate::state::{manifests_of, with_manifests, with_scripts, with_undeclared, State};
use vstd::prelude::*;
use vstd::utf8::*;

verus! {

/// A path stands in a list where one with the same components does.
pub proof fn law_listed(list: Seq<Seq<u8>>, path: Seq<u8>)
    ensures
        listed(list, path) <==> exists|i: int|
            0 <= i < list.len() && components(#[trigger] list[i]) == components(path),
{
}

/// The resource of a name is the first whose directory has that name.
pub proof fn law_first_directory(dirs: Seq<Seq<u8>>, name: Seq<u8>)
    ensures
        (forall|i: int| 0 <= i < dirs.len() ==> file_name(#[trigger] dirs[i]) != Some(name))
            ==> directory_named(dirs, name) is None,
        forall|i: int|
            0 <= i < dirs.len() && file_name(#[trigger] dirs[i]) == Some(name) && (forall|j: int|
                0 <= j < i ==> file_name(#[trigger] dirs[j]) != Some(name)) ==> directory_named(
                dirs,
                name,
            ) == Some(dirs[i]),
    decreases dirs.len(),
{
    if dirs.len() > 0 {
        let rest = dirs.drop_first();
        law_first_directory(rest, name);
        if file_name(dirs[0]) != Some(name) {
            if forall|i: int| 0 <= i < dirs.len() ==> file_name(#[trigger] dirs[i]) != Some(name) {
                assert forall|i: int| 0 <= i < rest.len() implies file_name(#[trigger] rest[i])
                    != Some(name) by {
                    assert(rest[i] == dirs[i + 1]);
                }
            }
            assert forall|i: int|
                0 <= i < dirs.len() && file_name(#[trigger] dirs[i]) == Some(name) && (forall|
                    j: int,
                |
                    0 <= j < i ==> file_name(#[trigger] dirs[j]) != Some(
                        name,
                    )) implies directory_named(dirs, name) == Some(dirs[i]) by {
                assert(rest[i - 1] == dirs[i]);
                assert forall|j: int| 0 <= j < i - 1 implies file_name(#[trigger] rest[j]) != Some(
                    name,
                ) by {
                    assert(rest[j] == dirs[j + 1]);
                }
            }
        } else {
            assert forall|i: int|
                0 <= i < dirs.len() && file_name(#[trigger] dirs[i]) == Some(name) && (forall|
                    j: int,
                |
                    0 <= j < i ==> file_name(#[trigger] dirs[j]) != Some(
                        name,
                    )) implies directory_named(dirs, name) == Some(dirs[i]) by {
                if i > 0 {
                    assert(file_name(dirs[0]) != Some(name));
                }
            }
        }
    }
}

/// Every script that a manifest declares is looked for, in order, where it leads to a Lua script.
pub proof fn law_candidates(dirs: Seq<Seq<u8>>, home: Seq<u8>, scripts: Seq<Seq<char>>)
    ensures
        candidates(dirs, home, scripts) == scripts.filter_map(
            |script: Seq<char>| candidate(dirs, home, encode_utf8(script)),
        ),
    decreases scripts.len(),
{
    let f = |script: Seq<char>| candidate(dirs, home, encode_utf8(script));
    if scripts.len() > 0 {
        let front = scripts.drop_last();
        law_candidates(dirs, home, front);
        match f(scripts.last()) {
            Some(path) => {
                assert(candidates(dirs, home, scripts) =~= front.filter_map(f) + seq![path]);
            },
            None => {},
        }
    }
}

/// A script is looked for in the directory of the manifest that declares it.
pub proof fn law_script_of_the_resource(dirs: Seq<Seq<u8>>, home: Seq<u8>, script: Seq<u8>)
    requires
        script.len() > 0 ==> script[0] != 0x40,
    ensures
        is_lua(joined(home, script)) ==> candidate(dirs, home, script) == Some(
            joined(home, script),
        ),
        !is_lua(joined(home, script)) ==> candidate(dirs, home, script) is None,
{
}

/// A script that is declared as `@name/rest` is looked for in the first resource of that name, at
/// `rest`. Where there is no such resource it is not looked for.
pub proof fn law_script_of_another_resource(
    dirs: Seq<Seq<u8>>,
    home: Seq<u8>,
    name: Seq<u8>,
    rest: Seq<u8>,
)
    requires
        forall|i: int| 0 <= i < name.len() ==> #[trigger] name[i] != 0x2f,
        rest.len() > 0,
        rest[0] != 0x2f,
        rest.last() != 0x2f,
        forall|i: int| 0 < i < rest.len() && #[trigger] rest[i] == 0x2f ==> rest[i - 1] != 0x2f,
    ensures
        ({
            let script = seq![0x40u8] + name + seq![0x2fu8] + rest;
            &&& (forall|i: int|
                0 <= i < dirs.len() ==> file_name(#[trigger] dirs[i]) != Some(name)) ==> candidate(
                dirs,
                home,
                script,
            ) is None
            &&& forall|i: int|
                0 <= i < dirs.len() && file_name(#[trigger] dirs[i]) == Some(name) && (forall|
                    j: int,
                |
                    0 <= j < i ==> file_name(#[trigger] dirs[j]) != Some(name)) ==> candidate(
                    dirs,
                    home,
                    script,
                ) == if is_lua(joined(dirs[i], rest)) {
                    Some(joined(dirs[i], rest))
                } else {
                    None
                }
        }),
{
    let script = seq![0x40u8] + name + seq![0x2fu8] + rest;
    assert(script.skip(1) =~= name + seq![0x2fu8] + rest);
    law_split(name, rest);
    let parts = split(script.skip(1));
    assert(parts[0] == name);
    assert(parts.drop_first() =~= split(rest));
    lemma_join_split(rest);
    law_first_directory(dirs, name);
    assert(script[0] == 0x40);
}

/// The parts of a path without empty parts make the path.
proof fn lemma_join_split(path: Seq<u8>)
    requires
        path.len() > 0,
        path[0] != 0x2f,
        path.last() != 0x2f,
        forall|i: int| 0 < i < path.len() && #[trigger] path[i] == 0x2f ==> path[i - 1] != 0x2f,
    ensures
        join_all(split(path)) == path,
    decreases path.len(),
{
    let at = last_part(path);
    lemma_last_part(path);
    let parts = split(path);
    if at == 0 {
        assert(parts.drop_last() =~= Seq::<Seq<u8>>::empty());
        assert(join_all(parts.drop_last()) =~= Seq::<u8>::empty());
        assert(Seq::<u8>::empty() + path =~= path);
        assert(path.skip(at) =~= path);
    } else {
        let front = path.take(at - 1);
        let part = path.skip(at);
        assert(at > 1);
        assert(front.last() == path[at - 2]);
        assert(path[at - 1] == 0x2f);
        assert(at < path.len());
        assert(part[0] == path[at]);
        assert forall|i: int| 0 < i < front.len() && #[trigger] front[i] == 0x2f implies front[i
            - 1] != 0x2f by {
            assert(path[i] == 0x2f);
        }
        lemma_join_split(front);
        assert(parts.drop_last() =~= split(front));
        assert(front + seq![0x2fu8] + part =~= path);
    }
}

/// Scripts that are there are put behind those of a list, in order, each unless one that leads to
/// the same place stands before it.
pub proof fn law_existing_scripts(list: Seq<Seq<u8>>, paths: Seq<Seq<u8>>, there: Seq<bool>)
    ensures
        with_existing(list, paths, there) == list + Seq::new(paths.len(), |i: int| i).filter(
            |i: int|
                there[i] && (forall|k: int|
                    0 <= k < list.len() ==> components(#[trigger] list[k]) != components(paths[i]))
                    && (forall|j: int|
                    0 <= j < i && there[j] ==> components(#[trigger] paths[j]) != components(
                        paths[i],
                    )),
        ).map_values(|i: int| paths[i]),
        forall|path: Seq<u8>| #[trigger]
            listed(with_existing(list, paths, there), path) <==> listed(list, path) || exists|
                i: int,
            |
                0 <= i < paths.len() && there[i] && components(#[trigger] paths[i]) == components(
                    path,
                ),
    decreases paths.len(),
{
    let p = |i: int|
        there[i] && (forall|k: int|
            0 <= k < list.len() ==> components(#[trigger] list[k]) != components(paths[i])) && (
        forall|j: int|
            0 <= j < i && there[j] ==> components(#[trigger] paths[j]) != components(paths[i]));
    let f = |i: int| paths[i];
    let after = with_existing(list, paths, there);
    if paths.len() > 0 {
        let front = paths.drop_last();
        let n = front.len();
        let before = with_existing(list, front, there);
        law_existing_scripts(list, front, there);
        let q = |i: int|
            there[i] && (forall|k: int|
                0 <= k < list.len() ==> components(#[trigger] list[k]) != components(front[i])) && (
            forall|j: int|
                0 <= j < i && there[j] ==> components(#[trigger] front[j]) != components(front[i]));
        assert forall|i: int| 0 <= i < n implies #[trigger] q(i) == p(i) && front[i]
            == paths[i] by {
            if q(i) {
                assert forall|j: int| 0 <= j < i && there[j] implies components(
                    #[trigger] paths[j],
                ) != components(paths[i]) by {
                    assert(front[j] == paths[j]);
                }
            }
            if p(i) {
                assert forall|j: int| 0 <= j < i && there[j] implies components(
                    #[trigger] front[j],
                ) != components(front[i]) by {
                    assert(front[j] == paths[j]);
                }
            }
        }
        lemma_pick_same(n, q, |i: int| front[i], p, f);
        lemma_pick_step(n, p, f);
        let last = paths.last();
        assert(paths[n as int] == last);
        assert(p(n as int) <==> there[n as int] && !listed(before, last)) by {
            if p(n as int) && listed(before, last) {
                if !listed(list, last) {
                    let i = choose|i: int|
                        0 <= i < front.len() && there[i] && components(#[trigger] front[i])
                            == components(last);
                    assert(paths[i] == front[i]);
                }
            }
            if there[n as int] && !listed(before, last) {
                assert forall|j: int| 0 <= j < n && there[j] implies components(
                    #[trigger] paths[j],
                ) != components(last) by {
                    assert(front[j] == paths[j]);
                }
            }
        }
        assert(after =~= list + Seq::new(paths.len(), |i: int| i).filter(p).map_values(f));
        assert forall|path: Seq<u8>| #[trigger] listed(after, path) <==> listed(list, path)
            || exists|i: int|
            0 <= i < paths.len() && there[i] && components(#[trigger] paths[i]) == components(
                path,
            ) by {
            lemma_with_path_lists(before, last, path);
            assert(listed(before, path) <==> listed(list, path) || exists|i: int|
                0 <= i < front.len() && there[i] && components(#[trigger] front[i]) == components(
                    path,
                ));
            if exists|i: int|
                0 <= i < front.len() && there[i] && components(#[trigger] front[i]) == components(
                    path,
                ) {
                let i = choose|i: int|
                    0 <= i < front.len() && there[i] && components(#[trigger] front[i])
                        == components(path);
                assert(paths[i] == front[i]);
            }
            if exists|i: int|
                0 <= i < paths.len() && there[i] && components(#[trigger] paths[i]) == components(
                    path,
                ) {
                let i = choose|i: int|
                    0 <= i < paths.len() && there[i] && components(#[trigger] paths[i])
                        == components(path);
                if i < n {
                    assert(paths[i] == front[i]);
                }
            }
        }
    } else {
        lemma_pick_none(p, f);
        assert(list + Seq::<Seq<u8>>::empty() =~= list);
    }
}

proof fn lemma_with_path_lists(list: Seq<Seq<u8>>, last: Seq<u8>, path: Seq<u8>)
    ensures
        listed(with_path(list, last), path) <==> listed(list, path) || components(last)
            == components(path),
{
    let after = with_path(list, last);
    if listed(list, path) {
        let k = choose|k: int|
            0 <= k < list.len() && components(#[trigger] list[k]) == components(path);
        assert(after[k] == list[k]);
    }
    if listed(after, path) {
        let k = choose|k: int|
            0 <= k < after.len() && components(#[trigger] after[k]) == components(path);
        if k < list.len() {
            assert(list[k] == after[k]);
        }
    }
    if components(last) == components(path) {
        if listed(list, last) {
            let k = choose|k: int|
                0 <= k < list.len() && components(#[trigger] list[k]) == components(last);
            assert(after[k] == list[k]);
        } else {
            assert(after[list.len() as int] == last);
        }
    }
}

/// The directories of manifests are put behind those of a list like scripts that are there.
pub proof fn law_directories_of_manifests(list: Seq<Seq<u8>>, manifests: Seq<Seq<u8>>)
    ensures
        with_parents(list, manifests) == with_existing(
            list,
            manifests.map_values(
                |path: Seq<u8>|
                    match parent(path) {
                        Some(dir) => dir,
                        None => Seq::empty(),
                    },
            ),
            manifests.map_values(|path: Seq<u8>| parent(path) is Some),
        ),
    decreases manifests.len(),
{
    let dir = |path: Seq<u8>|
        match parent(path) {
            Some(dir) => dir,
            None => Seq::empty(),
        };
    let has = |path: Seq<u8>| parent(path) is Some;
    if manifests.len() > 0 {
        let front = manifests.drop_last();
        law_directories_of_manifests(list, front);
        let dirs = manifests.map_values(dir);
        let there = manifests.map_values(has);
        assert(dirs.drop_last() =~= front.map_values(dir));
        lemma_existing_same(list, front.map_values(dir), front.map_values(has), there);
    }
}

proof fn lemma_existing_same(
    list: Seq<Seq<u8>>,
    paths: Seq<Seq<u8>>,
    there: Seq<bool>,
    other: Seq<bool>,
)
    requires
        forall|i: int| 0 <= i < paths.len() ==> #[trigger] there[i] == other[i],
    ensures
        with_existing(list, paths, there) == with_existing(list, paths, other),
    decreases paths.len(),
{
    if paths.len() > 0 {
        lemma_existing_same(list, paths.drop_last(), there, other);
        assert(there[paths.len() - 1] == other[paths.len() - 1]);
    }
}

/// The steps by which scripts are found touch the lists that they are about, and nothing else. Of
/// the files that are found those are added to a side that are Lua scripts, no manifests, run on
/// the side by their path, and are not listed there.
pub proof fn law_finding_steps(
    s: State,
    directory: Seq<u8>,
    manifests: Seq<Seq<u8>>,
    paths: Seq<Seq<u8>>,
    there: Seq<bool>,
    found: Seq<Seq<u8>>,
)
    ensures
        with_manifests(s, directory, manifests) == (State {
            directories: with_parents(s.directories, manifests),
            target: Some(directory),
            ..s
        }),
        with_scripts(s, paths, there, true) == (State {
            server_scripts: with_existing(s.server_scripts, paths, there),
            ..s
        }),
        with_scripts(s, paths, there, false) == (State {
            client_scripts: with_existing(s.client_scripts, paths, there),
            ..s
        }),
        with_undeclared(s, found) == (State {
            server_scripts: s.server_scripts + found.filter(
                |path: Seq<u8>|
                    is_lua(path) && !is_manifest(path) && runs_on(path, true) && !listed(
                        s.server_scripts,
                        path,
                    ),
            ),
            client_scripts: s.client_scripts + found.filter(
                |path: Seq<u8>|
                    is_lua(path) && !is_manifest(path) && runs_on(path, false) && !listed(
                        s.client_scripts,
                        path,
                    ),
            ),
            ..s
        }),
{
}

/// All manifests among the files are found, each as often as it is there, in the order of paths;
/// those that are not told apart stay as they were.
pub proof fn law_manifests_are_found(files: Seq<Seq<u8>>, manifests: Seq<Seq<u8>>)
    requires
        manifests_of(files, manifests),
    ensures
        ({
            let all = files.filter(|path: Seq<u8>| is_manifest(path));
            exists|order: Seq<int>|
                {
                    &&& #[trigger] order.len() == manifests.len()
                    &&& manifests.len() == all.len()
                    &&& forall|k: int|
                        0 <= k < order.len() ==> 0 <= #[trigger] order[k] < all.len()
                            && manifests[k] == all[order[k]]
                    &&& forall|i: int| 0 <= i < all.len() ==> #[trigger] order.contains(i)
                    &&& forall|k: int, m: int|
                        0 <= k < m < order.len() ==> #[trigger] order[k] != #[trigger] order[m]
                            && !path_order()(manifests[m], manifests[k]) && (order[k] > order[m]
                            ==> path_order()(manifests[k], manifests[m]))
                }
        }),
{
    let all = files.filter(|path: Seq<u8>| is_manifest(path));
    let lt = path_order();
    lemma_path_order();
    law_stable_sort_permutes(all, manifests, lt);
    let order = choose|order: Seq<int>|
        {
            &&& #[trigger] order.len() == manifests.len()
            &&& manifests.len() == all.len()
            &&& forall|k: int|
                0 <= k < manifests.len() ==> 0 <= #[trigger] order[k] < all.len() && manifests[k]
                    == all[order[k]]
            &&& forall|k: int, m: int|
                0 <= k < m < manifests.len() ==> #[trigger] order[k] != #[trigger] order[m] && !lt(
                    all[order[m]],
                    all[order[k]],
                ) && (order[k] > order[m] ==> lt(all[order[k]], all[order[m]]))
            &&& forall|i: int| 0 <= i < all.len() ==> #[trigger] order.contains(i)
        };
    assert(order.len() == manifests.len());
}

/// The scripts of a manifest are looked for from its directory.
pub proof fn law_candidates_of_a_manifest(
    directories: Seq<Seq<u8>>,
    path: Seq<u8>,
    table: Option<Vec<Option<LuaEntry>>>,
    paths: Seq<Seq<u8>>,
)
    requires
        are_candidates(directories, path, table, paths),
    ensures
        exists|scripts: Seq<Seq<char>>| #[trigger]
            lists(table, scripts) && paths == candidates(
                directories,
                match parent(path) {
                    Some(dir) => dir,
                    None => Seq::empty(),
                },
                scripts,
            ),
{
}

/// A script that is declared with `@` is looked for in the resource that its first part names, at
/// the path that the other parts make when each is seen from those before it.
pub proof fn law_parts_of_a_declaration(dirs: Seq<Seq<u8>>, home: Seq<u8>, stripped: Seq<u8>)
    ensures
        ({
            let parts = split(stripped);
            let rest = parts.drop_first().fold_left(
                Seq::empty(),
                |base: Seq<u8>, part: Seq<u8>| joined(base, part),
            );
            candidate(dirs, home, seq![0x40u8] + stripped) == match directory_named(
                dirs,
                parts[0],
            ) {
                Some(dir) => if is_lua(joined(dir, rest)) {
                    Some(joined(dir, rest))
                } else {
                    None
                },
                None => None,
            }
        }),
{
    let script = seq![0x40u8] + stripped;
    assert(script.skip(1) =~= stripped);
    assert(script[0] == 0x40);
    lemma_join_all(split(stripped).drop_first());
}

proof fn lemma_join_all(parts: Seq<Seq<u8>>)
    ensures
        join_all(parts) == parts.fold_left(
            Seq::empty(),
            |base: Seq<u8>, part: Seq<u8>| joined(base, part),
        ),
    decreases parts.len(),
{
    if parts.len() > 0 {
        lemma_join_all(parts.drop_last());
    }
}

/// New contents are written to a path in the same directory, or in the current one where there is
/// none, with the same name and an ending of its own.
pub proof fn law_temporary_path(path: Seq<u8>)
    ensures
        temporary_path(path) == joined(
            match parent(path) {
                Some(dir) => dir,
                None => encode_utf8("."@),
            },
            match file_name(path) {
                Some(name) => name,
                None => Seq::empty(),
            } + encode_utf8(".scrambler-tmp"@),
        ),
{
}

} // verus!
