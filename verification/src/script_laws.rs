//! What holds of the lists of scripts, and of where scripts are written.
use crate::paths::{components, file_name, is_lua, last_part, lemma_last_part, parent, trimmed};
use crate::scripts::{
    directory_named, is_manifest, listed, runs_on, temporary_path, undeclared, with_existing,
    with_parents, with_path,
};
use crate::sorting::lemma_filter_none;
use crate::state::{with_manifests, with_scripts, with_undeclared, State};
use vstd::prelude::*;
use vstd::utf8::*;

verus! {

/// No two paths of the list lead to the same place.
pub open spec fn distinct_paths(list: Seq<Seq<u8>>) -> bool {
    forall|i: int, j: int|
        0 <= i < j < list.len() ==> components(#[trigger] list[i]) != components(
            #[trigger] list[j],
        )
}

proof fn lemma_with_path(list: Seq<Seq<u8>>, path: Seq<u8>)
    requires
        distinct_paths(list),
    ensures
        distinct_paths(with_path(list, path)),
        listed(with_path(list, path), path),
{
    if !listed(list, path) {
        let after = list.push(path);
        assert(after[list.len() as int] == path);
        assert forall|i: int, j: int| 0 <= i < j < after.len() implies components(
            #[trigger] after[i],
        ) != components(#[trigger] after[j]) by {
            assert(after[i] == list[i]);
            if j < list.len() {
                assert(after[j] == list[j]);
            }
        }
    }
}

/// A script that manifests declare more than once is listed once.
pub proof fn law_declared_scripts_stay_distinct(
    list: Seq<Seq<u8>>,
    paths: Seq<Seq<u8>>,
    there: Seq<bool>,
)
    requires
        distinct_paths(list),
    ensures
        distinct_paths(with_existing(list, paths, there)),
    decreases paths.len(),
{
    if paths.len() > 0 {
        law_declared_scripts_stay_distinct(list, paths.drop_last(), there);
        lemma_with_path(with_existing(list, paths.drop_last(), there), paths.last());
    }
}

/// A directory that holds more than one manifest is listed once.
pub proof fn law_directories_stay_distinct(list: Seq<Seq<u8>>, manifests: Seq<Seq<u8>>)
    requires
        distinct_paths(list),
    ensures
        distinct_paths(with_parents(list, manifests)),
    decreases manifests.len(),
{
    if manifests.len() > 0 {
        law_directories_stay_distinct(list, manifests.drop_last());
        match parent(manifests.last()) {
            Some(dir) => {
                lemma_with_path(with_parents(list, manifests.drop_last()), dir);
            },
            None => {},
        }
    }
}

proof fn lemma_stays_listed(list: Seq<Seq<u8>>, path: Seq<u8>, other: Seq<u8>)
    requires
        listed(list, other),
    ensures
        listed(with_path(list, path), other),
{
    let i = choose|i: int|
        0 <= i < list.len() && components(#[trigger] list[i]) == components(other);
    let after = with_path(list, path);
    assert(after[i] == list[i]);
}

/// A declared script is listed where it is there, and nothing else is put into the list.
pub proof fn law_scripts_that_are_there_are_listed(
    list: Seq<Seq<u8>>,
    paths: Seq<Seq<u8>>,
    there: Seq<bool>,
)
    requires
        paths.len() <= there.len(),
    ensures
        forall|i: int|
            0 <= i < paths.len() && #[trigger] there[i] ==> listed(
                with_existing(list, paths, there),
                paths[i],
            ),
        forall|k: int|
            0 <= k < with_existing(list, paths, there).len() ==> {
                let path = #[trigger] with_existing(list, paths, there)[k];
                list.contains(path) || exists|i: int|
                    0 <= i < paths.len() && #[trigger] there[i] && paths[i] == path
            },
    decreases paths.len(),
{
    if paths.len() > 0 {
        let front = paths.drop_last();
        let n = paths.len() - 1;
        let before = with_existing(list, front, there);
        let after = with_existing(list, paths, there);
        law_scripts_that_are_there_are_listed(list, front, there);
        assert forall|i: int| 0 <= i < paths.len() && #[trigger] there[i] implies listed(
            after,
            paths[i],
        ) by {
            if i < n {
                assert(front[i] == paths[i]);
                lemma_stays_listed(before, paths.last(), paths[i]);
            } else if !listed(before, paths.last()) {
                assert(after[before.len() as int] == paths[i]);
            }
        }
        assert forall|k: int| 0 <= k < after.len() implies {
            let path = #[trigger] after[k];
            list.contains(path) || exists|i: int|
                0 <= i < paths.len() && #[trigger] there[i] && paths[i] == path
        } by {
            if k < before.len() {
                assert(after[k] == before[k]);
                if !list.contains(before[k]) {
                    let i = choose|i: int|
                        0 <= i < front.len() && #[trigger] there[i] && front[i] == before[k];
                    assert(there[i] && paths[i] == after[k]);
                }
            } else {
                assert(there[n] && paths[n] == after[k]);
            }
        }
    } else {
        assert forall|k: int| 0 <= k < list.len() implies list.contains(#[trigger] list[k]) by {}
    }
}

/// The directory of every manifest is known before the first manifest runs.
pub proof fn law_directories_are_known(list: Seq<Seq<u8>>, manifests: Seq<Seq<u8>>, i: int)
    requires
        0 <= i < manifests.len(),
    ensures
        parent(manifests[i]) matches Some(dir) ==> listed(with_parents(list, manifests), dir),
    decreases manifests.len(),
{
    if parent(manifests[i]) is Some {
        let dir = parent(manifests[i])->0;
        let before = with_parents(list, manifests.drop_last());
        if i < manifests.len() - 1 {
            law_directories_are_known(list, manifests.drop_last(), i);
            match parent(manifests.last()) {
                Some(last) => {
                    lemma_stays_listed(before, last, dir);
                },
                None => {},
            }
        } else if !listed(before, dir) {
            assert(with_parents(list, manifests)[before.len() as int] == dir);
        }
    }
}

/// A script declared as `@name/rest` is looked for in a resource of that name if there is one,
/// wherever that stands among the resources.
pub proof fn law_resources_are_found_by_name(dirs: Seq<Seq<u8>>, name: Seq<u8>)
    ensures
        match directory_named(dirs, name) {
            Some(dir) => dirs.contains(dir) && file_name(dir) == Some(name),
            None => forall|i: int|
                0 <= i < dirs.len() ==> file_name(#[trigger] dirs[i]) != Some(name),
        },
    decreases dirs.len(),
{
    if dirs.len() > 0 {
        let rest = dirs.drop_first();
        assert(dirs.contains(dirs[0]));
        law_resources_are_found_by_name(rest, name);
        assert(forall|i: int| 0 < i < dirs.len() ==> #[trigger] dirs[i] == rest[i - 1]);
        if directory_named(rest, name) is Some {
            let dir = directory_named(rest, name)->0;
            let k = choose|k: int| 0 <= k < rest.len() && rest[k] == dir;
            assert(dirs[k + 1] == dir);
        }
    }
}

proof fn lemma_filter_contains(
    list: Seq<Seq<u8>>,
    pred: spec_fn(Seq<u8>) -> bool,
    i: int,
)
    requires
        0 <= i < list.len(),
        pred(list[i]),
    ensures
        list.filter(pred).contains(list[i]),
    decreases list.len(),
{
    reveal(Seq::filter);
    let front = list.drop_last();
    let before = front.filter(pred);
    let after = list.filter(pred);
    if i < front.len() {
        lemma_filter_contains(front, pred, i);
        let k = choose|k: int| 0 <= k < before.len() && before[k] == list[i];
        assert(after[k] == list[i]);
    } else {
        assert(after[before.len() as int] == list[i]);
    }
}

/// Every Lua script that was found in a resource is listed for at least one side. It is listed for
/// a side, declared or not, unless its path hints at the other side alone.
pub proof fn law_found_scripts_are_listed(s: State, found: Seq<Seq<u8>>, i: int)
    requires
        0 <= i < found.len(),
        is_lua(found[i]),
        !is_manifest(found[i]),
    ensures
        runs_on(found[i], true) ==> listed(with_undeclared(s, found).server_scripts, found[i]),
        runs_on(found[i], false) ==> listed(with_undeclared(s, found).client_scripts, found[i]),
        runs_on(found[i], true) || runs_on(found[i], false),
{
    if runs_on(found[i], true) {
        lemma_listed_side(s.server_scripts, found, true, i);
    }
    if runs_on(found[i], false) {
        lemma_listed_side(s.client_scripts, found, false, i);
    }
}

proof fn lemma_listed_side(declared: Seq<Seq<u8>>, found: Seq<Seq<u8>>, server: bool, i: int)
    requires
        0 <= i < found.len(),
        is_lua(found[i]),
        !is_manifest(found[i]),
        runs_on(found[i], server),
    ensures
        listed(declared + found.filter(undeclared(declared, server)), found[i]),
{
    let more = found.filter(undeclared(declared, server));
    let all = declared + more;
    if listed(declared, found[i]) {
        let k = choose|k: int|
            0 <= k < declared.len() && components(#[trigger] declared[k]) == components(found[i]);
        assert(all[k] == declared[k]);
    } else {
        lemma_filter_contains(found, undeclared(declared, server), i);
        let k = choose|k: int| 0 <= k < more.len() && more[k] == found[i];
        assert(all[declared.len() + k] == found[i]);
    }
}

/// No manifest and nothing but Lua scripts is added to those that are declared.
pub proof fn law_added_are_scripts(s: State, found: Seq<Seq<u8>>, server: bool, path: Seq<u8>)
    requires
        found.filter(
            undeclared(
                if server {
                    s.server_scripts
                } else {
                    s.client_scripts
                },
                server,
            ),
        ).contains(path),
    ensures
        is_lua(path),
        !is_manifest(path),
        found.contains(path),
{
    let declared = if server {
        s.server_scripts
    } else {
        s.client_scripts
    };
    lemma_filter_from(found, undeclared(declared, server), path);
}

proof fn lemma_filter_from(list: Seq<Seq<u8>>, pred: spec_fn(Seq<u8>) -> bool, path: Seq<u8>)
    requires
        list.filter(pred).contains(path),
    ensures
        pred(path),
        list.contains(path),
    decreases list.len(),
{
    reveal(Seq::filter);
    if list.len() > 0 {
        let front = list.drop_last();
        let before = front.filter(pred);
        let after = list.filter(pred);
        let k = choose|k: int| 0 <= k < after.len() && after[k] == path;
        if k < before.len() {
            assert(before[k] == path);
            lemma_filter_from(front, pred, path);
            let i = choose|i: int| 0 <= i < front.len() && front[i] == path;
            assert(list[i] == path);
        } else {
            assert(list[list.len() - 1] == path);
        }
    }
}

/// The scripts that a table of a manifest lists for a side, and which of them are there.
pub struct Declared {
    pub paths: Seq<Seq<u8>>,
    pub there: Seq<bool>,
    pub server: bool,
}

/// After the tables of all manifests were read.
pub open spec fn with_declared(s: State, steps: Seq<Declared>) -> State
    decreases steps.len(),
{
    if steps.len() == 0 {
        s
    } else {
        let step = steps.last();
        with_scripts(with_declared(s, steps.drop_last()), step.paths, step.there, step.server)
    }
}

/// After the scripts were found: by the manifests, by what these declare, and by the files in the
/// directories of the resources.
pub open spec fn with_found(
    s: State,
    directory: Seq<u8>,
    manifests: Seq<Seq<u8>>,
    steps: Seq<Declared>,
    found: Seq<Seq<u8>>,
) -> State {
    with_undeclared(with_declared(with_manifests(s, directory, manifests), steps), found)
}

/// The scripts of one side.
pub open spec fn side_scripts(s: State, server: bool) -> Seq<Seq<u8>> {
    if server {
        s.server_scripts
    } else {
        s.client_scripts
    }
}

/// Every declared script that is there is listed for its side.
spec fn settled(s: State, steps: Seq<Declared>) -> bool {
    forall|i: int, j: int|
        0 <= i < steps.len() && 0 <= j < steps[i].paths.len() && #[trigger] steps[i].there[j]
            ==> listed(side_scripts(s, steps[i].server), steps[i].paths[j])
}

proof fn lemma_listed_grows(list: Seq<Seq<u8>>, more: Seq<Seq<u8>>, path: Seq<u8>)
    requires
        listed(list, path),
        list.is_prefix_of(more),
    ensures
        listed(more, path),
{
    let i = choose|i: int|
        0 <= i < list.len() && components(#[trigger] list[i]) == components(path);
    assert(more[i] == list[i]);
}

proof fn lemma_existing_grows(list: Seq<Seq<u8>>, paths: Seq<Seq<u8>>, there: Seq<bool>)
    ensures
        list.is_prefix_of(with_existing(list, paths, there)),
    decreases paths.len(),
{
    if paths.len() > 0 {
        lemma_existing_grows(list, paths.drop_last(), there);
    }
}

proof fn lemma_existing_settled(list: Seq<Seq<u8>>, paths: Seq<Seq<u8>>, there: Seq<bool>)
    requires
        forall|j: int| 0 <= j < paths.len() && #[trigger] there[j] ==> listed(list, paths[j]),
    ensures
        with_existing(list, paths, there) == list,
    decreases paths.len(),
{
    if paths.len() > 0 {
        let front = paths.drop_last();
        assert forall|j: int| 0 <= j < front.len() && #[trigger] there[j] implies listed(
            list,
            front[j],
        ) by {
            assert(front[j] == paths[j]);
        }
        lemma_existing_settled(list, front, there);
        if there[paths.len() - 1] {
            assert(listed(list, paths[paths.len() - 1]));
        }
    }
}

proof fn lemma_declared_settles(s: State, steps: Seq<Declared>)
    requires
        forall|i: int|
            0 <= i < steps.len() ==> (#[trigger] steps[i]).paths.len() == steps[i].there.len(),
    ensures
        settled(with_declared(s, steps), steps),
        with_declared(s, steps) == (State {
            server_scripts: with_declared(s, steps).server_scripts,
            client_scripts: with_declared(s, steps).client_scripts,
            ..s
        }),
    decreases steps.len(),
{
    if steps.len() > 0 {
        let front = steps.drop_last();
        let last = steps.last();
        let before = with_declared(s, front);
        let after = with_declared(s, steps);
        assert forall|i: int| 0 <= i < front.len() implies (#[trigger] front[i]).paths.len()
            == front[i].there.len() by {
            assert(front[i] == steps[i]);
        }
        lemma_declared_settles(s, front);
        assert(steps[steps.len() - 1] == last);
        let list = side_scripts(before, last.server);
        law_scripts_that_are_there_are_listed(list, last.paths, last.there);
        lemma_existing_grows(list, last.paths, last.there);
        assert forall|i: int, j: int|
            0 <= i < steps.len() && 0 <= j < steps[i].paths.len()
                && #[trigger] steps[i].there[j] implies listed(
            side_scripts(after, steps[i].server),
            steps[i].paths[j],
        ) by {
            if i < front.len() {
                assert(front[i] == steps[i]);
                assert(front[i].there[j]);
                lemma_listed_grows(
                    side_scripts(before, steps[i].server),
                    side_scripts(after, steps[i].server),
                    steps[i].paths[j],
                );
            }
        }
    }
}

proof fn lemma_declared_again(s: State, steps: Seq<Declared>)
    requires
        settled(s, steps),
    ensures
        with_declared(s, steps) == s,
    decreases steps.len(),
{
    if steps.len() > 0 {
        let front = steps.drop_last();
        let last = steps.last();
        assert(steps[steps.len() - 1] == last);
        assert forall|i: int, j: int|
            0 <= i < front.len() && 0 <= j < front[i].paths.len()
                && #[trigger] front[i].there[j] implies listed(
            side_scripts(s, front[i].server),
            front[i].paths[j],
        ) by {
            assert(steps[i] == front[i]);
            assert(steps[i].there[j]);
        }
        lemma_declared_again(s, front);
        let list = side_scripts(s, last.server);
        assert forall|j: int| 0 <= j < last.paths.len() && #[trigger] last.there[j] implies listed(
            list,
            last.paths[j],
        ) by {
            assert(steps[steps.len() - 1].there[j]);
        }
        lemma_existing_settled(list, last.paths, last.there);
        assert(with_declared(s, steps) =~= s);
    }
}

proof fn lemma_parents_again(list: Seq<Seq<u8>>, manifests: Seq<Seq<u8>>)
    requires
        forall|i: int|
            0 <= i < manifests.len() ==> (parent(#[trigger] manifests[i]) matches Some(dir)
                ==> listed(list, dir)),
    ensures
        with_parents(list, manifests) == list,
    decreases manifests.len(),
{
    if manifests.len() > 0 {
        let front = manifests.drop_last();
        assert forall|i: int| 0 <= i < front.len() implies (parent(
            #[trigger] front[i],
        ) matches Some(dir) ==> listed(list, dir)) by {
            assert(front[i] == manifests[i]);
        }
        lemma_parents_again(list, front);
        assert(manifests[manifests.len() - 1] == manifests.last());
    }
}

proof fn lemma_undeclared_again(declared: Seq<Seq<u8>>, found: Seq<Seq<u8>>, server: bool)
    ensures
        ({
            let all = declared + found.filter(undeclared(declared, server));
            all + found.filter(undeclared(all, server)) == all
        }),
{
    let all = declared + found.filter(undeclared(declared, server));
    let pred = undeclared(all, server);
    assert forall|i: int| 0 <= i < found.len() implies !pred(#[trigger] found[i]) by {
        if is_lua(found[i]) && !is_manifest(found[i]) && runs_on(found[i], server) {
            lemma_listed_side(declared, found, server, i);
        }
    }
    lemma_filter_none(found, pred);
    assert(all + Seq::<Seq<u8>>::empty() =~= all);
}

/// Finding the scripts a second time changes nothing, as long as the manifests, what they declare
/// and the files are the same.
pub proof fn law_finding_again_changes_nothing(
    s: State,
    directory: Seq<u8>,
    manifests: Seq<Seq<u8>>,
    steps: Seq<Declared>,
    found: Seq<Seq<u8>>,
)
    requires
        forall|i: int|
            0 <= i < steps.len() ==> (#[trigger] steps[i]).paths.len() == steps[i].there.len(),
    ensures
        with_found(
            with_found(s, directory, manifests, steps, found),
            directory,
            manifests,
            steps,
            found,
        ) == with_found(s, directory, manifests, steps, found),
{
    let a = with_manifests(s, directory, manifests);
    let b = with_declared(a, steps);
    let c = with_undeclared(b, found);
    lemma_declared_settles(a, steps);
    assert forall|i: int| 0 <= i < manifests.len() implies (parent(
        #[trigger] manifests[i],
    ) matches Some(dir) ==> listed(c.directories, dir)) by {
        law_directories_are_known(s.directories, manifests, i);
    }
    lemma_parents_again(c.directories, manifests);
    assert(with_manifests(c, directory, manifests) =~= c);
    assert forall|i: int, j: int|
        0 <= i < steps.len() && 0 <= j < steps[i].paths.len()
            && #[trigger] steps[i].there[j] implies listed(
        side_scripts(c, steps[i].server),
        steps[i].paths[j],
    ) by {
        lemma_listed_grows(
            side_scripts(b, steps[i].server),
            side_scripts(c, steps[i].server),
            steps[i].paths[j],
        );
    }
    lemma_declared_again(c, steps);
    lemma_undeclared_again(b.server_scripts, found, true);
    lemma_undeclared_again(b.client_scripts, found, false);
    assert(with_undeclared(c, found) =~= c);
}

proof fn lemma_trimmed(path: Seq<u8>)
    ensures
        trimmed(trimmed(path)) == trimmed(path),
        trimmed(path).is_prefix_of(path),
    decreases path.len(),
{
    if path.len() > 1 && path.last() == 0x2f {
        lemma_trimmed(path.drop_last());
    } else if path.len() > 1 && path.last() == 0x2e && path[path.len() - 2] == 0x2f {
        lemma_trimmed(path.drop_last());
    }
}

/// Where the last part of a path begins, given the slash before it.
proof fn lemma_last_part_is(head: Seq<u8>, name: Seq<u8>)
    requires
        head.len() > 0 ==> head.last() == 0x2f,
        forall|i: int| 0 <= i < name.len() ==> #[trigger] name[i] != 0x2f,
    ensures
        last_part(head + name) == head.len(),
{
    let path = head + name;
    lemma_last_part(path);
    let at = last_part(path);
    if at > head.len() {
        assert(path[at - 1] == name[at - 1 - head.len()]);
    } else if at < head.len() {
        assert(path[head.len() - 1] == head.last());
    }
}

/// The path that new contents are written to lies in the directory of the file that they are for,
/// and has another name.
pub proof fn law_temporary_path_is_sibling(path: Seq<u8>)
    requires
        file_name(path) is Some,
    ensures
        parent(temporary_path(path)) == parent(path),
        file_name(temporary_path(path)) == Some(
            file_name(path)->0 + encode_utf8(".scrambler-tmp"@),
        ),
        file_name(temporary_path(path)) != file_name(path),
{
    let short = trimmed(path);
    lemma_last_part(short);
    let name = file_name(path)->0;
    let dir = parent(path)->0;
    reveal_strlit(".scrambler-tmp");
    is_ascii_chars_encode_utf8(".scrambler-tmp"@);
    let end = encode_utf8(".scrambler-tmp"@);
    assert(end.len() == 14 && end[13] == 0x70u8);
    assert forall|i: int| 0 <= i < end.len() implies #[trigger] end[i] != 0x2f by {
        assert(end[i] == ".scrambler-tmp"@[i] as u8);
    }
    let full = name + end;
    assert forall|i: int| 0 <= i < full.len() implies #[trigger] full[i] != 0x2f by {
        if i < name.len() {
            assert(name[i] == short[last_part(short) + i]);
        } else {
            assert(full[i] == end[i - name.len()]);
        }
    }
    assert(full[0] == name[0]);
    let temp = temporary_path(path);
    assert(parent(path) is Some) by {
        if short == seq![0x2fu8] {
            assert(short.last() == 0x2f);
            assert(name.len() == 0);
        }
    }
    let front = short.take(last_part(short));
    lemma_trimmed(front);
    let head = if dir.len() > 0 && dir.last() != 0x2f {
        dir + seq![0x2fu8]
    } else {
        dir
    };
    assert(temp =~= head + full);
    assert(head.len() > 0 ==> head.last() == 0x2f);
    lemma_last_part_is(head, full);
    assert(temp.last() == 0x70);
    assert(trimmed(temp) == temp);
    assert(temp.take(head.len() as int) =~= head);
    assert(temp.skip(head.len() as int) =~= full);
    assert(full.len() > 2);
    assert(trimmed(head) == dir) by {
        if dir.len() > 0 && dir.last() != 0x2f {
            assert(head.drop_last() =~= dir);
        }
    }
    assert(temp != seq![0x2fu8]);
    assert(full.len() != name.len());
}

} // verus!
