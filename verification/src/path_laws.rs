//! What holds of paths: of their last names, of their directories, of their parts and of their
//! order.
use crate::path_order::{byte_order, part_order, path_order};
use crate::paths::{
    components, file_name, is_lua, joined, last_part, lemma_last_part, parent, split, trimmed,
};
use crate::scripts::is_manifest;
use crate::sorting::lex_lt;
use crate::text::ends_with;
use crate::text_laws::law_parts;
use vstd::prelude::*;
use vstd::utf8::*;

verus! {

/// A path ends in a name where the name stands behind its last slash.
pub proof fn law_file_name(dir: Seq<u8>, name: Seq<u8>)
    requires
        dir.len() > 0 ==> dir.last() == 0x2f,
        forall|i: int| 0 <= i < name.len() ==> #[trigger] name[i] != 0x2f,
        name.len() > 0,
        name != seq![0x2eu8],
    ensures
        name != seq![0x2eu8, 0x2eu8] ==> file_name(dir + name) == Some(name),
        name == seq![0x2eu8, 0x2eu8] ==> file_name(dir + name) is None,
{
    let path = dir + name;
    lemma_last_part_at(dir, name);
    lemma_untrimmed(dir, name);
    assert(path.skip(dir.len() as int) =~= name);
}

/// Slashes and single dots at the end of a path do not count, and the empty path, a single dot and
/// the root have no name.
pub proof fn law_file_name_ignores_the_end(path: Seq<u8>)
    ensures
        file_name(path + seq![0x2fu8]) == file_name(path),
        file_name(path + seq![0x2fu8, 0x2eu8]) == file_name(path),
        file_name(Seq::empty()) is None,
        file_name(seq![0x2eu8]) is None,
        file_name(seq![0x2fu8]) is None,
{
    lemma_trim_slash(path);
    lemma_trim_dot(path);
    let root = seq![0x2fu8];
    let dot = seq![0x2eu8];
    assert(last_part(root) == 1);
    assert(root.skip(1) =~= Seq::empty());
    lemma_last_part_at(Seq::empty(), dot);
    assert(Seq::<u8>::empty() + dot =~= dot);
    assert(dot.skip(0) =~= dot);
    assert(trimmed(Seq::<u8>::empty()) =~= Seq::empty());
    assert(last_part(Seq::<u8>::empty()) == 0);
    assert(Seq::<u8>::empty().skip(0) =~= Seq::empty());
    if path.len() == 0 {
        assert(path =~= Seq::empty());
        assert(path + seq![0x2fu8] =~= root);
        assert(trimmed(path + seq![0x2fu8, 0x2eu8]) == root) by {
            assert((path + seq![0x2fu8, 0x2eu8]).drop_last() =~= root);
        }
    }
}

/// The directory of what a path leads to is what stands before its last slash. Where that is at the
/// end of the directory already, or a single dot, it does not count; the slash of the root does.
pub proof fn law_parent(dir: Seq<u8>, name: Seq<u8>)
    requires
        forall|i: int| 0 <= i < name.len() ==> #[trigger] name[i] != 0x2f,
        name.len() > 0,
        name != seq![0x2eu8],
    ensures
        parent(name) == Some(Seq::<u8>::empty()),
        parent(seq![0x2fu8] + name) == Some(seq![0x2fu8]),
        dir.len() > 0 && dir.last() != 0x2f && !(dir.len() > 1 && dir.last() == 0x2e
            && dir[dir.len() - 2] == 0x2f) ==> parent(dir + seq![0x2fu8] + name) == Some(dir),
        parent(dir + seq![0x2fu8, 0x2fu8] + name) == parent(dir + seq![0x2fu8] + name),
        parent(dir + seq![0x2fu8, 0x2eu8, 0x2fu8] + name) == parent(dir + seq![0x2fu8] + name),
{
    let slash = seq![0x2fu8];
    let none = Seq::<u8>::empty();
    lemma_parent(none, name);
    assert(none + name =~= name);
    assert(trimmed(none) =~= none);
    lemma_parent(slash, name);
    assert(trimmed(slash) =~= slash);
    let a = dir + slash;
    lemma_parent(a, name);
    assert(a.drop_last() =~= dir);
    assert(dir.len() > 0 ==> trimmed(a) == trimmed(dir));
    let b = dir + seq![0x2fu8, 0x2fu8];
    lemma_parent(b, name);
    assert(b.drop_last() =~= a);
    let c = dir + seq![0x2fu8, 0x2eu8, 0x2fu8];
    lemma_parent(c, name);
    let d = dir + seq![0x2fu8, 0x2eu8];
    assert(c.drop_last() =~= d);
    assert(d.drop_last() =~= a);
    assert(trimmed(c) == trimmed(d));
    assert(trimmed(d) == trimmed(a));
}

/// Slashes and single dots at the end of a path do not count for its directory either. The empty
/// path and the root have none.
pub proof fn law_parent_ignores_the_end(path: Seq<u8>)
    ensures
        path.len() > 0 ==> parent(path + seq![0x2fu8]) == parent(path),
        path.len() > 0 ==> parent(path + seq![0x2fu8, 0x2eu8]) == parent(path),
        parent(Seq::empty()) is None,
        parent(seq![0x2fu8]) is None,
{
    lemma_trim_slash(path);
    lemma_trim_dot(path);
    assert(trimmed(Seq::<u8>::empty()) =~= Seq::empty());
    assert(trimmed(seq![0x2fu8]) =~= seq![0x2fu8]);
}

proof fn lemma_last_part_at(dir: Seq<u8>, name: Seq<u8>)
    requires
        dir.len() > 0 ==> dir.last() == 0x2f,
        forall|i: int| 0 <= i < name.len() ==> #[trigger] name[i] != 0x2f,
    ensures
        last_part(dir + name) == dir.len(),
{
    let path = dir + name;
    lemma_last_part(path);
    let at = last_part(path);
    if at > dir.len() {
        assert(path[at - 1] == name[at - 1 - dir.len()]);
    } else if at < dir.len() {
        assert(path[dir.len() - 1] == dir.last());
    }
}

proof fn lemma_untrimmed(dir: Seq<u8>, name: Seq<u8>)
    requires
        dir.len() > 0 ==> dir.last() == 0x2f,
        forall|i: int| 0 <= i < name.len() ==> #[trigger] name[i] != 0x2f,
        name.len() > 0,
        name != seq![0x2eu8],
    ensures
        trimmed(dir + name) == dir + name,
{
    let path = dir + name;
    assert(path.last() == name.last());
    assert(name.last() == name[name.len() - 1]);
    if path.len() > 1 && path.last() == 0x2e && path[path.len() - 2] == 0x2f {
        if name.len() > 1 {
            assert(path[path.len() - 2] == name[name.len() - 2]);
        } else {
            assert(name =~= seq![0x2eu8]);
        }
    }
}

proof fn lemma_parent(dir: Seq<u8>, name: Seq<u8>)
    requires
        dir.len() > 0 ==> dir.last() == 0x2f,
        forall|i: int| 0 <= i < name.len() ==> #[trigger] name[i] != 0x2f,
        name.len() > 0,
        name != seq![0x2eu8],
    ensures
        parent(dir + name) == Some(trimmed(dir)),
{
    let path = dir + name;
    lemma_last_part_at(dir, name);
    lemma_untrimmed(dir, name);
    assert(path.take(dir.len() as int) =~= dir);
    if path == seq![0x2fu8] {
        assert(path.last() == name.last());
        assert(name.last() == name[name.len() - 1]);
    }
}

proof fn lemma_trim_slash(path: Seq<u8>)
    ensures
        path.len() > 0 ==> trimmed(path + seq![0x2fu8]) == trimmed(path),
{
    assert((path + seq![0x2fu8]).drop_last() =~= path);
}

proof fn lemma_trim_dot(path: Seq<u8>)
    ensures
        path.len() > 0 ==> trimmed(path + seq![0x2fu8, 0x2eu8]) == trimmed(path),
{
    assert((path + seq![0x2fu8, 0x2eu8]).drop_last() =~= path + seq![0x2fu8]);
    lemma_trim_slash(path);
}

/// A path that is seen from a directory stands behind it, with one slash between them. An absolute
/// path stands for itself.
pub proof fn law_joined(base: Seq<u8>, path: Seq<u8>)
    ensures
        joined(base, seq![0x2fu8] + path) == seq![0x2fu8] + path,
        !(path.len() > 0 && path[0] == 0x2f) ==> joined(Seq::empty(), path) == path,
        !(path.len() > 0 && path[0] == 0x2f) ==> joined(base + seq![0x2fu8], path) == base
            + seq![0x2fu8] + path,
        !(path.len() > 0 && path[0] == 0x2f) && base.len() > 0 && base.last() != 0x2f ==> joined(
            base,
            path,
        ) == base + seq![0x2fu8] + path,
{
    assert(Seq::<u8>::empty() + path =~= path);
}

/// A path leads to a Lua script where its name is something and `.lua`.
pub proof fn law_lua_scripts(path: Seq<u8>)
    ensures
        is_lua(path) <==> (file_name(path) matches Some(name) && exists|stem: Seq<u8>|
            stem.len() > 0 && name == #[trigger] (stem + encode_utf8(".lua"@))),
{
    lemma_lua_length();
    if file_name(path) is Some {
        lemma_lua_name(file_name(path)->0, encode_utf8(".lua"@));
    }
}

proof fn lemma_lua_length()
    ensures
        encode_utf8(".lua"@).len() == 4,
{
    reveal_strlit(".lua");
    is_ascii_chars_encode_utf8(".lua"@);
}

proof fn lemma_lua_name(name: Seq<u8>, end: Seq<u8>)
    requires
        end.len() == 4,
    ensures
        name.len() > 4 && ends_with(name, end) <==> exists|stem: Seq<u8>|
            stem.len() > 0 && name == #[trigger] (stem + end),
{
    law_parts(name, end);
    if name.len() > 4 && ends_with(name, end) {
        let stem = choose|stem: Seq<u8>| name == #[trigger] (stem + end);
        assert(stem.len() > 0 && name == stem + end);
    }
    if exists|stem: Seq<u8>| stem.len() > 0 && name == #[trigger] (stem + end) {
        let stem = choose|stem: Seq<u8>| stem.len() > 0 && name == #[trigger] (stem + end);
        assert(name == stem + end);
    }
}

/// A path leads to a manifest where its name is one of two.
pub proof fn law_manifests(path: Seq<u8>)
    ensures
        is_manifest(path) <==> (file_name(path) matches Some(name) && (name == encode_utf8(
            "__resource.lua"@,
        ) || name == encode_utf8("fxmanifest.lua"@))),
{
}

/// The parts of a path are what stands between its slashes.
pub proof fn law_split(a: Seq<u8>, b: Seq<u8>)
    ensures
        split(a + seq![0x2fu8] + b) == split(a) + split(b),
        (forall|i: int| 0 <= i < a.len() ==> #[trigger] a[i] != 0x2f) ==> split(a) == seq![a],
    decreases b.len(),
{
    lemma_last_part(a);
    let path = a + seq![0x2fu8] + b;
    let at = last_part(b);
    lemma_last_part(b);
    let head = a + seq![0x2fu8] + b.take(at);
    assert(path =~= head + b.skip(at));
    assert forall|i: int| 0 <= i < b.skip(at).len() implies #[trigger] b.skip(at)[i] != 0x2f by {
        assert(b.skip(at)[i] == b[at + i]);
    }
    assert(head.last() == 0x2f) by {
        if at > 0 {
            assert(head.last() == b[at - 1]);
        }
    }
    lemma_last_part_at(head, b.skip(at));
    assert(path.skip(head.len() as int) =~= b.skip(at));
    if at == 0 {
        assert(path.take(head.len() - 1) =~= a);
        assert(b.skip(0) =~= b);
        assert(split(path) =~= split(a) + seq![b]);
    } else {
        let front = b.take(at - 1);
        law_split(a, front);
        assert(path.take(head.len() - 1) =~= a + seq![0x2fu8] + front);
        assert(split(path) =~= split(a) + split(b));
    }
}

/// The components of a path are its parts, but for those that are empty, and for single dots that
/// do not come first. The root is a component of its own.
pub proof fn law_components(base: Seq<u8>, part: Seq<u8>)
    requires
        forall|i: int| 0 <= i < part.len() ==> #[trigger] part[i] != 0x2f,
    ensures
        components(Seq::empty()) == Seq::<Seq<u8>>::empty(),
        part.len() > 0 ==> components(part) == seq![part],
        ({
            let own = if part.len() == 0 || part == seq![0x2eu8] {
                Seq::<Seq<u8>>::empty()
            } else {
                seq![part]
            };
            &&& components(seq![0x2fu8] + part) == seq![seq![0x2fu8]] + own
            &&& base.len() > 0 ==> components(base + seq![0x2fu8] + part) == components(base) + own
        }),
{
    let none = Seq::<u8>::empty();
    let slash = seq![0x2fu8];
    let own = if part.len() == 0 || part == seq![0x2eu8] {
        Seq::<Seq<u8>>::empty()
    } else {
        seq![part]
    };
    lemma_last_part_at(none, part);
    assert(none + part =~= part);
    assert(part.skip(0) =~= part);
    if part.len() > 0 {
        assert(components(part) =~= seq![part]);
    }
    lemma_last_part_at(slash, part);
    assert((slash + part).skip(1) =~= part);
    assert(components(slash + part) =~= seq![seq![0x2fu8]] + own);
    if base.len() > 0 {
        let head = base + slash;
        lemma_last_part_at(head, part);
        assert((head + part).skip(head.len() as int) =~= part);
        assert((head + part).take(head.len() - 1) =~= base);
        assert(components(head + part) =~= components(base) + own);
    }
}

/// One list comes before another where the two agree up to a place at which the first ends, or
/// holds what comes before.
pub proof fn law_lists_are_ordered<A>(x: Seq<A>, y: Seq<A>, lt: spec_fn(A, A) -> bool)
    ensures
        lex_lt(x, y, lt) <==> exists|k: int|
            0 <= k <= x.len() && k < y.len() && #[trigger] x.take(k) == y.take(k) && (k == x.len()
                || (x[k] != y[k] && lt(x[k], y[k]))),
    decreases x.len(),
{
    if y.len() > 0 {
        if x.len() == 0 {
            assert(x.take(0) =~= y.take(0));
        } else if x[0] == y[0] {
            let a = x.drop_first();
            let b = y.drop_first();
            law_lists_are_ordered(a, b, lt);
            if lex_lt(x, y, lt) {
                let k = choose|k: int|
                    0 <= k <= a.len() && k < b.len() && #[trigger] a.take(k) == b.take(k) && (k
                        == a.len() || (a[k] != b[k] && lt(a[k], b[k])));
                assert(x.take(k + 1) =~= seq![x[0]] + a.take(k));
                assert(y.take(k + 1) =~= seq![y[0]] + b.take(k));
                assert(x.take(k + 1) == y.take(k + 1));
            }
            if exists|k: int|
                0 <= k <= x.len() && k < y.len() && #[trigger] x.take(k) == y.take(k) && (k
                    == x.len() || (x[k] != y[k] && lt(x[k], y[k]))) {
                let k = choose|k: int|
                    0 <= k <= x.len() && k < y.len() && #[trigger] x.take(k) == y.take(k) && (k
                        == x.len() || (x[k] != y[k] && lt(x[k], y[k])));
                assert(k > 0);
                assert(a.take(k - 1) =~= x.take(k).drop_first());
                assert(b.take(k - 1) =~= y.take(k).drop_first());
            }
        } else {
            assert(x.take(0) =~= y.take(0));
            assert forall|k: int|
                0 < k <= x.len() && k < y.len() implies #[trigger] x.take(k) != y.take(k) by {
                assert(x.take(k)[0] == x[0] && y.take(k)[0] == y[0]);
            }
        }
    }
}

/// Paths are ordered by their components: by the first at which they differ, or the shorter first.
/// Of components the root comes first, then a single dot, then two dots, then names by their bytes.
pub proof fn law_paths_are_ordered(a: Seq<u8>, b: Seq<u8>, x: Seq<u8>, y: Seq<u8>)
    ensures
        path_order()(a, b) <==> exists|k: int|
            {
                &&& 0 <= k <= components(a).len()
                &&& k < components(b).len()
                &&& #[trigger] components(a).take(k) == components(b).take(k)
                &&& k == components(a).len() || (components(a)[k] != components(b)[k]
                    && part_order()(components(a)[k], components(b)[k]))
            },
        ({
            let rank = |part: Seq<u8>|
                if part == seq![0x2fu8] {
                    0int
                } else if part == seq![0x2eu8] {
                    1
                } else if part == seq![0x2eu8, 0x2eu8] {
                    2
                } else {
                    3
                };
            part_order()(x, y) <==> rank(x) < rank(y) || (rank(x) == rank(y) && exists|k: int|
                0 <= k <= x.len() && k < y.len() && #[trigger] x.take(k) == y.take(k) && (k
                    == x.len() || x[k] < y[k]))
        }),
{
    law_lists_are_ordered(components(a), components(b), part_order());
    law_lists_are_ordered(x, y, byte_order());
    if exists|k: int|
        0 <= k <= x.len() && k < y.len() && #[trigger] x.take(k) == y.take(k) && (k == x.len()
            || x[k] < y[k]) {
        let k = choose|k: int|
            0 <= k <= x.len() && k < y.len() && #[trigger] x.take(k) == y.take(k) && (k == x.len()
                || x[k] < y[k]);
        assert(k == x.len() || x[k] != y[k]);
    }
}

} // verus!
