//! Paths, as byte strings whose parts are set apart by slashes.
//!
//! A path need not be valid UTF-8. What a path names is not looked at here: everything is decided
//! by its text.
use crate::text::{append_bytes, copy_bytes, ends_with, has_suffix, same_bytes, views};
use vstd::prelude::*;
use vstd::utf8::*;

verus! {

/// Where the last part of a path begins: after its last slash.
pub open spec fn last_part(path: Seq<u8>) -> int
    decreases path.len(),
{
    if path.len() == 0 {
        0
    } else if path.last() == 0x2f {
        path.len() as int
    } else {
        last_part(path.drop_last())
    }
}

/// A path without the slashes and the `.` parts at its end. The slash of the root stays.
pub open spec fn trimmed(path: Seq<u8>) -> Seq<u8>
    decreases path.len(),
{
    if path.len() > 1 && path.last() == 0x2f {
        trimmed(path.drop_last())
    } else if path.len() > 1 && path.last() == 0x2e && path[path.len() - 2] == 0x2f {
        trimmed(path.drop_last())
    } else {
        path
    }
}

/// The name of the file that a path leads to, if it ends in a name.
pub open spec fn file_name(path: Seq<u8>) -> Option<Seq<u8>> {
    let path = trimmed(path);
    let name = path.skip(last_part(path));
    if name.len() == 0 || name == seq![0x2eu8] || name == seq![0x2eu8, 0x2eu8] {
        None
    } else {
        Some(name)
    }
}

/// The path of the directory that holds what a path leads to. The root and the empty path have
/// none.
pub open spec fn parent(path: Seq<u8>) -> Option<Seq<u8>> {
    let path = trimmed(path);
    if path.len() == 0 || path == seq![0x2fu8] {
        None
    } else {
        Some(trimmed(path.take(last_part(path))))
    }
}

/// `path`, seen from `base`: an absolute path stands for itself.
pub open spec fn joined(base: Seq<u8>, path: Seq<u8>) -> Seq<u8> {
    if path.len() > 0 && path[0] == 0x2f {
        path
    } else if base.len() > 0 && base.last() != 0x2f {
        base + seq![0x2fu8] + path
    } else {
        base + path
    }
}

/// The file name ends in `.lua`, and something stands before that.
pub open spec fn is_lua(path: Seq<u8>) -> bool {
    file_name(path) matches Some(name) && name.len() > 4 && ends_with(name, encode_utf8(".lua"@))
}

/// The parts of a path, with the slashes between them taken out.
pub open spec fn split(path: Seq<u8>) -> Seq<Seq<u8>>
    decreases path.len(),
    via split_decreases
{
    let at = last_part(path);
    if at == 0 {
        seq![path]
    } else {
        split(path.take(at - 1)).push(path.skip(at))
    }
}

#[via_fn]
proof fn split_decreases(path: Seq<u8>) {
    lemma_last_part(path);
}

/// The components of a path. Two paths with the same components lead to the same place: empty
/// parts do not count, nor does a `.` unless it comes first. The root is a component of its own.
pub open spec fn components(path: Seq<u8>) -> Seq<Seq<u8>>
    decreases path.len(),
    via components_decreases
{
    if path.len() == 0 {
        Seq::empty()
    } else {
        let at = last_part(path);
        let part = path.skip(at);
        let before = if at == 0 {
            Seq::empty()
        } else if at == 1 {
            seq![seq![0x2fu8]]
        } else {
            components(path.take(at - 1))
        };
        if part.len() == 0 || (part == seq![0x2eu8] && at != 0) {
            before
        } else {
            before.push(part)
        }
    }
}

#[via_fn]
proof fn components_decreases(path: Seq<u8>) {
    lemma_last_part(path);
}

pub proof fn lemma_last_part(path: Seq<u8>)
    ensures
        0 <= last_part(path) <= path.len(),
        last_part(path) > 0 ==> path[last_part(path) - 1] == 0x2f,
        forall|i: int| last_part(path) <= i < path.len() ==> #[trigger] path[i] != 0x2f,
    decreases path.len(),
{
    if path.len() > 0 && path.last() != 0x2f {
        let front = path.drop_last();
        lemma_last_part(front);
        assert forall|i: int| last_part(path) <= i < path.len() implies #[trigger] path[i]
            != 0x2f by {
            if i < front.len() {
                assert(path[i] == front[i]);
            }
        }
    }
}

/// Where the last part of a path begins.
fn find_last_part(path: &[u8]) -> (r: usize)
    ensures
        r == last_part(path@),
        r <= path.len(),
{
    let mut n: usize = path.len();
    assert(path@.take(n as int) =~= path@);
    while n > 0 && path[n - 1] != 0x2f
        invariant
            n <= path.len(),
            last_part(path@) == last_part(path@.take(n as int)),
        decreases n,
    {
        assert(path@.take(n as int).drop_last() =~= path@.take(n - 1));
        n -= 1;
    }
    n
}

/// How much of a path is left when its end is trimmed.
fn trimmed_len(path: &[u8]) -> (r: usize)
    ensures
        r <= path.len(),
        path@.take(r as int) == trimmed(path@),
{
    let mut n: usize = path.len();
    assert(path@.take(n as int) =~= path@);
    while n > 1 && (path[n - 1] == 0x2f || (path[n - 1] == 0x2e && path[n - 2] == 0x2f))
        invariant
            n <= path.len(),
            trimmed(path@) == trimmed(path@.take(n as int)),
        decreases n,
    {
        assert(path@.take(n as int).drop_last() =~= path@.take(n - 1));
        n -= 1;
    }
    n
}

/// The name of the file that a path leads to, if it ends in a name.
pub fn get_file_name(path: &[u8]) -> (r: Option<&[u8]>)
    ensures
        match r {
            Some(name) => file_name(path@) == Some(name@),
            None => file_name(path@) is None,
        },
{
    let n: usize = trimmed_len(path);
    let path: &[u8] = &path[0..n];
    let at: usize = find_last_part(path);
    let name: &[u8] = &path[at..path.len()];
    assert(name@ =~= path@.skip(at as int));
    if name.len() == 0 {
        return None;
    }
    if name[0] == 0x2e && (name.len() == 1 || (name.len() == 2 && name[1] == 0x2e)) {
        assert(name@ =~= seq![0x2eu8] || name@ =~= seq![0x2eu8, 0x2eu8]);
        return None;
    }
    assert(name@ != seq![0x2eu8] && name@ != seq![0x2eu8, 0x2eu8]);
    Some(name)
}

/// The path of the directory that holds what a path leads to.
pub fn get_parent(path: &[u8]) -> (r: Option<&[u8]>)
    ensures
        match r {
            Some(dir) => parent(path@) == Some(dir@),
            None => parent(path@) is None,
        },
{
    let n: usize = trimmed_len(path);
    let path: &[u8] = &path[0..n];
    if path.len() == 0 {
        return None;
    }
    if path.len() == 1 && path[0] == 0x2f {
        assert(path@ =~= seq![0x2fu8]);
        return None;
    }
    assert(path@ != seq![0x2fu8]);
    let at: usize = find_last_part(path);
    let dir: &[u8] = &path[0..at];
    assert(dir@ =~= path@.take(at as int));
    let m: usize = trimmed_len(dir);
    let r: &[u8] = &dir[0..m];
    assert(r@ =~= dir@.take(m as int));
    Some(r)
}

/// `path`, seen from `base`.
pub fn join(base: &[u8], path: &[u8]) -> (r: Vec<u8>)
    ensures
        r@ == joined(base@, path@),
{
    if path.len() > 0 && path[0] == 0x2f {
        return copy_bytes(path);
    }
    let mut r: Vec<u8> = copy_bytes(base);
    if base.len() > 0 && base[base.len() - 1] != 0x2f {
        r.push(0x2f);
        assert(r@ =~= base@ + seq![0x2fu8]);
    }
    append_bytes(&mut r, path);
    r
}

/// Whether a path leads to a Lua script by its name.
pub fn has_lua_extension(path: &[u8]) -> (r: bool)
    ensures
        r == is_lua(path@),
{
    match get_file_name(path) {
        Some(name) => name.len() > 4 && has_suffix(name, ".lua".as_bytes()),
        None => false,
    }
}

/// The parts of a path.
pub fn split_path(path: &[u8]) -> (r: Vec<Vec<u8>>)
    ensures
        views(r@) == split(path@),
    decreases path.len(),
{
    let at: usize = find_last_part(path);
    proof {
        lemma_last_part(path@);
    }
    if at == 0 {
        let mut r: Vec<Vec<u8>> = Vec::new();
        r.push(copy_bytes(path));
        assert(views(r@) =~= seq![path@]);
        r
    } else {
        let front: &[u8] = &path[0..at - 1];
        assert(front@ =~= path@.take(at - 1));
        let mut r: Vec<Vec<u8>> = split_path(front);
        let ghost before = r@;
        r.push(copy_bytes(&path[at..path.len()]));
        assert(r@.last()@ =~= path@.skip(at as int));
        assert(views(r@) =~= views(before).push(path@.skip(at as int)));
        r
    }
}

/// The components of a path.
pub fn get_components(path: &[u8]) -> (r: Vec<Vec<u8>>)
    ensures
        views(r@) == components(path@),
    decreases path.len(),
{
    if path.len() == 0 {
        let r: Vec<Vec<u8>> = Vec::new();
        assert(views(r@) =~= Seq::empty());
        return r;
    }
    let at: usize = find_last_part(path);
    proof {
        lemma_last_part(path@);
    }
    let part: &[u8] = &path[at..path.len()];
    assert(part@ =~= path@.skip(at as int));
    let mut r: Vec<Vec<u8>> = Vec::new();
    if at == 0 {
        assert(views(r@) =~= Seq::empty());
    } else if at == 1 {
        r.push(copy_bytes("/".as_bytes()));
        proof {
            reveal_strlit("/");
            is_ascii_chars_encode_utf8("/"@);
            assert(r@[0]@ =~= seq![0x2fu8]);
        }
        assert(views(r@) =~= seq![seq![0x2fu8]]);
    } else {
        let front: &[u8] = &path[0..at - 1];
        assert(front@ =~= path@.take(at - 1));
        r = get_components(front);
    }
    let ghost before = r@;
    if part.len() == 0 {
        return r;
    }
    if part.len() == 1 && part[0] == 0x2e && at != 0 {
        assert(part@ =~= seq![0x2eu8]);
        return r;
    }
    assert(!(part@ == seq![0x2eu8] && at != 0));
    r.push(copy_bytes(part));
    assert(views(r@) =~= views(before).push(part@));
    r
}

/// Whether two paths have the same components.
pub fn same_path(a: &[u8], b: &[u8]) -> (r: bool)
    ensures
        r == (components(a@) == components(b@)),
{
    let x = get_components(a);
    let y = get_components(b);
    if x.len() != y.len() {
        assert(views(x@).len() != views(y@).len());
        return false;
    }
    let mut i: usize = 0;
    while i < x.len()
        invariant
            x.len() == y.len(),
            i <= x.len(),
            views(x@) == components(a@),
            views(y@) == components(b@),
            forall|j: int| 0 <= j < i ==> x@[j]@ == y@[j]@,
        decreases x.len() - i,
    {
        if !same_bytes(x[i].as_slice(), y[i].as_slice()) {
            assert(views(x@)[i as int] != views(y@)[i as int]);
            return false;
        }
        i += 1;
    }
    assert(views(x@) =~= views(y@));
    true
}

} // verus!
