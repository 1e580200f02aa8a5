//! The order of paths: component by component.
use crate::paths::{components, get_components};
use crate::sorting::{lemma_insert, lemma_lex_order, lex_lt, stable_sorted, total_order, weak_order};
use crate::text::{copy_bytes, same_bytes, views};
use vstd::prelude::*;

verus! {

/// The order of bytes.
pub open spec fn byte_order() -> spec_fn(u8, u8) -> bool {
    |x: u8, y: u8| x < y
}

/// Components of a kind of their own come first: the root, then `.`, then `..`.
pub open spec fn rank(part: Seq<u8>) -> int {
    if part == seq![0x2fu8] {
        0
    } else if part == seq![0x2eu8] {
        1
    } else if part == seq![0x2eu8, 0x2eu8] {
        2
    } else {
        3
    }
}

/// The order of components: by kind, then by their bytes.
pub open spec fn part_order() -> spec_fn(Seq<u8>, Seq<u8>) -> bool {
    |x: Seq<u8>, y: Seq<u8>|
        rank(x) < rank(y) || (rank(x) == rank(y) && lex_lt(x, y, byte_order()))
}

/// The order of paths: that of their components.
pub open spec fn path_order() -> spec_fn(Seq<u8>, Seq<u8>) -> bool {
    |x: Seq<u8>, y: Seq<u8>| lex_lt(components(x), components(y), part_order())
}

/// The order of components is total.
proof fn lemma_part_order()
    ensures
        total_order(part_order()),
{
    let lex = |x: Seq<u8>, y: Seq<u8>| lex_lt(x, y, byte_order());
    let lt = part_order();
    lemma_lex_order(byte_order());
    assert forall|a: Seq<u8>| !#[trigger] lt(a, a) by {
        assert(!lex(a, a));
    }
    assert forall|a: Seq<u8>, b: Seq<u8>, c: Seq<u8>| #[trigger]
        lt(a, b) && #[trigger] lt(b, c) implies lt(a, c) by {
        assert(lex(a, b) && lex(b, c) ==> lex(a, c));
    }
    assert forall|a: Seq<u8>, b: Seq<u8>| a == b || #[trigger] lt(a, b) || lt(b, a) by {
        assert(a == b || lex(a, b) || lex(b, a));
    }
}

/// Paths are ordered up to those with the same components.
pub proof fn lemma_path_order()
    ensures
        weak_order(path_order()),
        forall|a: Seq<u8>, b: Seq<u8>|
            #![trigger path_order()(a, b)]
            !path_order()(a, b) && !path_order()(b, a) <==> components(a) == components(b),
{
    let lex = |x: Seq<Seq<u8>>, y: Seq<Seq<u8>>| lex_lt(x, y, part_order());
    let lt = path_order();
    lemma_part_order();
    lemma_lex_order(part_order());
    assert forall|a: Seq<u8>, b: Seq<u8>| #[trigger] lt(a, b) implies !lt(b, a) by {
        let x = components(a);
        let y = components(b);
        assert(lex(x, y));
        assert(!lex(x, x));
        assert(lex(x, y) && lex(y, x) ==> lex(x, x));
    }
    assert forall|a: Seq<u8>, b: Seq<u8>, c: Seq<u8>| #[trigger] lt(a, c) implies #[trigger] lt(
        a,
        b,
    ) || lt(b, c) by {
        let x = components(a);
        let y = components(b);
        let z = components(c);
        assert(lex(x, z));
        assert(x == y || lex(x, y) || lex(y, x));
        assert(lex(y, x) && lex(x, z) ==> lex(y, z));
    }
    assert forall|a: Seq<u8>, b: Seq<u8>|
        #![trigger lt(a, b)]
        !lt(a, b) && !lt(b, a) <==> components(a) == components(b) by {
        let x = components(a);
        let y = components(b);
        assert(!lex(x, x));
        assert(x == y || lex(x, y) || lex(y, x));
    }
}

/// Whether `a` comes before `b` byte by byte.
fn bytes_less(a: &[u8], b: &[u8]) -> (r: bool)
    ensures
        r == lex_lt(a@, b@, byte_order()),
{
    let mut i: usize = 0;
    assert(a@.skip(0) =~= a@ && b@.skip(0) =~= b@);
    while i < a.len() && i < b.len()
        invariant
            i <= a.len(),
            i <= b.len(),
            lex_lt(a@, b@, byte_order()) == lex_lt(
                a@.skip(i as int),
                b@.skip(i as int),
                byte_order(),
            ),
        decreases a.len() - i,
    {
        if a[i] != b[i] {
            return a[i] < b[i];
        }
        assert(a@.skip(i as int).drop_first() =~= a@.skip(i + 1));
        assert(b@.skip(i as int).drop_first() =~= b@.skip(i + 1));
        i += 1;
    }
    i < b.len()
}

/// The kind of a component.
fn part_rank(part: &[u8]) -> (r: u8)
    ensures
        r == rank(part@),
{
    if part.len() == 1 && part[0] == 0x2f {
        assert(part@ =~= seq![0x2fu8]);
        return 0;
    }
    assert(part@ != seq![0x2fu8]);
    if part.len() == 1 && part[0] == 0x2e {
        assert(part@ =~= seq![0x2eu8]);
        return 1;
    }
    assert(part@ != seq![0x2eu8]);
    if part.len() == 2 && part[0] == 0x2e && part[1] == 0x2e {
        assert(part@ =~= seq![0x2eu8, 0x2eu8]);
        return 2;
    }
    assert(part@ != seq![0x2eu8, 0x2eu8]);
    3
}

/// Whether one component comes before the other.
fn part_less(a: &[u8], b: &[u8]) -> (r: bool)
    ensures
        r == part_order()(a@, b@),
{
    let x: u8 = part_rank(a);
    let y: u8 = part_rank(b);
    x < y || (x == y && bytes_less(a, b))
}

/// Whether one list of components comes before the other.
fn parts_less(a: &Vec<Vec<u8>>, b: &Vec<Vec<u8>>) -> (r: bool)
    ensures
        r == lex_lt(views(a@), views(b@), part_order()),
{
    let ghost x = views(a@);
    let ghost y = views(b@);
    let mut i: usize = 0;
    assert(x.skip(0) =~= x && y.skip(0) =~= y);
    while i < a.len() && i < b.len()
        invariant
            x == views(a@),
            y == views(b@),
            i <= a.len(),
            i <= b.len(),
            lex_lt(x, y, part_order()) == lex_lt(x.skip(i as int), y.skip(i as int), part_order()),
        decreases a.len() - i,
    {
        assert(x.skip(i as int)[0] == a@[i as int]@);
        assert(y.skip(i as int)[0] == b@[i as int]@);
        if !same_bytes(a[i].as_slice(), b[i].as_slice()) {
            return part_less(a[i].as_slice(), b[i].as_slice());
        }
        assert(x.skip(i as int).drop_first() =~= x.skip(i + 1));
        assert(y.skip(i as int).drop_first() =~= y.skip(i + 1));
        i += 1;
    }
    i < b.len()
}

/// The paths in order. Of paths with the same components the first stays first.
pub fn sort_paths(paths: Vec<Vec<u8>>) -> (r: Vec<Vec<u8>>)
    ensures
        stable_sorted(views(paths@), views(r@), path_order()),
{
    let ghost lt = path_order();
    let ghost all = views(paths@);
    let mut sorted: Vec<Vec<u8>> = Vec::new();
    let mut keys: Vec<Vec<Vec<u8>>> = Vec::new();
    let mut n: usize = 0;
    proof {
        lemma_path_order();
        assert(views(sorted@) =~= Seq::empty());
        assert(all.take(0) =~= Seq::empty());
    }
    while n < paths.len()
        invariant
            lt == path_order(),
            weak_order(lt),
            all == views(paths@),
            n <= paths.len(),
            keys.len() == sorted.len(),
            forall|i: int| 0 <= i < keys.len() ==> views(#[trigger] keys@[i]@) == components(
                sorted@[i]@,
            ),
            stable_sorted(all.take(n as int), views(sorted@), lt),
        decreases paths.len() - n,
    {
        let path: Vec<u8> = copy_bytes(paths[n].as_slice());
        let key = get_components(path.as_slice());
        let ghost item = path@;
        let mut at: usize = sorted.len();
        while at > 0 && parts_less(&key, &keys[at - 1])
            invariant
                lt == path_order(),
                item == path@,
                at <= sorted.len(),
                keys.len() == sorted.len(),
                views(key@) == components(item),
                forall|i: int| 0 <= i < keys.len() ==> views(#[trigger] keys@[i]@) == components(
                    sorted@[i]@,
                ),
                at < sorted.len() ==> lt(item, sorted@[at as int]@),
            ensures
                at > 0 ==> !lt(item, sorted@[at - 1]@),
            decreases at,
        {
            at -= 1;
        }
        let ghost before = sorted@;
        let ghost old_keys = keys@;
        proof {
            assert(at > 0 ==> views(before)[at - 1] == before[at - 1]@);
            assert(at < before.len() ==> views(before)[at as int] == before[at as int]@);
            lemma_insert(all.take(n as int), views(before), item, at as int, lt);
            assert(all.take(n as int).push(item) =~= all.take(n + 1));
        }
        sorted.insert(at, path);
        keys.insert(at, key);
        proof {
            assert(views(sorted@) =~= views(before).insert(at as int, item));
            assert forall|i: int| 0 <= i < keys.len() implies views(#[trigger] keys@[i]@)
                == components(sorted@[i]@) by {
                if i < at {
                    assert(keys@[i] == old_keys[i] && sorted@[i] == before[i]);
                } else if i > at {
                    assert(keys@[i] == old_keys[i - 1] && sorted@[i] == before[i - 1]);
                }
            }
        }
        n += 1;
    }
    assert(all.take(n as int) =~= all);
    sorted
}

} // verus!
