//! What holds of byte strings, of their parts and of their encoding.
use crate::events::texts;
use crate::replacement::{concat, contents};
use crate::rewrite::{mapping, mappings, NameMap};
use crate::text::{begins_with, ends_with, has_part, views};
use vstd::prelude::*;
use vstd::utf8::*;

verus! {

/// A list has as many contents as items, and each stands where its item stands.
pub proof fn law_views<T: View>(items: Seq<T>)
    ensures
        views(items).len() == items.len(),
        forall|i: int| 0 <= i < items.len() ==> #[trigger] views(items)[i] == items[i]@,
{
}

/// A byte string holds a part exactly where it is made of something, the part and something.
pub proof fn law_parts(bytes: Seq<u8>, part: Seq<u8>)
    ensures
        has_part(bytes, part) <==> exists|a: Seq<u8>, b: Seq<u8>|
            bytes == #[trigger] ((a + part) + b),
        begins_with(bytes, part) <==> exists|b: Seq<u8>| bytes == #[trigger] (part + b),
        ends_with(bytes, part) <==> exists|a: Seq<u8>| bytes == #[trigger] (a + part),
{
    let n = part.len() as int;
    if has_part(bytes, part) {
        let i = choose|i: int|
            0 <= i <= bytes.len() - n && #[trigger] bytes.subrange(i, i + n) == part;
        assert(bytes =~= (bytes.take(i) + part) + bytes.skip(i + n)) by {
            assert(forall|k: int|
                i <= k < i + n ==> #[trigger] bytes[k] == bytes.subrange(i, i + n)[k - i]);
        }
    }
    if exists|a: Seq<u8>, b: Seq<u8>| bytes == #[trigger] ((a + part) + b) {
        let (a, b) = choose|a: Seq<u8>, b: Seq<u8>| bytes == #[trigger] ((a + part) + b);
        let i = a.len() as int;
        assert(bytes.subrange(i, i + n) =~= part);
    }
    if begins_with(bytes, part) {
        assert(bytes =~= part + bytes.skip(n)) by {
            assert(forall|k: int| 0 <= k < n ==> #[trigger] bytes[k] == bytes.take(n)[k]);
        }
    }
    if exists|b: Seq<u8>| bytes == #[trigger] (part + b) {
        assert(bytes.take(n) =~= part);
    }
    if ends_with(bytes, part) {
        let at = bytes.len() - n;
        assert(bytes =~= bytes.take(at) + part) by {
            assert(forall|k: int|
                at <= k < bytes.len() ==> #[trigger] bytes[k] == bytes.skip(at)[k - at]);
        }
    }
    if exists|a: Seq<u8>| bytes == #[trigger] (a + part) {
        assert(bytes.skip(bytes.len() - n) =~= part);
    }
}

/// Texts are encoded one after the other.
pub proof fn lemma_encode_concat(a: Seq<char>, b: Seq<char>)
    ensures
        encode_utf8(a + b) == encode_utf8(a) + encode_utf8(b),
    decreases a.len(),
{
    if a.len() == 0 {
        assert(a + b =~= b);
        assert(encode_utf8(a) + encode_utf8(b) =~= encode_utf8(b));
    } else {
        lemma_encode_concat(a.drop_first(), b);
        assert((a + b).drop_first() =~= a.drop_first() + b);
        assert((a + b)[0] == a[0]);
        assert(encode_utf8(a + b) =~= encode_utf8(a) + encode_utf8(b));
    }
}

/// What is said of the texts of scripts, of tables of names and of lists of them is said of all
/// that they hold.
pub proof fn law_contents(
    codes: Seq<Option<Vec<u8>>>,
    map: Map<Seq<char>, String>,
    maps: Seq<&NameMap>,
    lists: Seq<&Vec<String>>,
)
    ensures
        texts(codes).len() == codes.len(),
        forall|i: int|
            0 <= i < codes.len() ==> #[trigger] texts(codes)[i] == match codes[i] {
                Some(code) => Some(code@),
                None => None,
            },
        forall|name: Seq<char>| #[trigger]
            mapping(map).contains_key(name) <==> map.contains_key(name),
        forall|name: Seq<char>|
            map.contains_key(name) ==> #[trigger] mapping(map)[name] == map[name]@,
        mappings(maps).len() == maps.len(),
        forall|i: int| 0 <= i < maps.len() ==> #[trigger] mappings(maps)[i] == mapping(maps[i]@),
        contents(lists).len() == lists.len(),
        forall|i: int| 0 <= i < lists.len() ==> #[trigger] contents(lists)[i] == views(lists[i]@),
{
}

/// The names of several lists come list after list.
pub proof fn law_concat(lists: Seq<Seq<Seq<char>>>)
    ensures
        concat(lists) == lists.flatten(),
    decreases lists.len(),
{
    if lists.len() > 0 {
        let front = lists.drop_last();
        law_concat(front);
        front.lemma_flatten_push(lists.last());
        assert(front.push(lists.last()) =~= lists);
    }
}

} // verus!
