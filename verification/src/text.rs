//! Byte strings and lists of them: the few operations that the rest of the library needs.
use vstd::prelude::*;
use vstd::utf8::*;

verus! {

/// The contents of a list, item by item.
pub open spec fn views<T: View>(items: Seq<T>) -> Seq<T::V> {
    Seq::new(items.len(), |i: int| items[i]@)
}

/// `part` stands somewhere in `bytes`.
pub open spec fn has_part(bytes: Seq<u8>, part: Seq<u8>) -> bool {
    exists|i: int|
        0 <= i <= bytes.len() - part.len() && #[trigger] bytes.subrange(i, i + part.len()) == part
}

/// `bytes` begins with `part`.
pub open spec fn begins_with(bytes: Seq<u8>, part: Seq<u8>) -> bool {
    part.len() <= bytes.len() && bytes.take(part.len() as int) == part
}

/// `bytes` ends with `part`.
pub open spec fn ends_with(bytes: Seq<u8>, part: Seq<u8>) -> bool {
    part.len() <= bytes.len() && bytes.skip(bytes.len() - part.len()) == part
}

#[verifier::external_type_specification]
#[verifier::external_body]
pub struct ExUtf8Error(core::str::Utf8Error);

/// `std::str::from_utf8` accepts well-formed UTF-8 and nothing else, and the string it returns
/// is made of the bytes it was given.
pub assume_specification[ core::str::from_utf8 ](v: &[u8]) -> (r: Result<
    &str,
    core::str::Utf8Error,
>)
    ensures
        r is Ok <==> valid_utf8(v@),
        r matches Ok(s) ==> encode_utf8(s@) == v@,
;

/// Whether the two hold the same bytes.
pub fn same_bytes(a: &[u8], b: &[u8]) -> (r: bool)
    ensures
        r == (a@ == b@),
{
    if a.len() != b.len() {
        return false;
    }
    let mut i: usize = 0;
    while i < a.len()
        invariant
            a.len() == b.len(),
            i <= a.len(),
            forall|j: int| 0 <= j < i ==> a@[j] == b@[j],
        decreases a.len() - i,
    {
        if a[i] != b[i] {
            return false;
        }
        i += 1;
    }
    assert(a@ =~= b@);
    true
}

/// Whether `part` stands in `bytes` at position `at`.
fn part_at(bytes: &[u8], at: usize, part: &[u8]) -> (r: bool)
    requires
        at + part.len() <= bytes.len(),
    ensures
        r == (bytes@.subrange(at as int, at + part.len()) == part@),
{
    let mut i: usize = 0;
    while i < part.len()
        invariant
            i <= part.len(),
            at + part.len() <= bytes.len(),
            forall|j: int| 0 <= j < i ==> bytes@[at + j] == part@[j],
        decreases part.len() - i,
    {
        if bytes[at + i] != part[i] {
            assert(bytes@.subrange(at as int, at + part.len())[i as int] != part@[i as int]);
            return false;
        }
        i += 1;
    }
    assert(bytes@.subrange(at as int, at + part.len()) =~= part@);
    true
}

/// Whether `part` stands somewhere in `bytes`.
pub fn contains_part(bytes: &[u8], part: &[u8]) -> (r: bool)
    ensures
        r == has_part(bytes@, part@),
{
    if part.len() > bytes.len() {
        return false;
    }
    let last: usize = bytes.len() - part.len();
    let mut i: usize = 0;
    while i <= last
        invariant
            last == bytes.len() - part.len(),
            i <= last + 1,
            forall|j: int|
                0 <= j < i ==> #[trigger] bytes@.subrange(j, j + part.len()) != part@,
        decreases last + 1 - i,
    {
        if part_at(bytes, i, part) {
            return true;
        }
        if i == last {
            return false;
        }
        i += 1;
    }
    false
}

/// Whether `bytes` begins with `part`.
pub fn has_prefix(bytes: &[u8], part: &[u8]) -> (r: bool)
    ensures
        r == begins_with(bytes@, part@),
{
    proof {
        if part@.len() <= bytes@.len() {
            assert(bytes@.subrange(0, part@.len() as int) =~= bytes@.take(part@.len() as int));
        }
    }
    part.len() <= bytes.len() && part_at(bytes, 0, part)
}

/// Whether `bytes` ends with `part`.
pub fn has_suffix(bytes: &[u8], part: &[u8]) -> (r: bool)
    ensures
        r == ends_with(bytes@, part@),
{
    proof {
        if part@.len() <= bytes@.len() {
            let at = bytes@.len() - part@.len();
            assert(bytes@.subrange(at, at + part@.len()) =~= bytes@.skip(at));
        }
    }
    part.len() <= bytes.len() && part_at(bytes, bytes.len() - part.len(), part)
}

/// A copy of `bytes`.
pub fn copy_bytes(bytes: &[u8]) -> (r: Vec<u8>)
    ensures
        r@ == bytes@,
{
    let mut r: Vec<u8> = Vec::new();
    append_bytes(&mut r, bytes);
    r
}

/// Puts `bytes` at the end of `dest`.
pub fn append_bytes(dest: &mut Vec<u8>, bytes: &[u8])
    ensures
        final(dest)@ == old(dest)@ + bytes@,
{
    dest.extend_from_slice(bytes);
    assert(dest@ =~= old(dest)@ + bytes@);
}

} // verus!
