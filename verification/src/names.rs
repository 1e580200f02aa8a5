//! Lists of event names without repetition.
use crate::calls::{call_sites, captures, lemma_sites, names_in, site_name, CallRegex};
use crate::text::views;
use vstd::hash_set::StringHashSet;
use vstd::prelude::*;
use vstd::utf8::*;

verus! {

/// A list of names, and the names that are not put into it again.
#[verifier::ext_equal]
pub struct Names {
    pub names: Seq<Seq<char>>,
    pub seen: Set<Seq<char>>,
}

/// No name.
pub open spec fn no_names() -> Names {
    Names { names: Seq::empty(), seen: Set::empty() }
}

/// The list with the names of `found` at its end, in order, but for those that have been seen and
/// those in `block`.
pub open spec fn admitted(list: Names, found: Seq<Seq<char>>, block: Set<Seq<char>>) -> Names
    decreases found.len(),
{
    if found.len() == 0 {
        list
    } else {
        let before = admitted(list, found.drop_last(), block);
        let name = found.last();
        if block.contains(name) || before.seen.contains(name) {
            before
        } else {
            Names { names: before.names.push(name), seen: before.seen.insert(name) }
        }
    }
}

/// What has been seen is what stands in the list, and nothing stands in it twice.
pub open spec fn tidy(list: Names) -> bool {
    &&& list.names.no_duplicates()
    &&& forall|name: Seq<char>| #[trigger] list.seen.contains(name) <==> list.names.contains(name)
}

/// Where `item` stands first in `list`; the length of `list` where it does not stand in it.
pub open spec fn position<T>(list: Seq<T>, item: T) -> int
    decreases list.len(),
{
    if list.len() == 0 {
        0
    } else if list[0] == item {
        0
    } else {
        1 + position(list.drop_first(), item)
    }
}

pub proof fn lemma_position<T>(list: Seq<T>, item: T)
    ensures
        0 <= position(list, item) <= list.len(),
        position(list, item) < list.len() ==> list[position(list, item)] == item,
        forall|j: int| 0 <= j < position(list, item) ==> #[trigger] list[j] != item,
        forall|j: int|
            0 <= j < list.len() && #[trigger] list[j] == item ==> position(list, item) <= j,
    decreases list.len(),
{
    if list.len() > 0 && list[0] != item {
        let rest = list.drop_first();
        lemma_position(rest, item);
        assert(forall|j: int| 0 < j < list.len() ==> #[trigger] list[j] == rest[j - 1]);
    }
}

pub proof fn lemma_admit_concat(
    list: Names,
    a: Seq<Seq<char>>,
    b: Seq<Seq<char>>,
    block: Set<Seq<char>>,
)
    ensures
        admitted(list, a + b, block) == admitted(admitted(list, a, block), b, block),
    decreases b.len(),
{
    if b.len() == 0 {
        assert(a + b =~= a);
    } else {
        assert((a + b).drop_last() =~= a + b.drop_last());
        lemma_admit_concat(list, a, b.drop_last(), block);
    }
}

/// Which names are in a list after others were admitted to it.
pub proof fn lemma_admitted(list: Names, found: Seq<Seq<char>>, block: Set<Seq<char>>)
    requires
        tidy(list),
    ensures
        tidy(admitted(list, found, block)),
        list.names.is_prefix_of(admitted(list, found, block).names),
        forall|name: Seq<char>| #[trigger]
            admitted(list, found, block).names.contains(name) <==> list.names.contains(name) || (
            found.contains(name) && !block.contains(name)),
    decreases found.len(),
{
    let after = admitted(list, found, block);
    if found.len() > 0 {
        let front = found.drop_last();
        let before = admitted(list, front, block);
        let last = found.last();
        lemma_admitted(list, front, block);
        assert forall|name: Seq<char>| #[trigger] after.names.contains(name) <==> {
            before.names.contains(name) || (name == last && !block.contains(last))
        } by {
            if after.names.len() > before.names.len() {
                if after.names.contains(name) {
                    let k = choose|k: int| 0 <= k < after.names.len() && after.names[k] == name;
                    if k < before.names.len() {
                        assert(before.names[k] == name);
                    }
                }
                if before.names.contains(name) {
                    let k = choose|k: int| 0 <= k < before.names.len() && before.names[k] == name;
                    assert(after.names[k] == name);
                }
                if name == last {
                    assert(after.names[before.names.len() as int] == name);
                }
            }
        }
        assert forall|name: Seq<char>| #[trigger] found.contains(name) <==> (front.contains(name)
            || name == last) by {
            if found.contains(name) {
                let k = choose|k: int| 0 <= k < found.len() && found[k] == name;
                if k < front.len() {
                    assert(front[k] == name);
                }
            }
            if front.contains(name) {
                let k = choose|k: int| 0 <= k < front.len() && front[k] == name;
                assert(found[k] == name);
            }
            assert(found[found.len() - 1] == last);
        }
        if after.names.len() > before.names.len() {
            assert(!before.names.contains(last));
            assert forall|i: int, j: int|
                0 <= i < after.names.len() && 0 <= j < after.names.len() && i
                    != j implies after.names[i] != after.names[j] by {
                if i < before.names.len() && j < before.names.len() {
                    assert(before.names[i] != before.names[j]);
                } else if i < before.names.len() {
                    assert(before.names.contains(before.names[i]));
                } else {
                    assert(before.names.contains(before.names[j]));
                }
            }
            assert(list.names.is_prefix_of(after.names));
        }
    } else {
        assert(list.names.is_prefix_of(list.names));
        assert(forall|name: Seq<char>| !found.contains(name));
    }
}

/// A list of names that takes each name once.
pub struct NameList {
    names: Vec<String>,
    seen: StringHashSet,
}

impl View for NameList {
    type V = Names;

    closed spec fn view(&self) -> Names {
        Names { names: views(self.names@), seen: self.seen@ }
    }
}

impl NameList {
    /// A list without names.
    pub fn new() -> (r: Self)
        ensures
            r@ == no_names(),
    {
        let r = NameList { names: Vec::new(), seen: StringHashSet::new() };
        assert(views(r.names@) =~= Seq::empty());
        r
    }

    /// The names, in order.
    pub fn names(&self) -> (r: &Vec<String>)
        ensures
            views(r@) == self@.names,
    {
        &self.names
    }

    /// The names, in order, without the list.
    pub fn into_names(self) -> (r: Vec<String>)
        ensures
            views(r@) == self@.names,
    {
        self.names
    }

    /// Puts `name` at the end unless it has been seen.
    pub fn add_once(&mut self, name: &str)
        ensures
            final(self)@ == admitted(old(self)@, seq![name@], Set::empty()),
    {
        proof {
            let found = seq![name@];
            assert(found.drop_last() =~= Seq::empty());
            assert(admitted(self@, found.drop_last(), Set::empty()) == self@);
        }
        if !self.seen.contains(name) {
            self.seen.insert(name.to_owned());
            self.names.push(name.to_owned());
            assert(views(self.names@) =~= views(old(self).names@).push(name@));
        }
    }

    /// Puts `name` at the end, whether or not it has been seen, and does not mark it as seen.
    pub fn append(&mut self, name: &str)
        ensures
            final(self)@.names == old(self)@.names.push(name@),
            final(self)@.seen == old(self)@.seen,
    {
        self.names.push(name.to_owned());
        assert(views(self.names@) =~= views(old(self).names@).push(name@));
    }
}

/// Puts the names that `code` passes to the expression's function at the end of the list, each
/// once, but for those in `block`.
pub fn extract_into_filtered(
    re: &CallRegex,
    code: &[u8],
    list: &mut NameList,
    block: &StringHashSet,
)
    requires
        re.wf(),
    ensures
        final(list)@ == admitted(old(list)@, names_in(re.func@, code@), block@),
{
    let ghost func = re.func@;
    let ghost all = names_in(func, code@);
    let sites = captures(re, code);
    let mut k: usize = 0;
    proof {
        lemma_sites(func, code@, 0);
        assert(all.take(0) =~= Seq::empty());
    }
    while k < sites.len()
        invariant
            func == re.func@,
            all == names_in(func, code@),
            views(sites@) == call_sites(func, code@, 0),
            forall|j: int|
                0 <= j < call_sites(func, code@, 0).len() ==> {
                    let site = #[trigger] call_sites(func, code@, 0)[j];
                    &&& 0 <= site.start <= site.name_start <= site.name_end < site.end
                        <= code@.len()
                    &&& valid_utf8(code@.subrange(site.name_start, site.name_end))
                },
            k <= sites.len(),
            list@ == admitted(old(list)@, all.take(k as int), block@),
        decreases sites.len() - k,
    {
        let site = &sites[k];
        proof {
            assert(views(sites@)[k as int] == site@);
            assert(call_sites(func, code@, 0)[k as int] == site@);
            assert(all.take(k + 1).drop_last() =~= all.take(k as int));
            assert(all.take(k + 1).last() == site_name(code@, site@));
        }
        match core::str::from_utf8(&code[site.name_start..site.name_end]) {
            Ok(name) => {
                proof {
                    encode_utf8_decode_utf8(name@);
                }
                if !block.contains(name) && !list.seen.contains(name) {
                    let ghost before = list@;
                    list.seen.insert(name.to_owned());
                    list.names.push(name.to_owned());
                    assert(list@.names =~= before.names.push(name@));
                }
            },
            Err(_) => {},
        }
        k += 1;
    }
    assert(sites.len() == views(sites@).len());
    assert(all.take(k as int) =~= all);
}

/// Puts the names that `code` passes to the expression's function at the end of the list, each
/// once.
pub fn extract_into(re: &CallRegex, code: &[u8], list: &mut NameList)
    requires
        re.wf(),
    ensures
        final(list)@ == admitted(old(list)@, names_in(re.func@, code@), Set::empty()),
{
    let none = StringHashSet::new();
    extract_into_filtered(re, code, list, &none);
}

} // verus!
