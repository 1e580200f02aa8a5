//! New names for old ones.
use crate::names::{
    admitted, lemma_admit_concat, lemma_admitted, lemma_position, no_names, position, tidy,
};
use crate::rewrite::NameMap;
use crate::text::views;
use crate::uuids::{all_uuids, UuidSource};
use vstd::hash_map::StringHashMap;
use vstd::hash_set::StringHashSet;
use vstd::prelude::*;

verus! {

/// The names of a list, each at the place where it stands first.
pub open spec fn first_seen(all: Seq<Seq<char>>) -> Seq<Seq<char>> {
    admitted(no_names(), all, Set::empty()).names
}

/// The new name for `name`, where the names of `all` take new names from the supply in the order
/// in which they are first seen.
pub open spec fn replacement(
    all: Seq<Seq<char>>,
    supply: Seq<Seq<char>>,
    name: Seq<char>,
) -> Seq<char> {
    supply[position(first_seen(all), name)]
}

/// The new names for a list of names.
pub open spec fn replacements(
    all: Seq<Seq<char>>,
    supply: Seq<Seq<char>>,
    names: Seq<Seq<char>>,
) -> Seq<Seq<char>> {
    Seq::new(names.len(), |i: int| replacement(all, supply, names[i]))
}

/// What is known of the names that are first seen.
pub proof fn lemma_first_seen(all: Seq<Seq<char>>)
    ensures
        first_seen(all).no_duplicates(),
        forall|name: Seq<char>| #[trigger] first_seen(all).contains(name) <==> all.contains(name),
        tidy(admitted(no_names(), all, Set::empty())),
{
    assert(tidy(no_names()));
    lemma_admitted(no_names(), all, Set::empty());
}

/// More names at the end leave the names that were first seen before in their places.
pub proof fn lemma_first_seen_grows(a: Seq<Seq<char>>, b: Seq<Seq<char>>)
    ensures
        first_seen(a).is_prefix_of(first_seen(a + b)),
        first_seen(a).len() <= first_seen(a + b).len(),
        forall|name: Seq<char>| #[trigger]
            a.contains(name) ==> position(first_seen(a + b), name) == position(first_seen(a), name),
{
    lemma_admit_concat(no_names(), a, b, Set::empty());
    lemma_first_seen(a);
    lemma_admitted(admitted(no_names(), a, Set::empty()), b, Set::empty());
    let x = first_seen(a);
    let y = first_seen(a + b);
    assert forall|name: Seq<char>| #[trigger] a.contains(name) implies position(y, name)
        == position(x, name) by {
        assert(x.contains(name));
        let k = choose|k: int| 0 <= k < x.len() && x[k] == name;
        lemma_position(x, name);
        lemma_position(y, name);
        let p = position(x, name);
        assert(x[p] == y[p]);
        let q = position(y, name);
        assert(q <= p);
        assert(x[q] == y[q]);
    }
}

/// The names of several lists, list after list.
pub open spec fn concat(lists: Seq<Seq<Seq<char>>>) -> Seq<Seq<char>>
    decreases lists.len(),
{
    if lists.len() == 0 {
        Seq::empty()
    } else {
        concat(lists.drop_last()) + lists.last()
    }
}

/// The contents of several lists.
pub open spec fn contents(lists: Seq<&Vec<String>>) -> Seq<Seq<Seq<char>>> {
    Seq::new(lists.len(), |k: int| views(lists[k]@))
}

proof fn lemma_concat_prefix(lists: Seq<Seq<Seq<char>>>, k: int)
    requires
        0 <= k <= lists.len(),
    ensures
        concat(lists.take(k)).is_prefix_of(concat(lists)),
        k < lists.len() ==> concat(lists.take(k + 1)) == concat(lists.take(k)) + lists[k],
    decreases lists.len(),
{
    if k < lists.len() {
        assert(lists.take(k + 1).drop_last() =~= lists.take(k));
        lemma_concat_prefix(lists.drop_last(), k);
        assert(lists.drop_last().take(k) =~= lists.take(k));
    } else {
        assert(lists.take(k) =~= lists);
    }
}

/// What the next name does to the names that are first seen, and to its own new name.
pub proof fn lemma_next(done: Seq<Seq<char>>, name: Seq<char>, all: Seq<Seq<char>>)
    requires
        done.push(name).is_prefix_of(all),
    ensures
        first_seen(done.push(name)) == if done.contains(name) {
            first_seen(done)
        } else {
            first_seen(done).push(name)
        },
        first_seen(done.push(name)).len() <= first_seen(all).len(),
        !done.contains(name) ==> position(first_seen(all), name) == first_seen(done).len(),
        forall|other: Seq<char>| #[trigger]
            done.push(name).contains(other) <==> done.contains(other) || other == name,
{
    let more = done.push(name);
    lemma_first_seen(done);
    assert(more.drop_last() =~= done);
    assert(all =~= more + all.skip(more.len() as int));
    lemma_first_seen_grows(more, all.skip(more.len() as int));
    assert(more[done.len() as int] == name);
    assert(more.contains(name));
    assert forall|other: Seq<char>| #[trigger] more.contains(other) <==> done.contains(other)
        || other == name by {
        if done.contains(other) {
            let k = choose|k: int| 0 <= k < done.len() && done[k] == other;
            assert(more[k] == other);
        }
        if more.contains(other) {
            let k = choose|k: int| 0 <= k < more.len() && more[k] == other;
            if k < done.len() {
                assert(done[k] == other);
            }
        }
    }
    let list = admitted(no_names(), done, Set::empty());
    assert(list.seen.contains(name) <==> done.contains(name)) by {
        assert(list.names.contains(name) <==> done.contains(name));
    }
    if !done.contains(name) {
        let seen = first_seen(more);
        assert(seen[first_seen(done).len() as int] == name);
        lemma_position(seen, name);
        lemma_first_seen(more);
        assert(!first_seen(done).contains(name));
        if position(seen, name) < first_seen(done).len() {
            assert(first_seen(done)[position(seen, name)] == name);
        }
    }
}

/// Gives the names of several lists new names from a supply. A name that stands in more than one
/// list, or more than once, gets the same new name everywhere.
pub fn assign_names(lists: &[&Vec<String>], supply: &Vec<String>) -> (r: Vec<Vec<String>>)
    requires
        first_seen(concat(contents(lists@))).len() <= supply@.len(),
    ensures
        r@.len() == lists@.len(),
        forall|k: int|
            0 <= k < r@.len() ==> views(#[trigger] r@[k]@) == replacements(
                concat(contents(lists@)),
                views(supply@),
                views(lists@[k]@),
            ),
{
    let ghost names = contents(lists@);
    let ghost all = concat(names);
    let ghost given = views(supply@);
    let mut master: NameMap = StringHashMap::new();
    let mut next: usize = 0;
    let mut r: Vec<Vec<String>> = Vec::new();
    let mut k: usize = 0;
    proof {
        assert(names.take(0) =~= Seq::empty());
        assert(first_seen(Seq::<Seq<char>>::empty()) =~= Seq::empty());
    }
    while k < lists.len()
        invariant
            names == contents(lists@),
            all == concat(names),
            given == views(supply@),
            first_seen(all).len() <= supply@.len(),
            k <= lists.len(),
            r.len() == k,
            forall|j: int|
                0 <= j < k ==> views(#[trigger] r@[j]@) == replacements(all, given, names[j]),
            next == first_seen(concat(names.take(k as int))).len(),
            forall|name: Seq<char>| #[trigger]
                master@.contains_key(name) <==> concat(names.take(k as int)).contains(name),
            forall|name: Seq<char>| #[trigger]
                master@.contains_key(name) ==> master@[name]@ == replacement(all, given, name),
        decreases lists.len() - k,
    {
        let list: &Vec<String> = lists[k];
        let ghost before = concat(names.take(k as int));
        let ghost here = names[k as int];
        let mut news: Vec<String> = Vec::new();
        let mut i: usize = 0;
        proof {
            lemma_concat_prefix(names, k as int);
            lemma_concat_prefix(names, k + 1);
            assert(here.take(0) =~= Seq::empty());
            assert(before + here.take(0) =~= before);
        }
        while i < list.len()
            invariant
                given == views(supply@),
                first_seen(all).len() <= supply@.len(),
                here == views(list@),
                (before + here).is_prefix_of(all),
                i <= list.len(),
                news.len() == i,
                forall|j: int|
                    0 <= j < i ==> (#[trigger] news@[j])@ == replacement(all, given, here[j]),
                next == first_seen(before + here.take(i as int)).len(),
                forall|name: Seq<char>| #[trigger]
                    master@.contains_key(name) <==> (before + here.take(i as int)).contains(name),
                forall|name: Seq<char>| #[trigger]
                    master@.contains_key(name) ==> master@[name]@ == replacement(all, given, name),
            decreases list.len() - i,
        {
            let name: &String = &list[i];
            let ghost done = before + here.take(i as int);
            proof {
                assert(done.push(name@) =~= before + here.take(i + 1));
                assert(done.push(name@).is_prefix_of(all)) by {
                    assert(forall|j: int|
                        0 <= j < done.push(name@).len() ==> #[trigger] done.push(name@)[j] == (
                        before + here)[j]);
                }
                lemma_next(done, name@, all);
            }
            let known: Option<String> = match master.get(name.as_str()) {
                Some(new) => Some(new.clone()),
                None => None,
            };
            match known {
                Some(new) => {
                    news.push(new);
                },
                None => {
                    let new: String = supply[next].clone();
                    assert(new@ == given[next as int] && next < supply.len());
                    master.insert(name.clone(), new.clone());
                    news.push(new);
                    next += 1;
                },
            }
            i += 1;
        }
        proof {
            assert(here.take(i as int) =~= here);
            assert(views(news@) =~= replacements(all, given, here));
        }
        r.push(news);
        k += 1;
    }
    proof {
        assert(names.take(k as int) =~= names);
    }
    r
}

/// Draws as many UUIDs as there are different names in the lists, each by itself.
pub fn draw_supply(source: &mut UuidSource, lists: &[&Vec<String>]) -> (r: Vec<String>)
    ensures
        r@.len() == first_seen(concat(contents(lists@))).len(),
        all_uuids(views(r@)),
        final(source).drawn() == old(source).drawn() + views(r@),
{
    let ghost names = contents(lists@);
    let ghost all = concat(names);
    let mut known = StringHashSet::new();
    let mut r: Vec<String> = Vec::new();
    let mut k: usize = 0;
    proof {
        assert(views(r@) =~= Seq::<Seq<char>>::empty());
        assert(source.drawn() + views(r@) =~= source.drawn());
        assert(names.take(0) =~= Seq::empty());
        assert(first_seen(Seq::<Seq<char>>::empty()) =~= Seq::empty());
    }
    while k < lists.len()
        invariant
            names == contents(lists@),
            all == concat(names),
            k <= lists.len(),
            r.len() == first_seen(concat(names.take(k as int))).len(),
            all_uuids(views(r@)),
            source.drawn() == old(source).drawn() + views(r@),
            forall|name: Seq<char>| #[trigger]
                known@.contains(name) <==> concat(names.take(k as int)).contains(name),
        decreases lists.len() - k,
    {
        let list: &Vec<String> = lists[k];
        let ghost before = concat(names.take(k as int));
        let ghost here = names[k as int];
        let mut i: usize = 0;
        proof {
            lemma_concat_prefix(names, k as int);
            lemma_concat_prefix(names, k + 1);
            assert(here.take(0) =~= Seq::empty());
            assert(before + here.take(0) =~= before);
        }
        while i < list.len()
            invariant
                here == views(list@),
                (before + here).is_prefix_of(all),
                i <= list.len(),
                r.len() == first_seen(before + here.take(i as int)).len(),
                all_uuids(views(r@)),
                source.drawn() == old(source).drawn() + views(r@),
                forall|name: Seq<char>| #[trigger]
                    known@.contains(name) <==> (before + here.take(i as int)).contains(name),
            decreases list.len() - i,
        {
            let name: &String = &list[i];
            let ghost done = before + here.take(i as int);
            proof {
                assert(done.push(name@) =~= before + here.take(i + 1));
                assert(done.push(name@).is_prefix_of(all)) by {
                    assert(forall|j: int|
                        0 <= j < done.push(name@).len() ==> #[trigger] done.push(name@)[j] == (
                        before + here)[j]);
                }
                lemma_next(done, name@, all);
            }
            if known.insert(name.clone()) {
                draw_into(source, &mut r);
                assert(source.drawn() =~= old(source).drawn() + views(r@));
            }
            i += 1;
        }
        assert(here.take(i as int) =~= here);
        k += 1;
    }
    assert(names.take(k as int) =~= names);
    r
}

/// Draws a UUID and puts it at the end of a list.
fn draw_into(source: &mut UuidSource, list: &mut Vec<String>)
    requires
        all_uuids(views(old(list)@)),
    ensures
        final(list)@.len() == old(list)@.len() + 1,
        all_uuids(views(final(list)@)),
        exists|uuid: Seq<char>|
            {
                &&& views(final(list)@) == views(old(list)@).push(uuid)
                &&& final(source).drawn() == #[trigger] old(source).drawn().push(uuid)
            },
{
    let uuid = source.unique_uuid();
    let ghost text = uuid@;
    list.push(uuid);
    assert(views(list@) =~= views(old(list)@).push(text));
    assert(source.drawn() == old(source).drawn().push(text));
}

/// Draws `n` UUIDs, each by itself.
pub fn draw_uuids(source: &mut UuidSource, n: usize) -> (r: Vec<String>)
    ensures
        r@.len() == n,
        all_uuids(views(r@)),
        final(source).drawn() == old(source).drawn() + views(r@),
{
    let mut r: Vec<String> = Vec::new();
    assert(views(r@) =~= Seq::<Seq<char>>::empty());
    assert(source.drawn() + views(r@) =~= source.drawn());
    while r.len() < n
        invariant
            r.len() <= n,
            all_uuids(views(r@)),
            source.drawn() == old(source).drawn() + views(r@),
        decreases n - r.len(),
    {
        draw_into(source, &mut r);
        assert(source.drawn() =~= old(source).drawn() + views(r@));
    }
    r
}

} // verus!
