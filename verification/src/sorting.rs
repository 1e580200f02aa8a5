//! Stable sorting, and the order of lists by their first difference.
use vstd::prelude::*;

verus! {

/// `lt` orders its items: of two items that differ, one comes before the other.
pub open spec fn total_order<A>(lt: spec_fn(A, A) -> bool) -> bool {
    &&& forall|a: A| !#[trigger] lt(a, a)
    &&& forall|a: A, b: A, c: A| #[trigger] lt(a, b) && #[trigger] lt(b, c) ==> lt(a, c)
    &&& forall|a: A, b: A| a == b || #[trigger] lt(a, b) || lt(b, a)
}

/// `lt` orders its items up to some that come neither before nor after each other.
pub open spec fn weak_order<A>(lt: spec_fn(A, A) -> bool) -> bool {
    &&& forall|a: A, b: A| #[trigger] lt(a, b) ==> !lt(b, a)
    &&& forall|a: A, b: A, c: A| #[trigger] lt(a, c) ==> #[trigger] lt(a, b) || lt(b, c)
}

/// The items of which `lt` tells none apart from `item`.
pub open spec fn like<A>(lt: spec_fn(A, A) -> bool, item: A) -> spec_fn(A) -> bool {
    |other: A| !lt(item, other) && !lt(other, item)
}

/// `new` holds the items of `old` in the order of `lt`; items that `lt` does not tell apart stand
/// in the order in which they stood.
pub open spec fn stable_sorted<A>(old: Seq<A>, new: Seq<A>, lt: spec_fn(A, A) -> bool) -> bool {
    &&& new.len() == old.len()
    &&& forall|i: int, j: int|
        0 <= i < j < new.len() ==> !#[trigger] lt(#[trigger] new[j], #[trigger] new[i])
    &&& forall|item: A| new.filter(#[trigger] like(lt, item)) == old.filter(like(lt, item))
}

/// The list of `x` comes before that of `y`: at the first place where they differ it holds the
/// item that comes before, or it is at its end.
pub open spec fn lex_lt<A>(x: Seq<A>, y: Seq<A>, lt: spec_fn(A, A) -> bool) -> bool
    decreases x.len(),
{
    if y.len() == 0 {
        false
    } else if x.len() == 0 {
        true
    } else if x[0] == y[0] {
        lex_lt(x.drop_first(), y.drop_first(), lt)
    } else {
        lt(x[0], y[0])
    }
}

proof fn lemma_lex_irreflexive<A>(x: Seq<A>, lt: spec_fn(A, A) -> bool)
    ensures
        !lex_lt(x, x, lt),
    decreases x.len(),
{
    if x.len() > 0 {
        lemma_lex_irreflexive(x.drop_first(), lt);
    }
}

proof fn lemma_lex_transitive<A>(x: Seq<A>, y: Seq<A>, z: Seq<A>, lt: spec_fn(A, A) -> bool)
    requires
        total_order(lt),
        lex_lt(x, y, lt),
        lex_lt(y, z, lt),
    ensures
        lex_lt(x, z, lt),
    decreases x.len(),
{
    if x.len() > 0 && y.len() > 0 && z.len() > 0 {
        if x[0] == y[0] && y[0] == z[0] {
            lemma_lex_transitive(x.drop_first(), y.drop_first(), z.drop_first(), lt);
        } else if x[0] == z[0] {
            assert(lt(x[0], y[0]) && lt(y[0], z[0]));
        }
    }
}

proof fn lemma_lex_total<A>(x: Seq<A>, y: Seq<A>, lt: spec_fn(A, A) -> bool)
    requires
        total_order(lt),
    ensures
        x == y || lex_lt(x, y, lt) || lex_lt(y, x, lt),
    decreases x.len(),
{
    if x.len() == 0 || y.len() == 0 {
        if x.len() == y.len() {
            assert(x =~= y);
        }
    } else if x[0] == y[0] {
        lemma_lex_total(x.drop_first(), y.drop_first(), lt);
        if x.drop_first() == y.drop_first() {
            assert(x =~= seq![x[0]] + x.drop_first());
            assert(y =~= seq![y[0]] + y.drop_first());
        }
    } else {
        assert(lt(x[0], y[0]) || lt(y[0], x[0]));
    }
}

/// Lists are ordered where their items are.
pub proof fn lemma_lex_order<A>(lt: spec_fn(A, A) -> bool)
    requires
        total_order(lt),
    ensures
        total_order(|x: Seq<A>, y: Seq<A>| lex_lt(x, y, lt)),
{
    let lex = |x: Seq<A>, y: Seq<A>| lex_lt(x, y, lt);
    assert forall|x: Seq<A>| !#[trigger] lex(x, x) by {
        lemma_lex_irreflexive(x, lt);
    }
    assert forall|x: Seq<A>, y: Seq<A>, z: Seq<A>| #[trigger]
        lex(x, y) && #[trigger] lex(y, z) implies lex(x, z) by {
        lemma_lex_transitive(x, y, z, lt);
    }
    assert forall|x: Seq<A>, y: Seq<A>| x == y || #[trigger] lex(x, y) || lex(y, x) by {
        lemma_lex_total(x, y, lt);
    }
}

/// An item that goes behind all that do not come after it leaves a list stably sorted.
pub proof fn lemma_insert<A>(
    old: Seq<A>,
    sorted: Seq<A>,
    item: A,
    at: int,
    lt: spec_fn(A, A) -> bool,
)
    requires
        weak_order(lt),
        stable_sorted(old, sorted, lt),
        0 <= at <= sorted.len(),
        at > 0 ==> !lt(item, sorted[at - 1]),
        at < sorted.len() ==> lt(item, sorted[at]),
    ensures
        stable_sorted(old.push(item), sorted.insert(at, item), lt),
{
    let new = sorted.insert(at, item);
    let low = sorted.take(at);
    let high = sorted.skip(at);
    assert(sorted =~= low + high);
    assert(new =~= low + seq![item] + high);
    assert forall|j: int| at <= j < sorted.len() implies lt(item, #[trigger] sorted[j]) by {
        if j > at {
            assert(!lt(sorted[j], sorted[at]));
            assert(lt(item, sorted[at]) ==> lt(item, sorted[j]) || lt(sorted[j], sorted[at]));
        }
    }
    assert forall|j: int| 0 <= j < at implies !lt(item, #[trigger] sorted[j]) by {
        if j < at - 1 {
            assert(!lt(sorted[at - 1], sorted[j]));
            assert(lt(item, sorted[j]) ==> lt(item, sorted[at - 1]) || lt(
                sorted[at - 1],
                sorted[j],
            ));
        }
    }
    assert forall|i: int, j: int| 0 <= i < j < new.len() implies !#[trigger] lt(
        #[trigger] new[j],
        #[trigger] new[i],
    ) by {
        if i == at {
            assert(new[j] == sorted[j - 1]);
            assert(lt(item, sorted[j - 1]));
        } else if j == at {
            assert(new[i] == sorted[i]);
        } else {
            let p = if i < at { i } else { i - 1 };
            let q = if j < at { j } else { j - 1 };
            assert(new[i] == sorted[p] && new[j] == sorted[q]);
            assert(!lt(sorted[q], sorted[p]));
        }
    }
    assert forall|other: A|
        new.filter(#[trigger] like(lt, other)) == old.push(item).filter(like(lt, other)) by {
        let pred = like(lt, other);
        Seq::filter_distributes_over_add(low, high, pred);
        Seq::filter_distributes_over_add(low + seq![item], high, pred);
        Seq::filter_distributes_over_add(low, seq![item], pred);
        Seq::filter_distributes_over_add(old, seq![item], pred);
        assert(old.push(item) =~= old + seq![item]);
        if pred(item) {
            assert forall|j: int| 0 <= j < high.len() implies !pred(#[trigger] high[j]) by {
                assert(high[j] == sorted[at + j]);
                assert(lt(item, high[j]) ==> lt(item, other) || lt(other, high[j]));
            }
            lemma_filter_none(high, pred);
            assert(low.filter(pred) + seq![item].filter(pred) + Seq::empty() =~= low.filter(pred)
                + Seq::empty() + seq![item].filter(pred));
        } else {
            lemma_filter_none(seq![item], pred);
            assert(low.filter(pred) + Seq::empty() + high.filter(pred) =~= low.filter(pred)
                + high.filter(pred) + Seq::empty());
        }
    }
}

/// A list holds an item that passes where what passes is not nothing.
proof fn lemma_filter_some<A>(list: Seq<A>, pred: spec_fn(A) -> bool)
    requires
        list.filter(pred).len() > 0,
    ensures
        exists|i: int| 0 <= i < list.len() && pred(#[trigger] list[i]),
    decreases list.len(),
{
    reveal(Seq::filter);
    if list.len() > 0 {
        let front = list.drop_last();
        if pred(list.last()) {
            assert(pred(list[list.len() - 1]));
        } else {
            lemma_filter_some(front, pred);
            let i = choose|i: int| 0 <= i < front.len() && pred(#[trigger] front[i]);
            assert(pred(list[i]));
        }
    }
}

/// A list can be stably sorted in one way only: lists that are, with the same items, are the same.
pub proof fn law_stable_sort_is_unique<A>(
    old: Seq<A>,
    x: Seq<A>,
    y: Seq<A>,
    lt: spec_fn(A, A) -> bool,
)
    requires
        weak_order(lt),
        stable_sorted(old, x, lt),
        stable_sorted(old, y, lt),
    ensures
        x == y,
{
    assert forall|item: A| x.filter(#[trigger] like(lt, item)) == y.filter(like(lt, item)) by {
        assert(x.filter(like(lt, item)) == old.filter(like(lt, item)));
    }
    lemma_sorted_alike(x, y, lt);
}

proof fn lemma_sorted_alike<A>(x: Seq<A>, y: Seq<A>, lt: spec_fn(A, A) -> bool)
    requires
        weak_order(lt),
        x.len() == y.len(),
        forall|i: int, j: int|
            0 <= i < j < x.len() ==> !#[trigger] lt(#[trigger] x[j], #[trigger] x[i]),
        forall|i: int, j: int|
            0 <= i < j < y.len() ==> !#[trigger] lt(#[trigger] y[j], #[trigger] y[i]),
        forall|item: A| x.filter(#[trigger] like(lt, item)) == y.filter(like(lt, item)),
    ensures
        x == y,
    decreases x.len(),
{
    reveal(Seq::filter);
    if x.len() == 0 {
        assert(x =~= y);
    } else {
        let a = x.last();
        let b = y.last();
        let n = x.len() - 1;
        assert(like(lt, a)(a) && like(lt, b)(b));
        assert(x.filter(like(lt, a)) == y.filter(like(lt, a)));
        assert(x.filter(like(lt, b)) == y.filter(like(lt, b)));
        lemma_filter_some(y, like(lt, a));
        lemma_filter_some(x, like(lt, b));
        let k = choose|k: int| 0 <= k < y.len() && like(lt, a)(#[trigger] y[k]);
        let m = choose|m: int| 0 <= m < x.len() && like(lt, b)(#[trigger] x[m]);
        assert(!lt(b, y[k])) by {
            if k < n {
                assert(!lt(y[n], y[k]));
            }
        }
        assert(!lt(a, x[m])) by {
            if m < n {
                assert(!lt(x[n], x[m]));
            }
        }
        assert(lt(b, a) ==> lt(b, y[k]) || lt(y[k], a));
        assert(lt(a, b) ==> lt(a, x[m]) || lt(x[m], b));
        assert(like(lt, a)(b));
        assert(x.filter(like(lt, a)).last() == a);
        assert(y.filter(like(lt, a)).last() == b);
        let front = x.drop_last();
        let other = y.drop_last();
        assert forall|i: int, j: int| 0 <= i < j < front.len() implies !#[trigger] lt(
            #[trigger] front[j],
            #[trigger] front[i],
        ) by {
            assert(!lt(x[j], x[i]));
        }
        assert forall|i: int, j: int| 0 <= i < j < other.len() implies !#[trigger] lt(
            #[trigger] other[j],
            #[trigger] other[i],
        ) by {
            assert(!lt(y[j], y[i]));
        }
        assert forall|item: A|
            front.filter(#[trigger] like(lt, item)) == other.filter(like(lt, item)) by {
            let pred = like(lt, item);
            assert(x.filter(pred) == y.filter(pred));
            if pred(a) {
                assert(front.filter(pred) =~= x.filter(pred).drop_last());
                assert(other.filter(pred) =~= y.filter(pred).drop_last());
            }
        }
        lemma_sorted_alike(front, other, lt);
        assert(x =~= front.push(a));
        assert(y =~= other.push(b));
    }
}

/// Nothing passes where no item does.
pub proof fn lemma_filter_none<A>(list: Seq<A>, pred: spec_fn(A) -> bool)
    requires
        forall|i: int| 0 <= i < list.len() ==> !pred(#[trigger] list[i]),
    ensures
        list.filter(pred) == Seq::<A>::empty(),
    decreases list.len(),
{
    reveal(Seq::filter);
    if list.len() > 0 {
        let front = list.drop_last();
        assert forall|i: int| 0 <= i < front.len() implies !pred(#[trigger] front[i]) by {
            assert(front[i] == list[i]);
        }
        lemma_filter_none(front, pred);
        assert(!pred(list[list.len() - 1]));
    } else {
        assert(list =~= Seq::empty());
    }
}

/// `order` tells where the items of `new` stood in `old`: each place of `old` once, and of places
/// whose items `lt` does not tell apart the first first.
spec fn is_order<A>(
    old: Seq<A>,
    new: Seq<A>,
    order: Seq<int>,
    lt: spec_fn(A, A) -> bool,
) -> bool {
    &&& order.len() == new.len() == old.len()
    &&& forall|k: int| 0 <= k < new.len() ==> 0 <= #[trigger] order[k] < old.len() && new[k]
        == old[order[k]]
    &&& forall|k: int, m: int|
        0 <= k < m < new.len() ==> #[trigger] order[k] != #[trigger] order[m] && (order[k]
            > order[m] ==> lt(old[order[k]], old[order[m]]))
    &&& forall|i: int| 0 <= i < old.len() ==> #[trigger] order.contains(i)
}

/// A list that was stably sorted holds the items of the list before, each place once. No item comes
/// before one that it has to follow, and of items that are not told apart the first stays first.
pub proof fn law_stable_sort_permutes<A>(old: Seq<A>, new: Seq<A>, lt: spec_fn(A, A) -> bool)
    requires
        weak_order(lt),
        stable_sorted(old, new, lt),
    ensures
        exists|order: Seq<int>|
            {
                &&& #[trigger] order.len() == new.len()
                &&& new.len() == old.len()
                &&& forall|k: int|
                    0 <= k < new.len() ==> 0 <= #[trigger] order[k] < old.len() && new[k]
                        == old[order[k]]
                &&& forall|k: int, m: int|
                    0 <= k < m < new.len() ==> #[trigger] order[k] != #[trigger] order[m] && !lt(
                        old[order[m]],
                        old[order[k]],
                    ) && (order[k] > order[m] ==> lt(old[order[k]], old[order[m]]))
                &&& forall|i: int| 0 <= i < old.len() ==> #[trigger] order.contains(i)
            },
{
    let (sorted, order) = lemma_sort(old, lt);
    law_stable_sort_is_unique(old, new, sorted, lt);
    assert forall|k: int, m: int| 0 <= k < m < new.len() implies #[trigger] order[k]
        != #[trigger] order[m] && !lt(old[order[m]], old[order[k]]) && (order[k] > order[m] ==> lt(
        old[order[k]],
        old[order[m]],
    )) by {
        assert(!lt(new[m], new[k]));
    }
    assert(order.len() == new.len());
}

/// Every list can be stably sorted.
proof fn lemma_sort<A>(old: Seq<A>, lt: spec_fn(A, A) -> bool) -> (r: (Seq<A>, Seq<int>))
    requires
        weak_order(lt),
    ensures
        stable_sorted(old, r.0, lt),
        is_order(old, r.0, r.1, lt),
    decreases old.len(),
{
    if old.len() == 0 {
        assert(old =~= Seq::empty());
        (Seq::empty(), Seq::empty())
    } else {
        let front = old.drop_last();
        let item = old.last();
        let (sorted, order) = lemma_sort(front, lt);
        let at = lemma_place(sorted, item, lt);
        lemma_insert(front, sorted, item, at, lt);
        assert(front.push(item) =~= old);
        let n = front.len() as int;
        let new = sorted.insert(at, item);
        let places = order.insert(at, n);
        assert forall|k: int| 0 <= k < new.len() implies 0 <= #[trigger] places[k] < old.len()
            && new[k] == old[places[k]] by {
            if k < at {
                assert(places[k] == order[k]);
            } else if k > at {
                assert(places[k] == order[k - 1]);
            }
        }
        assert forall|k: int, m: int| 0 <= k < m < new.len() implies #[trigger] places[k]
            != #[trigger] places[m] && (places[k] > places[m] ==> lt(
            old[places[k]],
            old[places[m]],
        )) by {
            let p = if k < at { k } else { k - 1 };
            let q = if m < at { m } else { m - 1 };
            if k == at {
                assert(places[m] == order[q]);
                assert(new[m] == sorted[q]);
                assert(lt(item, sorted[q]));
            } else if m == at {
                assert(places[k] == order[p]);
            } else {
                assert(places[k] == order[p] && places[m] == order[q]);
            }
        }
        assert forall|i: int| 0 <= i < old.len() implies #[trigger] places.contains(i) by {
            if i < n {
                assert(order.contains(i));
                let k = choose|k: int| 0 <= k < order.len() && order[k] == i;
                if k < at {
                    assert(places[k] == i);
                } else {
                    assert(places[k + 1] == i);
                }
            } else {
                assert(places[at] == i);
            }
        }
        (new, places)
    }
}

/// Where an item goes.
proof fn lemma_place<A>(sorted: Seq<A>, item: A, lt: spec_fn(A, A) -> bool) -> (at: int)
    requires
        weak_order(lt),
        forall|i: int, j: int|
            0 <= i < j < sorted.len() ==> !#[trigger] lt(
                #[trigger] sorted[j],
                #[trigger] sorted[i],
            ),
    ensures
        0 <= at <= sorted.len(),
        at > 0 ==> !lt(item, sorted[at - 1]),
        forall|j: int| at <= j < sorted.len() ==> lt(item, #[trigger] sorted[j]),
    decreases sorted.len(),
{
    if sorted.len() == 0 || !lt(item, sorted.last()) {
        sorted.len() as int
    } else {
        let front = sorted.drop_last();
        assert forall|i: int, j: int| 0 <= i < j < front.len() implies !#[trigger] lt(
            #[trigger] front[j],
            #[trigger] front[i],
        ) by {
            assert(!lt(sorted[j], sorted[i]));
        }
        let at = lemma_place(front, item, lt);
        assert forall|j: int| at <= j < sorted.len() implies lt(item, #[trigger] sorted[j]) by {
            if j < front.len() {
                assert(sorted[j] == front[j]);
            }
        }
        at
    }
}

} // verus!
