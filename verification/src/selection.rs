//! Lists that are picked from others by the places of their items.
use vstd::prelude::*;

verus! {

/// The next place is picked or not.
pub proof fn lemma_pick_step<B>(n: nat, pred: spec_fn(int) -> bool, f: spec_fn(int) -> B)
    ensures
        Seq::new(n + 1, |i: int| i).filter(pred).map_values(f) == if pred(n as int) {
            Seq::new(n, |i: int| i).filter(pred).map_values(f).push(f(n as int))
        } else {
            Seq::new(n, |i: int| i).filter(pred).map_values(f)
        },
{
    reveal(Seq::filter);
    let all = Seq::new(n + 1, |i: int| i);
    let front = Seq::new(n, |i: int| i);
    assert(all.drop_last() =~= front);
    assert(all.last() == n);
    assert(all.filter(pred).map_values(f) =~= if pred(n as int) {
        front.filter(pred).map_values(f).push(f(n as int))
    } else {
        front.filter(pred).map_values(f)
    });
}

/// What is picked depends only on the places that there are.
pub proof fn lemma_pick_same<B>(
    n: nat,
    p: spec_fn(int) -> bool,
    f: spec_fn(int) -> B,
    q: spec_fn(int) -> bool,
    g: spec_fn(int) -> B,
)
    requires
        forall|i: int| 0 <= i < n ==> #[trigger] p(i) == q(i) && f(i) == g(i),
    ensures
        Seq::new(n, |i: int| i).filter(p).map_values(f) == Seq::new(n, |i: int| i).filter(
            q,
        ).map_values(g),
    decreases n,
{
    if n > 0 {
        let m = (n - 1) as nat;
        lemma_pick_same(m, p, f, q, g);
        lemma_pick_step(m, p, f);
        lemma_pick_step(m, q, g);
        assert(p(m as int) == q(m as int));
    } else {
        lemma_pick_none(p, f);
        lemma_pick_none(q, g);
    }
}

/// Of no places none is picked.
pub proof fn lemma_pick_none<B>(pred: spec_fn(int) -> bool, f: spec_fn(int) -> B)
    ensures
        Seq::new(0, |i: int| i).filter(pred).map_values(f) == Seq::<B>::empty(),
{
    reveal(Seq::filter);
    assert(Seq::new(0, |i: int| i).filter(pred).map_values(f) =~= Seq::<B>::empty());
}

} // verus!
