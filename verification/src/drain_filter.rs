//! Removing the elements of a vector that match a predicate, one at a time.
use vstd::prelude::*;
use vstd::multiset::Multiset;

verus! {

broadcast use {vstd::seq_lib::group_to_multiset_ensures, vstd::multiset::group_multiset_axioms};

/// Walks a vector from the front and takes out each element the predicate accepts,
/// moving the last element into its place.
pub struct DrainFilter<'a, T, F> where F: Fn(&T) -> bool {
    vec: &'a mut Vec<T>,
    pred: F,
    index: usize,
}

impl<'a, T, F> DrainFilter<'a, T, F> where F: Fn(&T) -> bool {
    /// The vector being drained.
    pub closed spec fn remaining(&self) -> Seq<T> {
        self.vec@
    }

    /// The position from which the walk goes on: every element before it was refused.
    pub closed spec fn position(&self) -> usize {
        self.index
    }

    /// The predicate.
    pub closed spec fn predicate(&self) -> F {
        self.pred
    }

    /// Starts draining `vec` from its front.
    pub fn new(vec: &'a mut Vec<T>, pred: F) -> (r: Self)
        ensures
            r.remaining() == old(vec)@,
            r.position() == 0,
            r.predicate() == pred,
    {
        Self { vec, pred, index: 0 }
    }

    /// The next element from the current position on that the predicate accepts, taken
    /// out of the vector (the last element takes its place); `None` when there is none
    /// left.
    pub fn next(&mut self) -> (r: Option<T>)
        requires
            forall|x: &T| #[trigger] old(self).predicate().requires((x,)),
        ensures
            final(self).predicate() == old(self).predicate(),
            old(self).position() <= final(self).position(),
            forall|i: int|
                old(self).position() <= i < final(self).position() ==> old(self).predicate().ensures(
                    (&#[trigger] old(self).remaining()[i],),
                    false,
                ),
            r is None ==> final(self).remaining() == old(self).remaining() && final(self).position()
                >= old(self).remaining().len(),
            r matches Some(x) ==> {
                let i = final(self).position() as int;
                &&& i < old(self).remaining().len()
                &&& x == old(self).remaining()[i]
                &&& old(self).predicate().ensures((&x,), true)
                &&& final(self).remaining() == old(self).remaining().update(
                    i,
                    old(self).remaining().last(),
                ).drop_last()
                &&& final(self).remaining().to_multiset().insert(x) == old(
                    self,
                ).remaining().to_multiset()
            },
    {
        let ghost start = self.index;
        assert forall|x: &T| #[trigger] self.pred.requires((x,)) by {
            assert(old(self).predicate().requires((x,)));
        }
        while self.index < self.vec.len()
            invariant
                forall|x: &T| #[trigger] self.pred.requires((x,)),
                self.vec@ == old(self).vec@,
                self.pred == old(self).pred,
                start == old(self).index,
                start <= self.index,
                forall|i: int|
                    start <= i < self.index ==> self.pred.ensures((&#[trigger] self.vec@[i],), false),
            decreases self.vec@.len() - self.index,
        {
            let keep = (self.pred)(&self.vec[self.index]);
            if keep {
                let ghost s = self.vec@;
                let x = self.vec.swap_remove(self.index);
                proof {
                    lemma_swap_remove_multiset(s, self.index as int);
                }
                return Some(x);
            } else {
                self.index = self.index + 1;
            }
        }
        None
    }
}

/// Taking element `i` out by moving the last one into its place keeps every other element.
proof fn lemma_swap_remove_multiset<T>(s: Seq<T>, i: int)
    requires
        0 <= i < s.len(),
    ensures
        s.update(i, s.last()).drop_last().to_multiset().insert(s[i]) == s.to_multiset(),
{
    let t = s.update(i, s.last());
    assert(t == t.drop_last().push(t.last()));
    assert(t.last() == s.last());
    assert(t.to_multiset() == s.to_multiset().insert(s.last()).remove(s[i]));
    assert(t.drop_last().push(s.last()).to_multiset() == t.drop_last().to_multiset().insert(
        s.last(),
    ));
    assert(s.to_multiset().count(s[i]) > 0);
    let d = t.drop_last().to_multiset();
    assert forall|v: T| #[trigger] d.insert(s[i]).count(v) == s.to_multiset().count(v) by {
        assert(d.insert(s.last()).count(v) == s.to_multiset().insert(s.last()).remove(s[i]).count(v));
    }
    assert(d.insert(s[i]) =~= s.to_multiset());
}

/// One call of `next`, as its contract describes it: `taken` is what it returned.
pub open spec fn drained<'a, T, F: Fn(&T) -> bool>(
    before: DrainFilter<'a, T, F>,
    after: DrainFilter<'a, T, F>,
    taken: Option<T>,
) -> bool {
    &&& after.predicate() == before.predicate()
    &&& before.position() <= after.position()
    &&& forall|i: int|
        before.position() <= i < after.position() ==> before.predicate().ensures(
            (&#[trigger] before.remaining()[i],),
            false,
        )
    &&& taken is None ==> after.remaining() == before.remaining() && after.position()
        >= before.remaining().len()
    &&& taken matches Some(x) ==> {
        let i = after.position() as int;
        &&& i < before.remaining().len()
        &&& x == before.remaining()[i]
        &&& before.predicate().ensures((&x,), true)
        &&& after.remaining() == before.remaining().update(i, before.remaining().last()).drop_last()
        &&& after.remaining().to_multiset().insert(x) == before.remaining().to_multiset()
    }
}

/// What holds after `k` calls of `next` that each took an element, from a fresh drain.
proof fn lemma_drain_prefix<'a, T, F: Fn(&T) -> bool>(
    states: Seq<DrainFilter<'a, T, F>>,
    taken: Seq<T>,
    k: int,
)
    requires
        states.len() == taken.len() + 2,
        states[0].position() == 0,
        forall|j: int| 0 <= j < taken.len() ==> drained(#[trigger] states[j], states[j + 1], Some(taken[j])),
        0 <= k <= taken.len(),
    ensures
        states[k].predicate() == states[0].predicate(),
        forall|i: int|
            0 <= i < states[k].position() && i < states[k].remaining().len()
                ==> states[0].predicate().ensures((&#[trigger] states[k].remaining()[i],), false),
        states[k].remaining().to_multiset().add(taken.take(k).to_multiset())
            == states[0].remaining().to_multiset(),
        forall|j: int| 0 <= j < k ==> states[0].predicate().ensures((&#[trigger] taken[j],), true),
    decreases k,
{
    if k == 0 {
        assert(taken.take(0).to_multiset() =~= Multiset::<T>::empty());
        assert(states[0].remaining().to_multiset().add(Multiset::<T>::empty()) =~= states[0].remaining().to_multiset());
    } else {
        lemma_drain_prefix(states, taken, k - 1);
        let before = states[k - 1];
        let after = states[k];
        let x = taken[k - 1];
        assert(drained(before, after, Some(x)));
        let i = after.position() as int;
        assert forall|j: int|
            0 <= j < after.position() && j < after.remaining().len() implies states[0].predicate().ensures(
            (&#[trigger] after.remaining()[j],),
            false,
        ) by {
            assert(after.remaining()[j] == before.remaining()[j]);
        }
        assert(taken.take(k) == taken.take(k - 1).push(x));
        let m0 = after.remaining().to_multiset();
        let t0 = taken.take(k - 1).to_multiset();
        assert(m0.add(t0.insert(x)) =~= m0.insert(x).add(t0));
    }
}

/// Draining a vector to the end takes out exactly the elements the predicate accepts: each
/// element taken was accepted, each element left was refused, and what was taken and what
/// is left together are the elements the vector began with.
pub proof fn law_whole_drain<'a, T, F: Fn(&T) -> bool>(
    states: Seq<DrainFilter<'a, T, F>>,
    taken: Seq<T>,
)
    requires
        states.len() == taken.len() + 2,
        states[0].position() == 0,
        forall|j: int| 0 <= j < taken.len() ==> drained(#[trigger] states[j], states[j + 1], Some(taken[j])),
        drained(states[taken.len() as int], states[taken.len() + 1 as int], None),
    ensures
        forall|j: int| 0 <= j < taken.len() ==> states[0].predicate().ensures((&#[trigger] taken[j],), true),
        forall|i: int|
            0 <= i < states.last().remaining().len() ==> states[0].predicate().ensures(
                (&#[trigger] states.last().remaining()[i],),
                false,
            ),
        states.last().remaining().to_multiset().add(taken.to_multiset())
            == states[0].remaining().to_multiset(),
{
    let n = taken.len() as int;
    lemma_drain_prefix(states, taken, n);
    assert(taken.take(n) == taken);
    let before = states[n];
    let after = states[n + 1];
    assert forall|i: int| 0 <= i < after.remaining().len() implies states[0].predicate().ensures(
        (&#[trigger] after.remaining()[i],),
        false,
    ) by {
        assert(after.remaining()[i] == before.remaining()[i]);
        if i >= before.position() {
            assert(before.predicate().ensures((&before.remaining()[i],), false));
        }
    }
}

} // verus!
