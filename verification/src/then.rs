//! Composition: one traversal after another.
use std::marker::PhantomData;
use vstd::prelude::*;
use crate::flat::{
    concat, lemma_flatten_contains, lemma_flatten_cut, lemma_flatten_same_lengths, lemma_flatten_split,
    lemma_reads_flatten, views,
};
use crate::projection::{accepts_all, accepts_first_mut, accepts_mut, answers, pulled, reads};
use crate::traversal::{Step, Traversal};

verus! {

/// The targets that `right` finds in each element of `outer`, row by row.
pub open spec fn rows<Tr2: Traversal<T2, T3>, T2, T3>(right: Tr2, outer: Seq<T2>) -> Seq<Seq<T3>> {
    Seq::new(outer.len(), |j: int| right.targets(&outer[j]))
}

/// `left`, then `right` inside each of `left`'s targets: the targets of the
/// whole are those of `right`, outer target by outer target, depth first.
///
/// The marker records the type of the targets in between; it holds nothing.
#[derive(Debug, Copy, PartialEq)]
pub struct Then<Tr1, Tr2, T2> {
    left: Tr1,
    right: Tr2,
    _marker: PhantomData<T2>,
}

impl<Tr1, Tr2, T2> Then<Tr1, Tr2, T2> {
    /// The traversal applied to the source.
    pub closed spec fn left(&self) -> Tr1 {
        self.left
    }

    /// The traversal applied to each target of `left`.
    pub closed spec fn right(&self) -> Tr2 {
        self.right
    }

    /// Composes `left` with `right`.
    pub fn new<T1, T3>(left: Tr1, right: Tr2) -> (then: Self)
        where Tr1: Traversal<T1, T2>, Tr2: Traversal<T2, T3>
        ensures
            then.left() == left,
            then.right() == right,
    {
        Self { left, right, _marker: PhantomData }
    }

    /// Reaches into the outer target at position `j`, if there is one, and
    /// there hands the inner target at position `past` to `g`.
    fn pull_in<T1, T3, W, G>(&self, data: &mut T1, j: usize, past: usize, g: G) -> (out: Step<Step<W>>)
        where Tr1: Traversal<T1, T2>, Tr2: Traversal<T2, T3>, G: FnOnce(&mut T3) -> W + Copy
        requires
            self.left().countable(old(data)),
            j < self.left().targets(old(data)).len() ==> self.right().countable(
                &self.left().targets(old(data))[j as int],
            ),
            j < self.left().targets(old(data)).len() && past < self.right().targets(
                &self.left().targets(old(data))[j as int],
            ).len() ==> accepts_mut(
                g,
                self.right().targets(&self.left().targets(old(data))[j as int])[past as int],
            ),
        ensures
            self.left().same_shape(old(data), final(data)),
            match out {
                Step::Beyond(_) => {
                    &&& j >= self.left().targets(old(data)).len()
                    &&& self.left().targets(final(data)) == self.left().targets(old(data))
                },
                Step::Found(inner) => {
                    let b0 = self.left().targets(old(data))[j as int];
                    let b1 = self.left().targets(final(data))[j as int];
                    &&& j < self.left().targets(old(data)).len()
                    &&& self.left().targets(final(data)) == self.left().targets(old(data)).update(j as int, b1)
                    &&& self.right().same_shape(&b0, &b1)
                    &&& match inner {
                        Step::Found(w) => {
                            &&& past < self.right().targets(&b0).len()
                            &&& exists|r: &mut T3|
                                *r == self.right().targets(&b0)[past as int] && *final(r)
                                    == self.right().targets(&b1)[past as int] && call_ensures(g, (r,), w)
                            &&& self.right().targets(&b1) == self.right().targets(&b0).update(
                                past as int,
                                self.right().targets(&b1)[past as int],
                            )
                        },
                        Step::Beyond(rest) => {
                            &&& past >= self.right().targets(&b0).len()
                            &&& rest == past - self.right().targets(&b0).len()
                            &&& self.right().targets(&b1) == self.right().targets(&b0)
                        },
                    }
                },
            },
    {
        let right = &self.right;
        let each = |b: &mut T2| -> (step: Step<W>)
            requires
                right.countable(old(b)),
                past < right.targets(old(b)).len() ==> accepts_mut(g, right.targets(old(b))[past as int]),
            ensures
                right.same_shape(old(b), final(b)),
                match step {
                    Step::Found(w) => {
                        &&& past < right.targets(old(b)).len()
                        &&& exists|r: &mut T3|
                            *r == right.targets(old(b))[past as int] && *final(r) == right.targets(
                                final(b),
                            )[past as int] && call_ensures(g, (r,), w)
                        &&& right.targets(final(b)) == right.targets(old(b)).update(
                            past as int,
                            right.targets(final(b))[past as int],
                        )
                    },
                    Step::Beyond(rest) => {
                        &&& past >= right.targets(old(b)).len()
                        &&& rest == past - right.targets(old(b)).len()
                        &&& right.targets(final(b)) == right.targets(old(b))
                    },
                },
            { right.with_mut_at(b, past, g) };
        self.left.with_mut_at(data, j, each)
    }

    /// Reaches into the outer target at position `j`, if there is one, and
    /// there hands the first `pulls` inner targets to `f`.
    fn drain_in<T1, T3, V, F>(&self, data: &mut T1, j: usize, f: F, pulls: usize) -> (out: Step<Vec<V>>)
        where Tr1: Traversal<T1, T2>, Tr2: Traversal<T2, T3>, F: FnOnce(&mut T3) -> V + Copy
        requires
            self.left().countable(old(data)),
            j < self.left().targets(old(data)).len() ==> self.right().countable(
                &self.left().targets(old(data))[j as int],
            ) && accepts_first_mut(
                f,
                self.right().targets(&self.left().targets(old(data))[j as int]),
                pulls as int,
            ),
        ensures
            self.left().same_shape(old(data), final(data)),
            match out {
                Step::Beyond(_) => {
                    &&& j >= self.left().targets(old(data)).len()
                    &&& self.left().targets(final(data)) == self.left().targets(old(data))
                },
                Step::Found(batch) => {
                    let b0 = self.left().targets(old(data))[j as int];
                    let b1 = self.left().targets(final(data))[j as int];
                    let row0 = self.right().targets(&b0);
                    let row1 = self.right().targets(&b1);
                    &&& j < self.left().targets(old(data)).len()
                    &&& self.left().targets(final(data)) == self.left().targets(old(data)).update(j as int, b1)
                    &&& self.right().same_shape(&b0, &b1)
                    &&& batch@.len() == pulled(pulls as int, row0.len() as int)
                    &&& forall|i: int|
                        #![trigger batch@[i]]
                        #![trigger answers(f, row0[i], batch@[i])]
                        0 <= i < batch@.len() ==> answers(f, row0[i], batch@[i]) && exists|r: &mut T3|
                            *r == row0[i] && *final(r) == row1[i] && call_ensures(f, (r,), batch@[i])
                    &&& forall|i: int| batch@.len() <= i < row0.len() ==> #[trigger] row1[i] == row0[i]
                },
            },
    {
        let right = &self.right;
        let each = |b: &mut T2| -> (batch: Vec<V>)
            requires
                right.countable(old(b)),
                accepts_first_mut(f, right.targets(old(b)), pulls as int),
            ensures
                right.same_shape(old(b), final(b)),
                batch@.len() == pulled(pulls as int, right.targets(old(b)).len() as int),
                forall|i: int|
                    #![trigger batch@[i]]
                    #![trigger answers(f, right.targets(old(b))[i], batch@[i])]
                    0 <= i < batch@.len() ==> answers(f, right.targets(old(b))[i], batch@[i]) && exists|
                        r: &mut T3,
                    |
                        *r == right.targets(old(b))[i] && *final(r) == right.targets(final(b))[i]
                            && call_ensures(f, (r,), batch@[i]),
                forall|i: int|
                    batch@.len() <= i < right.targets(old(b)).len() ==> #[trigger] right.targets(
                        final(b),
                    )[i] == right.targets(old(b))[i],
            { right.with_mut(b, f, pulls) };
        let ghost outer0 = self.left.targets(data);
        let out = self.left.with_mut_at(data, j, each);
        proof {
            if let Step::Found(batch) = &out {
                let row0 = self.right.targets(&outer0[j as int]);
                let row1 = self.right.targets(&self.left.targets(data)[j as int]);
                assert(forall|i: int| batch@.len() <= i < row0.len() ==> #[trigger] row1[i] == row0[i]);
            }
        }
        out
    }
}

impl<Tr1: Clone, Tr2: Clone, T2> Clone for Then<Tr1, Tr2, T2> {
    fn clone(&self) -> (copy: Self)
        ensures
            cloned(self.left(), copy.left()),
            cloned(self.right(), copy.right()),
    {
        Self { left: self.left.clone(), right: self.right.clone(), _marker: PhantomData }
    }
}

impl<Tr1, Tr2, T1, T2, T3> Traversal<T1, T3> for Then<Tr1, Tr2, T2>
    where Tr1: Traversal<T1, T2>, Tr2: Traversal<T2, T3>
{
    open spec fn targets(&self, data: &T1) -> Seq<T3> {
        rows(self.right(), self.left().targets(data)).flatten()
    }

    open spec fn same_shape(&self, before: &T1, after: &T1) -> bool {
        &&& self.left().same_shape(before, after)
        &&& forall|j: int|
            0 <= j < self.left().targets(before).len() ==> self.right().same_shape(
                &(#[trigger] self.left().targets(before)[j]),
                &self.left().targets(after)[j],
            )
    }

    open spec fn countable(&self, data: &T1) -> bool {
        &&& self.left().countable(data)
        &&& self.left().targets(data).len() <= usize::MAX
        &&& forall|j: int|
            0 <= j < self.left().targets(data).len() ==> self.right().countable(
                &(#[trigger] self.left().targets(data)[j]),
            )
    }

    proof fn shape_laws(&self, a: &T1, b: &T1, c: &T1) {
        let la = self.left().targets(a);
        let lb = self.left().targets(b);
        let lc = self.left().targets(c);
        self.left().shape_laws(a, b, c);
        self.left().shape_laws(b, c, c);
        assert forall|j: int| 0 <= j < la.len() implies self.right().same_shape(&(#[trigger] la[j]), &la[j]) by {
            self.right().shape_laws(&la[j], &la[j], &la[j]);
        }
        if self.same_shape(a, b) && self.same_shape(b, c) {
            assert forall|j: int| 0 <= j < la.len() implies self.right().same_shape(
                &(#[trigger] la[j]),
                &lc[j],
            ) by {
                assert(self.right().same_shape(&la[j], &lb[j]));
                assert(self.right().same_shape(&lb[j], &lc[j]));
                self.right().shape_laws(&la[j], &lb[j], &lc[j]);
            }
        }
        if self.same_shape(a, b) {
            let ra = rows(self.right(), la);
            let rb = rows(self.right(), lb);
            assert forall|j: int| 0 <= j < ra.len() implies (#[trigger] ra[j]).len() == rb[j].len() by {
                assert(self.right().same_shape(&la[j], &lb[j]));
                self.right().shape_laws(&la[j], &lb[j], &lb[j]);
            }
            lemma_flatten_same_lengths(ra, rb);
            assert forall|j: int| 0 <= j < la.len() implies self.right().countable(&(#[trigger] la[j]))
                == self.right().countable(&lb[j]) by {
                assert(self.right().same_shape(&la[j], &lb[j]));
                self.right().shape_laws(&la[j], &lb[j], &lb[j]);
            }
            if self.countable(a) {
                assert forall|j: int| 0 <= j < lb.len() implies self.right().countable(
                    &(#[trigger] lb[j]),
                ) by {
                    assert(self.right().countable(&la[j]));
                }
            }
            if self.countable(b) {
                assert forall|j: int| 0 <= j < la.len() implies self.right().countable(
                    &(#[trigger] la[j]),
                ) by {
                    assert(self.right().countable(&lb[j]));
                }
            }
        }
    }

    fn with<V, F>(&self, data: &T1, f: F) -> (out: Vec<V>)
        where F: FnOnce(&T3) -> V + Copy
    {
        let right = &self.right;
        let ghost outer = self.left.targets(data);
        let ghost inner = rows(self.right, outer);
        let each = |b: &T2| -> (batch: Vec<V>)
            requires
                accepts_all(f, right.targets(b)),
            ensures
                reads(right.targets(b), f, batch@),
            { right.with(b, f) };
        proof {
            assert forall|b: T2| #[trigger] outer.contains(b) implies call_requires(each, (&b,)) by {
                let j = choose|j: int| 0 <= j < outer.len() && outer[j] == b;
                assert forall|t: T3| #[trigger] right.targets(&b).contains(t) implies call_requires(
                    f,
                    (&t,),
                ) by {
                    assert(inner[j] == right.targets(&b));
                    lemma_flatten_contains(inner, j, t);
                }
            }
        }
        let batches = self.left.with(data, each);
        proof {
            assert forall|j: int| 0 <= j < inner.len() implies reads(
                #[trigger] inner[j],
                f,
                views(batches@)[j],
            ) by {
                assert(call_ensures(each, (&outer[j],), batches@[j]));
            }
            lemma_reads_flatten(inner, f, views(batches@));
        }
        concat(batches)
    }

    fn with_mut<V, F>(&self, data: &mut T1, f: F, pulls: usize) -> (out: Vec<V>)
        where F: FnOnce(&mut T3) -> V + Copy
    {
        let ghost outer0 = self.left.targets(data);
        let ghost inner0 = rows(self.right, outer0);
        let mut out: Vec<V> = Vec::new();
        let mut j: usize = 0;
        let mut left_over: usize = pulls;
        let mut done = false;
        proof {
            self.shape_laws(data, data, data);
            assert(inner0.take(0).flatten() =~= Seq::<T3>::empty());
        }
        while left_over > 0 && !done
            invariant
                outer0 == self.left.targets(old(data)),
                inner0 == rows(self.right, outer0),
                self.countable(old(data)),
                accepts_first_mut(f, inner0.flatten(), pulls as int),
                j <= outer0.len(),
                done ==> j == outer0.len(),
                self.left.targets(data).len() == outer0.len(),
                self.same_shape(old(data), data),
                forall|k: int| j <= k < outer0.len() ==> #[trigger] self.left.targets(data)[k] == outer0[k],
                rows(self.right, self.left.targets(data)).take(j as int).flatten().len() == inner0.take(
                    j as int,
                ).flatten().len(),
                out@.len() == pulled(pulls as int, inner0.take(j as int).flatten().len() as int),
                left_over == pulls - out@.len(),
                forall|i: int|
                    #![trigger out@[i]]
                    #![trigger answers(f, inner0.take(j as int).flatten()[i], out@[i])]
                    0 <= i < out@.len() ==> answers(f, inner0.take(j as int).flatten()[i], out@[i])
                        && exists|r: &mut T3|
                        *r == inner0.take(j as int).flatten()[i] && *final(r) == rows(
                            self.right,
                            self.left.targets(data),
                        ).take(j as int).flatten()[i] && call_ensures(f, (r,), out@[i]),
                forall|i: int|
                    out@.len() <= i < inner0.take(j as int).flatten().len() ==> #[trigger] rows(
                        self.right,
                        self.left.targets(data),
                    ).take(j as int).flatten()[i] == inner0.take(j as int).flatten()[i],
            decreases outer0.len() - j, if done { 0int } else { 1int },
        {
            let ghost outer = self.left.targets(data);
            let ghost inner = rows(self.right, outer);
            let ghost held = *data;
            let ghost seen = out@;
            let ghost pre0 = inner0.take(j as int).flatten();
            let ghost pre = inner.take(j as int).flatten();
            proof {
                self.shape_laws(old(data), data, data);
                if j < outer.len() {
                    assert(inner0[j as int] == self.right.targets(&outer[j as int]));
                    lemma_flatten_split(inner0, j as int);
                    assert forall|k: int| 0 <= k < inner0[j as int].len() && k < left_over implies accepts_mut(
                        f,
                        #[trigger] inner0[j as int][k],
                    ) by {
                        assert(inner0.flatten()[pre0.len() + k] == inner0[j as int][k]);
                    }
                }
            }
            let step = self.drain_in(data, j, f, left_over);
            proof {
                self.left.shape_laws(old(data), &held, data);
            }
            match step {
                Step::Beyond(_) => {
                    done = true;
                },
                Step::Found(batch) => {
                    let mut batch = batch;
                    let ghost outer1 = self.left.targets(data);
                    let ghost inner1 = rows(self.right, outer1);
                    let ghost row0 = inner0[j as int];
                    let ghost row1 = self.right.targets(&outer1[j as int]);
                    let ghost got = batch@;
                    proof {
                        self.left.shape_laws(old(data), &held, data);
                        self.right.shape_laws(&outer[j as int], &outer1[j as int], &outer1[j as int]);
                        assert forall|k: int| 0 <= k < outer0.len() implies self.right.same_shape(
                            &(#[trigger] outer0[k]),
                            &outer1[k],
                        ) by {
                            assert(self.right.same_shape(&outer0[k], &outer[k]));
                            if k == j {
                                self.right.shape_laws(&outer0[k], &outer[k], &outer1[k]);
                            }
                        }
                        lemma_flatten_split(inner0, j as int);
                        lemma_flatten_split(inner1, j as int);
                        assert(inner1.take(j as int) =~= inner.take(j as int));
                        assert(inner1[j as int] == row1);
                        assert(seen.len() == pre0.len());
                    }
                    left_over -= batch.len();
                    out.append(&mut batch);
                    j += 1;
                    proof {
                        let next0 = inner0.take(j as int).flatten();
                        let next = inner1.take(j as int).flatten();
                        assert(next0 == pre0 + row0);
                        assert(next == pre + row1);
                        assert(out@ == seen + got);
                        assert forall|i: int|
                            #![trigger out@[i]]
                            #![trigger answers(f, next0[i], out@[i])]
                            0 <= i < out@.len() implies answers(f, next0[i], out@[i]) && exists|r: &mut T3|
                            *r == next0[i] && *final(r) == next[i] && call_ensures(f, (r,), out@[i]) by {
                            if i < pre0.len() {
                                assert(out@[i] == seen[i]);
                                assert(next0[i] == pre0[i]);
                                assert(next[i] == pre[i]);
                            } else {
                                let d = i - pre0.len();
                                assert(out@[i] == got[d]);
                                assert(next0[i] == row0[d]);
                                assert(next[i] == row1[d]);
                            }
                        }
                        assert forall|i: int| out@.len() <= i < next0.len() implies #[trigger] next[i]
                            == next0[i] by {
                            let d = i - pre0.len();
                            assert(next0[i] == row0[d]);
                            assert(next[i] == row1[d]);
                            assert(row1[d] == row0[d]);
                        }
                    }
                },
            }
        }
        proof {
            let outer = self.left.targets(data);
            let inner = rows(self.right, outer);
            lemma_flatten_cut(inner0, j as int);
            lemma_flatten_cut(inner, j as int);
            assert(inner.skip(j as int) =~= inner0.skip(j as int));
            if done {
                assert(inner0.take(j as int) == inner0);
            }
            let pre0 = inner0.take(j as int).flatten();
            let pre = inner.take(j as int).flatten();
            let flat0 = self.targets(old(data));
            let flat1 = self.targets(data);
            assert(flat0 == pre0 + inner0.skip(j as int).flatten());
            assert(flat1 == pre + inner0.skip(j as int).flatten());
            assert forall|i: int|
                #![trigger out@[i]]
                #![trigger answers(f, self.targets(old(data))[i], out@[i])]
                0 <= i < out@.len() implies answers(f, self.targets(old(data))[i], out@[i]) && exists|
                r: &mut T3,
            |
                *r == self.targets(old(data))[i] && *final(r) == self.targets(data)[i] && call_ensures(
                    f,
                    (r,),
                    out@[i],
                ) by {
                assert(answers(f, pre0[i], out@[i]));
                assert(flat0[i] == pre0[i]);
                assert(flat1[i] == pre[i]);
            }
            assert forall|i: int| out@.len() <= i < self.targets(old(data)).len() implies #[trigger] self.targets(
                data,
            )[i] == self.targets(old(data))[i] by {
                if i < pre0.len() {
                    assert(pre[i] == pre0[i]);
                    assert(flat0[i] == pre0[i]);
                    assert(flat1[i] == pre[i]);
                } else {
                    assert(flat0[i] == inner0.skip(j as int).flatten()[i - pre0.len()]);
                    assert(flat1[i] == inner0.skip(j as int).flatten()[i - pre.len()]);
                }
            }
        }
        out
    }

    fn with_mut_at<W, G>(&self, data: &mut T1, at: usize, g: G) -> (out: Step<W>)
        where G: FnOnce(&mut T3) -> W + Copy
    {
        let right = &self.right;
        let ghost outer0 = self.left.targets(data);
        let ghost inner0 = rows(self.right, outer0);
        let mut j: usize = 0;
        let mut past: usize = at;
        proof {
            self.shape_laws(data, data, data);
            assert(inner0.take(0).flatten() =~= Seq::<T3>::empty());
        }
        loop
            invariant
                right == &self.right,
                outer0 == self.left.targets(old(data)),
                inner0 == rows(self.right, outer0),
                j <= outer0.len(),
                self.left.targets(data).len() == outer0.len(),
                self.same_shape(old(data), data),
                rows(self.right, self.left.targets(data)) == inner0,
                past + inner0.take(j as int).flatten().len() == at,
                at < inner0.flatten().len() ==> accepts_mut(g, inner0.flatten()[at as int]),
                self.countable(old(data)),
            decreases outer0.len() - j,
        {
            let ghost outer = self.left.targets(data);
            let ghost held = *data;
            proof {
                self.shape_laws(old(data), data, data);
                if j < outer.len() {
                    lemma_flatten_split(inner0, j as int);
                    assert(inner0[j as int] == right.targets(&outer[j as int]));
                }
            }
            let step = self.pull_in(data, j, past, g);
            let ghost outer1 = self.left.targets(data);
            proof {
                self.left.shape_laws(old(data), &held, data);
            }
            match step {
                Step::Beyond(_) => {
                    proof {
                        assert(inner0.take(j as int) == inner0);
                    }
                    return Step::Beyond(past);
                },
                Step::Found(Step::Found(w)) => {
                    proof {
                        let row = inner0[j as int];
                        let row1 = right.targets(&outer1[j as int]);
                        let inner1 = rows(self.right, outer1);
                        assert(inner1 =~= inner0.update(j as int, row1));
                        lemma_flatten_split(inner1, j as int);
                        assert(inner1.take(j as int) =~= inner0.take(j as int));
                        assert(inner1.skip(j + 1) =~= inner0.skip(j + 1));
                        assert(inner1.flatten() =~= inner0.flatten().update(at as int, row1[past as int]));
                        assert(inner0.flatten()[at as int] == row[past as int]);
                        assert(inner1.flatten()[at as int] == row1[past as int]);
                        assert forall|k: int| 0 <= k < outer0.len() implies self.right.same_shape(
                            &(#[trigger] outer0[k]),
                            &outer1[k],
                        ) by {
                            assert(self.right.same_shape(&outer0[k], &outer[k]));
                            if k == j {
                                self.right.shape_laws(&outer0[k], &outer[k], &outer1[k]);
                            }
                        }
                    }
                    return Step::Found(w);
                },
                Step::Found(Step::Beyond(rest)) => {
                    proof {
                        let inner1 = rows(self.right, outer1);
                        assert(inner1 =~= inner0);
                        assert forall|k: int| 0 <= k < outer0.len() implies self.right.same_shape(
                            &(#[trigger] outer0[k]),
                            &outer1[k],
                        ) by {
                            assert(self.right.same_shape(&outer0[k], &outer[k]));
                            if k == j {
                                self.right.shape_laws(&outer0[k], &outer[k], &outer1[k]);
                            }
                        }
                    }
                    past = rest;
                    j += 1;
                },
            }
        }
    }
}

} // verus!
