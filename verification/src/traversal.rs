//! The traversal capability.
use vstd::prelude::*;
use crate::projection::{accepts_all, accepts_first_mut, accepts_mut, answers, pulled, reads};

verus! {

/// The outcome of reaching for the target at one position.
#[derive(Debug, Clone, Copy, PartialEq, Eq)]
pub enum Step<W> {
    /// The position holds a target; this is what the projection returned for it.
    Found(W),
    /// The traversal has no target there; the position lies this many places
    /// past its last one.
    Beyond(usize),
}

/// A way to visit, in a fixed order, every target of type `T2` inside a
/// source of type `T1`.
///
/// A traversal keeps no state of its own between calls. Results come one per
/// target pulled: a read pulls every target; a mutation pulls the number of
/// targets it is asked for, or reaches for the single target at one
/// position, and leaves every target it did not pull exactly as it was.
pub trait Traversal<T1, T2> {
    /// The targets inside `data`, in visiting order.
    spec fn targets(&self, data: &T1) -> Seq<T2>;

    /// `after` differs from `before` at most in what its targets hold: it has
    /// as many targets, laid out in the same way.
    spec fn same_shape(&self, before: &T1, after: &T1) -> bool;

    /// Every position that a walk through `data` keeps count of fits in a
    /// `usize`.
    spec fn countable(&self, data: &T1) -> bool;

    /// `same_shape` relates every source to itself and chains; sources of the
    /// same shape have equally many targets and are countable together.
    proof fn shape_laws(&self, a: &T1, b: &T1, c: &T1)
        ensures
            self.same_shape(a, a),
            self.same_shape(a, b) && self.same_shape(b, c) ==> self.same_shape(a, c),
            self.same_shape(a, b) ==> self.targets(a).len() == self.targets(b).len(),
            self.same_shape(a, b) ==> self.countable(a) == self.countable(b),
    ;

    /// Projects every target of `data` through `f`, in visiting order, and
    /// returns the results in that order. `data` is not changed.
    fn with<V, F>(&self, data: &T1, f: F) -> (out: Vec<V>)
        where F: FnOnce(&T2) -> V + Copy
        requires
            accepts_all(f, self.targets(data)),
        ensures
            reads(self.targets(data), f, out@),
    ;

    /// Hands the first `pulls` targets of `data`, in visiting order, to `f`,
    /// which may change each in place, and returns what `f` returned for
    /// each. Every result stems from one call of `f` on a borrow that held
    /// the target as it was and was left holding the target as it now is.
    /// Targets past the last pull are not touched, and `data` keeps its shape.
    fn with_mut<V, F>(&self, data: &mut T1, f: F, pulls: usize) -> (out: Vec<V>)
        where F: FnOnce(&mut T2) -> V + Copy
        requires
            self.countable(old(data)),
            accepts_first_mut(f, self.targets(old(data)), pulls as int),
        ensures
            self.same_shape(old(data), final(data)),
            out@.len() == pulled(pulls as int, self.targets(old(data)).len() as int),
            forall|i: int|
                #![trigger out@[i]]
                #![trigger answers(f, self.targets(old(data))[i], out@[i])]
                0 <= i < out@.len() ==> answers(f, self.targets(old(data))[i], out@[i]) && exists|
                    r: &mut T2,
                |
                    *r == self.targets(old(data))[i] && *final(r) == self.targets(final(data))[i]
                        && call_ensures(f, (r,), out@[i]),
            forall|i: int|
                out@.len() <= i < self.targets(old(data)).len() ==> #[trigger] self.targets(
                    final(data),
                )[i] == self.targets(old(data))[i],
    ;

    /// Hands the target at position `at` to `g`, if there is one, and says
    /// how far past the last target `at` lies if there is none. No other
    /// target is touched, and `data` keeps its shape.
    fn with_mut_at<W, G>(&self, data: &mut T1, at: usize, g: G) -> (out: Step<W>)
        where G: FnOnce(&mut T2) -> W + Copy
        requires
            self.countable(old(data)),
            at < self.targets(old(data)).len() ==> accepts_mut(g, self.targets(old(data))[at as int]),
        ensures
            self.same_shape(old(data), final(data)),
            match out {
                Step::Found(w) => {
                    &&& at < self.targets(old(data)).len()
                    &&& exists|r: &mut T2|
                        *r == self.targets(old(data))[at as int] && *final(r) == self.targets(
                            final(data),
                        )[at as int] && call_ensures(g, (r,), w)
                    &&& self.targets(final(data)) == self.targets(old(data)).update(
                        at as int,
                        self.targets(final(data))[at as int],
                    )
                },
                Step::Beyond(past) => {
                    &&& at >= self.targets(old(data)).len()
                    &&& past == at - self.targets(old(data)).len()
                    &&& self.targets(final(data)) == self.targets(old(data))
                },
            },
    ;
}

} // verus!
