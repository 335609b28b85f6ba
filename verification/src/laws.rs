//! Laws that hold of every traversal built from this library's parts.
use vstd::prelude::*;
use vstd::seq_lib::lemma_flatten_concat;
use crate::flat::{lemma_flatten_empty_rows, lemma_flatten_member, lemma_flatten_pairs, lemma_flatten_split};
use crate::projection::{pulled, reads};
use crate::then::{rows, Then};
use crate::traversal::Traversal;
use crate::vec_traversal::VecTraversal;

verus! {

/// Reading a vector through a projection that returns what it is shown gives
/// exactly the vector's elements, in order.
pub proof fn lemma_leaf_read_identity<T, F: FnOnce(&T) -> T>(data: &Vec<T>, f: F, out: Seq<T>)
    requires
        forall|t: T, v: T| call_ensures(f, (&t,), v) ==> v == t,
        reads(Traversal::<Vec<T>, T>::targets(&VecTraversal, data), f, out),
    ensures
        out == data@,
{
    assert forall|i: int| 0 <= i < out.len() implies out[i] == data@[i] by {
        assert(call_ensures(f, (&data@[i],), out[i]));
    }
    assert(out =~= data@);
}

/// A composed traversal finds nothing where the inner traversal finds nothing
/// in any outer target; in particular where there is no outer target.
pub proof fn lemma_then_empty<Tr1, Tr2, T1, T2, T3>(then: Then<Tr1, Tr2, T2>, data: &T1)
    where Tr1: Traversal<T1, T2>, Tr2: Traversal<T2, T3>
    requires
        forall|j: int|
            0 <= j < then.left().targets(data).len() ==> then.right().targets(
                &(#[trigger] then.left().targets(data)[j]),
            ).len() == 0,
    ensures
        Traversal::<T1, T3>::targets(&then, data) == Seq::<T3>::empty(),
{
    let outer = then.left().targets(data);
    let inner = rows(then.right(), outer);
    assert forall|j: int| 0 <= j < inner.len() implies (#[trigger] inner[j]).len() == 0 by {
        assert(then.right().targets(&outer[j]).len() == 0);
    }
    lemma_flatten_empty_rows(inner);
}

/// Every target of a composed traversal is a target that the inner traversal
/// finds in one of the outer targets.
pub proof fn lemma_then_targets_come_from_rows<Tr1, Tr2, T1, T2, T3>(
    then: Then<Tr1, Tr2, T2>,
    data: &T1,
    t: T3,
) -> (j: int)
    where Tr1: Traversal<T1, T2>, Tr2: Traversal<T2, T3>
    requires
        Traversal::<T1, T3>::targets(&then, data).contains(t),
    ensures
        0 <= j < then.left().targets(data).len(),
        then.right().targets(&then.left().targets(data)[j]).contains(t),
{
    lemma_flatten_member(rows(then.right(), then.left().targets(data)), t)
}

/// Where there is no target, a read yields no result.
pub proof fn lemma_nothing_to_read<T, V, F: FnOnce(&T) -> V>(targets: Seq<T>, f: F, out: Seq<V>)
    requires
        targets.len() == 0,
        reads(targets, f, out),
    ensures
        out == Seq::<V>::empty(),
{
    assert(out =~= Seq::<V>::empty());
}

/// Where there is no target, no number of pulls reaches one, and a source of
/// the same shape has no target either: nothing is there that could change.
pub proof fn lemma_nothing_to_pull<Tr, T1, T2>(traversal: Tr, before: &T1, after: &T1, pulls: usize)
    where Tr: Traversal<T1, T2>
    requires
        traversal.targets(before).len() == 0,
        traversal.same_shape(before, after),
    ensures
        pulled(pulls as int, traversal.targets(before).len() as int) == 0,
        traversal.targets(after) == traversal.targets(before),
{
    traversal.shape_laws(before, after, after);
    assert(traversal.targets(after) =~= traversal.targets(before));
}

/// What `inner` finds in the flattened rows is, flattened, what it finds row
/// by row, each row flattened, laid end to end.
pub proof fn lemma_rows_of_flatten<Tr, T2, T3>(inner: Tr, xs: Seq<Seq<T2>>)
    where Tr: Traversal<T2, T3>
    ensures
        rows(inner, xs.flatten()).flatten() == Seq::new(
            xs.len(),
            |j: int| rows(inner, xs[j]).flatten(),
        ).flatten(),
    decreases xs.len(),
{
    let by_row = Seq::new(xs.len(), |j: int| rows(inner, xs[j]).flatten());
    if xs.len() == 0 {
        assert(rows(inner, xs.flatten()) =~= Seq::<Seq<T3>>::empty());
        assert(by_row =~= Seq::<Seq<T3>>::empty());
    } else {
        let rest = xs.drop_first();
        let rest_by_row = Seq::new(rest.len(), |j: int| rows(inner, rest[j]).flatten());
        lemma_rows_of_flatten(inner, rest);
        assert(rows(inner, xs.flatten()) =~= rows(inner, xs.first()) + rows(inner, rest.flatten()));
        lemma_flatten_concat(rows(inner, xs.first()), rows(inner, rest.flatten()));
        assert(by_row.drop_first() =~= rest_by_row);
        assert(by_row.first() == rows(inner, xs.first()).flatten());
    }
}

/// Composition is associative for mutation too: `(a then b) then c` and
/// `a then (b then c)` agree on which sources have the same shape, so what
/// either may leave behind after a number of pulls is what the other may.
pub proof fn lemma_then_associative_shape<A, B, C, T1, T2, T3, T4>(
    left_first: Then<Then<A, B, T2>, C, T3>,
    right_first: Then<A, Then<B, C, T3>, T2>,
    before: &T1,
    after: &T1,
)
    where A: Traversal<T1, T2>, B: Traversal<T2, T3>, C: Traversal<T3, T4>
    requires
        left_first.left().left() == right_first.left(),
        left_first.left().right() == right_first.right().left(),
        left_first.right() == right_first.right().right(),
    ensures
        Traversal::<T1, T4>::same_shape(&left_first, before, after) == Traversal::<T1, T4>::same_shape(
            &right_first,
            before,
            after,
        ),
{
    let a = right_first.left();
    let b = right_first.right().left();
    let c = right_first.right().right();
    let ab = left_first.left();
    let bc = right_first.right();
    let o0 = a.targets(before);
    let o1 = a.targets(after);
    let m0 = rows(b, o0);
    let m1 = rows(b, o1);
    let related = |x: T3, y: T3| c.same_shape(&x, &y);
    let lhs = Traversal::<T1, T4>::same_shape(&left_first, before, after);
    let rhs = Traversal::<T1, T4>::same_shape(&right_first, before, after);
    if ab.same_shape(before, after) {
        a.shape_laws(before, after, after);
        assert forall|j: int| 0 <= j < m0.len() implies (#[trigger] m0[j]).len() == m1[j].len() by {
            assert(b.same_shape(&o0[j], &o1[j]));
            b.shape_laws(&o0[j], &o1[j], &o1[j]);
        }
        lemma_flatten_pairs(m0, m1, related);
        assert(ab.targets(before) == m0.flatten());
        assert(ab.targets(after) == m1.flatten());
        if lhs {
            assert forall|i: int| 0 <= i < m0.flatten().len() implies related(
                #[trigger] m0.flatten()[i],
                m1.flatten()[i],
            ) by {
                assert(c.same_shape(&ab.targets(before)[i], &ab.targets(after)[i]));
            }
            assert forall|j: int| 0 <= j < o0.len() implies bc.same_shape(&(#[trigger] o0[j]), &o1[j]) by {
                assert(b.same_shape(&o0[j], &o1[j]));
                assert forall|k: int| 0 <= k < b.targets(&o0[j]).len() implies c.same_shape(
                    &(#[trigger] b.targets(&o0[j])[k]),
                    &b.targets(&o1[j])[k],
                ) by {
                    assert(related(m0[j][k], m1[j][k]));
                }
            }
            assert(rhs);
        }
        if rhs {
            assert forall|j: int, k: int| 0 <= j < m0.len() && 0 <= k < m0[j].len() implies related(
                #[trigger] m0[j][k],
                m1[j][k],
            ) by {
                assert(bc.same_shape(&o0[j], &o1[j]));
                assert(c.same_shape(&b.targets(&o0[j])[k], &b.targets(&o1[j])[k]));
            }
            assert forall|i: int| 0 <= i < ab.targets(before).len() implies c.same_shape(
                &(#[trigger] ab.targets(before)[i]),
                &ab.targets(after)[i],
            ) by {
                assert(related(m0.flatten()[i], m1.flatten()[i]));
            }
            assert(lhs);
        }
    } else {
        if rhs {
            assert forall|j: int| 0 <= j < o0.len() implies b.same_shape(&(#[trigger] o0[j]), &o1[j]) by {
                assert(bc.same_shape(&o0[j], &o1[j]));
            }
            assert(false);
        }
    }
}

/// The two ways of composing three traversals can walk the same sources,
/// but for one machine limit: `(a then b) then c` counts the targets of
/// `a then b` in one `usize`, `a then (b then c)` counts them outer target by
/// outer target.
pub proof fn lemma_then_associative_countable<A, B, C, T1, T2, T3, T4>(
    left_first: Then<Then<A, B, T2>, C, T3>,
    right_first: Then<A, Then<B, C, T3>, T2>,
    data: &T1,
)
    where A: Traversal<T1, T2>, B: Traversal<T2, T3>, C: Traversal<T3, T4>
    requires
        left_first.left().left() == right_first.left(),
        left_first.left().right() == right_first.right().left(),
        left_first.right() == right_first.right().right(),
    ensures
        Traversal::<T1, T4>::countable(&left_first, data) == (Traversal::<T1, T4>::countable(
            &right_first,
            data,
        ) && left_first.left().targets(data).len() <= usize::MAX),
{
    let a = right_first.left();
    let b = right_first.right().left();
    let c = right_first.right().right();
    let ab = left_first.left();
    let bc = right_first.right();
    let outer = a.targets(data);
    let middle = rows(b, outer);
    let flat = middle.flatten();
    let lhs = Traversal::<T1, T4>::countable(&left_first, data);
    let rhs = Traversal::<T1, T4>::countable(&right_first, data);
    assert(ab.targets(data) == flat);
    if lhs {
        assert forall|i: int| 0 <= i < outer.len() implies bc.countable(&(#[trigger] outer[i])) by {
            assert(b.countable(&outer[i]));
            lemma_flatten_split(middle, i);
            let before = middle.take(i).flatten().len() as int;
            assert forall|k: int| 0 <= k < b.targets(&outer[i]).len() implies c.countable(
                &(#[trigger] b.targets(&outer[i])[k]),
            ) by {
                assert(flat[before + k] == middle[i][k]);
                assert(c.countable(&ab.targets(data)[before + k]));
            }
        }
        assert(rhs);
    }
    if rhs && flat.len() <= usize::MAX {
        assert forall|i: int| 0 <= i < outer.len() implies b.countable(&(#[trigger] outer[i])) by {
            assert(bc.countable(&outer[i]));
        }
        assert forall|j: int| 0 <= j < flat.len() implies c.countable(&(#[trigger] ab.targets(data)[j])) by {
            assert(flat.contains(flat[j]));
            let i = lemma_flatten_member(middle, flat[j]);
            let k = choose|k: int| 0 <= k < middle[i].len() && middle[i][k] == flat[j];
            assert(bc.countable(&outer[i]));
            assert(c.countable(&b.targets(&outer[i])[k]));
        }
        assert(lhs);
    }
}

/// Composition is associative: `(a then b) then c` and `a then (b then c)`
/// find the same targets in the same order in every source, so every read
/// through either yields the same results.
pub proof fn lemma_then_associative<A, B, C, T1, T2, T3, T4>(
    left_first: Then<Then<A, B, T2>, C, T3>,
    right_first: Then<A, Then<B, C, T3>, T2>,
    data: &T1,
)
    where A: Traversal<T1, T2>, B: Traversal<T2, T3>, C: Traversal<T3, T4>
    requires
        left_first.left().left() == right_first.left(),
        left_first.left().right() == right_first.right().left(),
        left_first.right() == right_first.right().right(),
    ensures
        Traversal::<T1, T4>::targets(&left_first, data) == Traversal::<T1, T4>::targets(&right_first, data),
{
    let a = right_first.left();
    let b = right_first.right().left();
    let c = right_first.right().right();
    let outer = a.targets(data);
    let middle = rows(b, outer);
    lemma_rows_of_flatten(c, middle);
    assert(rows(right_first.right(), outer) =~= Seq::new(
        middle.len(),
        |j: int| rows(c, middle[j]).flatten(),
    ));
}

} // verus!
