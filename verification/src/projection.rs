//! What it means to run a projection over a sequence of targets.
use vstd::prelude::*;

verus! {

/// `f` may be called on a shared borrow of `target`.
pub open spec fn accepts<T, V, F: FnOnce(&T) -> V>(f: F, target: T) -> bool {
    call_requires(f, (&target,))
}

/// `f` may be called on every element of `targets`.
pub open spec fn accepts_all<T, V, F: FnOnce(&T) -> V>(f: F, targets: Seq<T>) -> bool {
    forall|t: T| #[trigger] targets.contains(t) ==> accepts(f, t)
}

/// `out` holds one result of `f` per target, in the targets' order.
pub open spec fn reads<T, V, F: FnOnce(&T) -> V>(targets: Seq<T>, f: F, out: Seq<V>) -> bool {
    &&& out.len() == targets.len()
    &&& forall|i: int| 0 <= i < targets.len() ==> call_ensures(f, (&targets[i],), #[trigger] out[i])
}

/// `f` may be called on an exclusive borrow of a target that holds `before`.
pub open spec fn accepts_mut<T, V, F: FnOnce(&mut T) -> V>(f: F, before: T) -> bool {
    forall|r: &mut T| *r == before ==> call_requires(f, (r,))
}

/// `f` may be called on an exclusive borrow of each of the first `pulls`
/// elements of `targets`.
pub open spec fn accepts_first_mut<T, V, F: FnOnce(&mut T) -> V>(f: F, targets: Seq<T>, pulls: int) -> bool {
    forall|i: int| 0 <= i < targets.len() && i < pulls ==> accepts_mut(f, #[trigger] targets[i])
}

/// Called on an exclusive borrow of a target that holds `before`, `f` may
/// return `out`.
pub open spec fn answers<T, V, F: FnOnce(&mut T) -> V>(f: F, before: T, out: V) -> bool {
    exists|r: &mut T| *r == before && call_ensures(f, (r,), out)
}

/// How many of `available` targets `pulls` pulls reach.
pub open spec fn pulled(pulls: int, available: int) -> int {
    if pulls < available { pulls } else { available }
}

} // verus!
