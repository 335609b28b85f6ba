//! The traversal of a vector: every element is a target.
use vstd::prelude::*;
use crate::projection::{accepts_all, accepts_first_mut, accepts_mut, answers, reads};
use crate::traversal::{Step, Traversal};

verus! {

/// Visits the elements of a `Vec`, from index 0 upwards.
#[derive(Debug, Clone, Copy, PartialEq)]
pub struct VecTraversal;

impl<T2> Traversal<Vec<T2>, T2> for VecTraversal {
    open spec fn targets(&self, data: &Vec<T2>) -> Seq<T2> {
        data@
    }

    open spec fn same_shape(&self, before: &Vec<T2>, after: &Vec<T2>) -> bool {
        after@.len() == before@.len()
    }

    open spec fn countable(&self, data: &Vec<T2>) -> bool {
        true
    }

    proof fn shape_laws(&self, a: &Vec<T2>, b: &Vec<T2>, c: &Vec<T2>) {
    }

    fn with<V, F>(&self, data: &Vec<T2>, f: F) -> (out: Vec<V>)
        where F: FnOnce(&T2) -> V + Copy
    {
        let mut out: Vec<V> = Vec::new();
        let mut i: usize = 0;
        while i < data.len()
            invariant
                i <= data.len(),
                accepts_all(f, data@),
                reads(data@.take(i as int), f, out@),
            decreases data.len() - i,
        {
            assert(data@.contains(data@[i as int]));
            let v = f(&data[i]);
            out.push(v);
            i += 1;
        }
        assert(data@.take(i as int) == data@);
        out
    }

    fn with_mut<V, F>(&self, data: &mut Vec<T2>, f: F, pulls: usize) -> (out: Vec<V>)
        where F: FnOnce(&mut T2) -> V + Copy
    {
        let mut out: Vec<V> = Vec::new();
        let mut i: usize = 0;
        while i < data.len() && i < pulls
            invariant
                i <= data.len(),
                i <= pulls,
                data@.len() == old(data)@.len(),
                accepts_first_mut(f, old(data)@, pulls as int),
                out@.len() == i,
                forall|k: int|
                    #![trigger answers(f, old(data)@[k], out@[k])]
                    0 <= k < i ==> answers(f, old(data)@[k], out@[k]) && exists|r: &mut T2|
                        *r == old(data)@[k] && *final(r) == data@[k] && call_ensures(f, (r,), out@[k]),
                forall|k: int| i <= k < data@.len() ==> #[trigger] data@[k] == old(data)@[k],
            decreases data.len() - i,
        {
            assert(accepts_mut(f, old(data)@[i as int]));
            let v = f(&mut data[i]);
            out.push(v);
            i += 1;
        }
        out
    }

    fn with_mut_at<W, G>(&self, data: &mut Vec<T2>, at: usize, g: G) -> (out: Step<W>)
        where G: FnOnce(&mut T2) -> W + Copy
    {
        if at < data.len() {
            let w = g(&mut data[at]);
            Step::Found(w)
        } else {
            Step::Beyond(at - data.len())
        }
    }
}

} // verus!
