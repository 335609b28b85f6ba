//! Flattening: sequences of sequences laid end to end.
use vstd::prelude::*;
use vstd::seq_lib::lemma_flatten_concat;
use crate::projection::reads;

verus! {

/// The views of the vectors in `batches`, in order.
pub open spec fn views<V>(batches: Seq<Vec<V>>) -> Seq<Seq<V>> {
    Seq::new(batches.len(), |j: int| batches[j]@)
}

/// An element of one of the rows is an element of the flattened whole.
pub proof fn lemma_flatten_contains<A>(rows: Seq<Seq<A>>, j: int, t: A)
    requires
        0 <= j < rows.len(),
        rows[j].contains(t),
    ensures
        rows.flatten().contains(t),
    decreases rows.len(),
{
    let k = choose|k: int| 0 <= k < rows[j].len() && rows[j][k] == t;
    if j == 0 {
        assert(rows.flatten()[k] == t);
    } else {
        let rest = rows.drop_first();
        assert(rest[j - 1] == rows[j]);
        lemma_flatten_contains(rest, j - 1, t);
        let m = choose|m: int| 0 <= m < rest.flatten().len() && rest.flatten()[m] == t;
        assert(rows.flatten()[rows.first().len() + m] == t);
    }
}

/// The flattened rows are the flattened rows before row `j`, then row `j`,
/// then the flattened rows after it.
pub proof fn lemma_flatten_split<A>(rows: Seq<Seq<A>>, j: int)
    requires
        0 <= j < rows.len(),
    ensures
        rows.flatten() == rows.take(j).flatten() + rows[j] + rows.skip(j + 1).flatten(),
        rows.take(j + 1).flatten() == rows.take(j).flatten() + rows[j],
{
    assert(rows.take(j + 1) =~= rows.take(j).push(rows[j]));
    rows.take(j).lemma_flatten_push(rows[j]);
    assert(rows =~= rows.take(j + 1) + rows.skip(j + 1));
    lemma_flatten_concat(rows.take(j + 1), rows.skip(j + 1));
}

/// The flattened rows from row `j` on follow the flattened rows before it.
pub proof fn lemma_flatten_cut<A>(rows: Seq<Seq<A>>, j: int)
    requires
        0 <= j <= rows.len(),
    ensures
        rows.flatten() == rows.take(j).flatten() + rows.skip(j).flatten(),
{
    assert(rows =~= rows.take(j) + rows.skip(j));
    lemma_flatten_concat(rows.take(j), rows.skip(j));
}

/// Every element of the flattened rows is an element of one of the rows.
pub proof fn lemma_flatten_member<A>(xs: Seq<Seq<A>>, t: A) -> (j: int)
    requires
        xs.flatten().contains(t),
    ensures
        0 <= j < xs.len(),
        xs[j].contains(t),
    decreases xs.len(),
{
    let i = choose|i: int| 0 <= i < xs.flatten().len() && xs.flatten()[i] == t;
    if xs.len() == 0 {
        0
    } else if i < xs.first().len() {
        assert(xs.first()[i] == t);
        0
    } else {
        let rest = xs.drop_first();
        assert(rest.flatten()[i - xs.first().len()] == t);
        let k = lemma_flatten_member(rest, t);
        assert(xs[k + 1] == rest[k]);
        k + 1
    }
}

/// Rows of pairwise equal lengths flatten to equal lengths.
pub proof fn lemma_flatten_same_lengths<A>(xs: Seq<Seq<A>>, ys: Seq<Seq<A>>)
    requires
        xs.len() == ys.len(),
        forall|j: int| 0 <= j < xs.len() ==> (#[trigger] xs[j]).len() == ys[j].len(),
    ensures
        xs.flatten().len() == ys.flatten().len(),
    decreases xs.len(),
{
    if xs.len() > 0 {
        assert(xs[0].len() == ys[0].len());
        assert forall|j: int| 0 <= j < xs.drop_first().len() implies (#[trigger] xs.drop_first()[j]).len()
            == ys.drop_first()[j].len() by {
            assert(xs[j + 1].len() == ys[j + 1].len());
        }
        lemma_flatten_same_lengths(xs.drop_first(), ys.drop_first());
    }
}

/// Rows of pairwise equal lengths, flattened, are related position by
/// position exactly when the rows are related position by position.
pub proof fn lemma_flatten_pairs<A>(xs: Seq<Seq<A>>, ys: Seq<Seq<A>>, related: spec_fn(A, A) -> bool)
    requires
        xs.len() == ys.len(),
        forall|j: int| 0 <= j < xs.len() ==> (#[trigger] xs[j]).len() == ys[j].len(),
    ensures
        xs.flatten().len() == ys.flatten().len(),
        (forall|i: int| 0 <= i < xs.flatten().len() ==> related(#[trigger] xs.flatten()[i], ys.flatten()[i]))
            <==> (forall|j: int, k: int|
            0 <= j < xs.len() && 0 <= k < xs[j].len() ==> related(#[trigger] xs[j][k], ys[j][k])),
    decreases xs.len(),
{
    lemma_flatten_same_lengths(xs, ys);
    if xs.len() > 0 {
        let xr = xs.drop_first();
        let yr = ys.drop_first();
        let n = xs.first().len() as int;
        assert(xs[0].len() == ys[0].len());
        assert forall|j: int| 0 <= j < xr.len() implies (#[trigger] xr[j]).len() == yr[j].len() by {
            assert(xs[j + 1].len() == ys[j + 1].len());
        }
        lemma_flatten_pairs(xr, yr, related);
        let flat = forall|i: int|
            0 <= i < xs.flatten().len() ==> related(#[trigger] xs.flatten()[i], ys.flatten()[i]);
        let by_row = forall|j: int, k: int|
            0 <= j < xs.len() && 0 <= k < xs[j].len() ==> related(#[trigger] xs[j][k], ys[j][k]);
        if flat {
            assert forall|i: int| 0 <= i < xr.flatten().len() implies related(
                #[trigger] xr.flatten()[i],
                yr.flatten()[i],
            ) by {
                assert(xs.flatten()[n + i] == xr.flatten()[i]);
                assert(ys.flatten()[n + i] == yr.flatten()[i]);
            }
            assert forall|j: int, k: int| 0 <= j < xs.len() && 0 <= k < xs[j].len() implies related(
                #[trigger] xs[j][k],
                ys[j][k],
            ) by {
                if j == 0 {
                    assert(xs.flatten()[k] == xs[0][k]);
                    assert(ys.flatten()[k] == ys[0][k]);
                } else {
                    assert(xr[j - 1][k] == xs[j][k]);
                    assert(yr[j - 1][k] == ys[j][k]);
                }
            }
        }
        if by_row {
            assert forall|j: int, k: int| 0 <= j < xr.len() && 0 <= k < xr[j].len() implies related(
                #[trigger] xr[j][k],
                yr[j][k],
            ) by {
                assert(xs[j + 1][k] == xr[j][k]);
                assert(ys[j + 1][k] == yr[j][k]);
            }
            assert forall|i: int| 0 <= i < xs.flatten().len() implies related(
                #[trigger] xs.flatten()[i],
                ys.flatten()[i],
            ) by {
                if i < n {
                    assert(xs.flatten()[i] == xs[0][i]);
                    assert(ys.flatten()[i] == ys[0][i]);
                } else {
                    assert(xs.flatten()[i] == xr.flatten()[i - n]);
                    assert(ys.flatten()[i] == yr.flatten()[i - n]);
                }
            }
        }
    }
}

/// Rows that are all empty flatten to nothing.
pub proof fn lemma_flatten_empty_rows<A>(rows: Seq<Seq<A>>)
    requires
        forall|j: int| 0 <= j < rows.len() ==> (#[trigger] rows[j]).len() == 0,
    ensures
        rows.flatten() == Seq::<A>::empty(),
    decreases rows.len(),
{
    if rows.len() > 0 {
        assert(rows[0].len() == 0);
        assert forall|j: int| 0 <= j < rows.drop_first().len() implies (#[trigger] rows.drop_first()[j]).len()
            == 0 by {
            assert(rows[j + 1].len() == 0);
        }
        lemma_flatten_empty_rows(rows.drop_first());
        assert(rows.flatten() =~= Seq::<A>::empty());
    }
}

/// Results read from two runs of targets, laid end to end, are results read
/// from the two runs laid end to end.
pub proof fn lemma_reads_concat<T, V, F: FnOnce(&T) -> V>(
    ts1: Seq<T>,
    ts2: Seq<T>,
    f: F,
    out1: Seq<V>,
    out2: Seq<V>,
)
    requires
        reads(ts1, f, out1),
        reads(ts2, f, out2),
    ensures
        reads(ts1 + ts2, f, out1 + out2),
{
    assert forall|i: int| 0 <= i < (ts1 + ts2).len() implies call_ensures(
        f,
        (&(ts1 + ts2)[i],),
        #[trigger] (out1 + out2)[i],
    ) by {
        if i < ts1.len() {
            assert((out1 + out2)[i] == out1[i]);
        } else {
            assert((out1 + out2)[i] == out2[i - ts1.len()]);
            assert((ts1 + ts2)[i] == ts2[i - ts1.len()]);
        }
    }
}

/// Results read row by row flatten to the results read from the flattened rows.
pub proof fn lemma_reads_flatten<T, V, F: FnOnce(&T) -> V>(rows: Seq<Seq<T>>, f: F, outs: Seq<Seq<V>>)
    requires
        rows.len() == outs.len(),
        forall|j: int| 0 <= j < rows.len() ==> reads(#[trigger] rows[j], f, outs[j]),
    ensures
        reads(rows.flatten(), f, outs.flatten()),
    decreases rows.len(),
{
    if rows.len() > 0 {
        assert(reads(rows[0], f, outs[0]));
        assert forall|j: int| 0 <= j < rows.drop_first().len() implies reads(
            #[trigger] rows.drop_first()[j],
            f,
            outs.drop_first()[j],
        ) by {
            assert(reads(rows[j + 1], f, outs[j + 1]));
        }
        lemma_reads_flatten(rows.drop_first(), f, outs.drop_first());
        lemma_reads_concat(rows.first(), rows.drop_first().flatten(), f, outs.first(), outs.drop_first().flatten());
    }
}

/// Lays the vectors of `batches` end to end, in order.
pub fn concat<V>(batches: Vec<Vec<V>>) -> (out: Vec<V>)
    ensures
        out@ == views(batches@).flatten(),
{
    let mut batches = batches;
    let ghost rows = views(batches@);
    let mut out: Vec<V> = Vec::new();
    let mut j: usize = 0;
    while j < batches.len()
        invariant
            j <= batches.len(),
            batches@.len() == rows.len(),
            forall|k: int| j <= k < rows.len() ==> (#[trigger] batches@[k])@ == rows[k],
            out@ == rows.take(j as int).flatten(),
        decreases batches.len() - j,
    {
        proof {
            assert(rows.take(j + 1) =~= rows.take(j as int).push(rows[j as int]));
            rows.take(j as int).lemma_flatten_push(rows[j as int]);
        }
        out.append(&mut batches[j]);
        j += 1;
    }
    assert(rows.take(j as int) == rows);
    out
}

} // verus!
