//! The residual connection: an element-wise sum and its gradient.
use crate::scalar::{exact_sums, functional, grew_twice, is_add, lemma_added_twice, Scalar};
use vstd::prelude::*;

verus! {

/// What the forward pass leaves in `out`: the sums in the first `n` entries,
/// the rest as before.
pub open spec fn residual_forward_post<S: Scalar>(
    before: Seq<S>,
    after: Seq<S>,
    inp1: Seq<S>,
    inp2: Seq<S>,
    n: int,
) -> bool {
    &&& after.len() == before.len()
    &&& forall|i: int| 0 <= i < n ==> is_add(inp1[i], inp2[i], #[trigger] after[i])
    &&& forall|i: int| n <= i < before.len() ==> after[i] == before[i]
}

/// What the backward pass adds to one of the two input gradients: `dout[i]` to
/// each of the first `n` entries.
pub open spec fn residual_backward_post<S: Scalar>(
    before: Seq<S>,
    after: Seq<S>,
    dout: Seq<S>,
    n: int,
) -> bool {
    &&& after.len() == before.len()
    &&& forall|i: int| 0 <= i < n ==> is_add(before[i], dout[i], #[trigger] after[i])
    &&& forall|i: int| n <= i < before.len() ==> after[i] == before[i]
}

/// Writes `inp1[i] + inp2[i]` to `out[i]` for each of the first `n` entries.
pub fn residual_forward<S: Scalar>(out: &mut [S], inp1: &[S], inp2: &[S], n: usize)
    requires
        n <= old(out).len(),
        n <= inp1.len(),
        n <= inp2.len(),
    ensures
        residual_forward_post(old(out)@, final(out)@, inp1@, inp2@, n as int),
{
    let mut i: usize = 0;
    while i < n
        invariant
            i <= n,
            n <= inp1.len(),
            n <= inp2.len(),
            out.len() == old(out).len(),
            n <= out.len(),
            forall|j: int| 0 <= j < i ==> is_add(inp1[j], inp2[j], #[trigger] out[j]),
            forall|j: int| i <= j < out.len() ==> out[j] == old(out)[j],
        decreases n - i,
    {
        out[i] = inp1[i].add(inp2[i]);
        i += 1;
    }
}

/// Adds `dout[i]` to both `dinp1[i]` and `dinp2[i]` for each of the first `n`
/// entries.
pub fn residual_backward<S: Scalar>(dinp1: &mut [S], dinp2: &mut [S], dout: &[S], n: usize)
    requires
        n <= old(dinp1).len(),
        n <= old(dinp2).len(),
        n <= dout.len(),
    ensures
        residual_backward_post(old(dinp1)@, final(dinp1)@, dout@, n as int),
        residual_backward_post(old(dinp2)@, final(dinp2)@, dout@, n as int),
{
    let mut i: usize = 0;
    while i < n
        invariant
            i <= n,
            n <= dout.len(),
            dinp1.len() == old(dinp1).len(),
            dinp2.len() == old(dinp2).len(),
            n <= dinp1.len(),
            n <= dinp2.len(),
            forall|j: int| 0 <= j < i ==> is_add(old(dinp1)[j], dout[j], #[trigger] dinp1[j]),
            forall|j: int| 0 <= j < i ==> is_add(old(dinp2)[j], dout[j], #[trigger] dinp2[j]),
            forall|j: int| i <= j < dinp1.len() ==> dinp1[j] == old(dinp1)[j],
            forall|j: int| i <= j < dinp2.len() ==> dinp2[j] == old(dinp2)[j],
        decreases n - i,
    {
        let d = dout[i];
        dinp1[i] = dinp1[i].add(d);
        dinp2[i] = dinp2[i].add(d);
        i += 1;
    }
}

/// The forward pass overwrites its output: with an arithmetic that is a
/// function, two runs on the same inputs leave the same sums, whatever the
/// output buffers held before.
pub proof fn lemma_residual_forward_determined<S: Scalar>(
    before1: Seq<S>,
    after1: Seq<S>,
    before2: Seq<S>,
    after2: Seq<S>,
    inp1: Seq<S>,
    inp2: Seq<S>,
    n: int,
)
    requires
        functional::<S>(),
        residual_forward_post(before1, after1, inp1, inp2, n),
        residual_forward_post(before2, after2, inp1, inp2, n),
    ensures
        forall|i: int| 0 <= i < n ==> #[trigger] after1[i] == after2[i],
{
    assert forall|i: int| 0 <= i < n implies #[trigger] after1[i] == after2[i] by {
        assert(is_add(inp1[i], inp2[i], after1[i]));
        assert(is_add(inp1[i], inp2[i], after2[i]));
    }
}

/// The backward pass depends on the gradient of the output and on what the
/// accumulator held alone: with an arithmetic that is a function, two runs from
/// the same state end in the same state.
pub proof fn lemma_residual_backward_determined<S: Scalar>(
    before: Seq<S>,
    after1: Seq<S>,
    after2: Seq<S>,
    dout: Seq<S>,
    n: int,
)
    requires
        functional::<S>(),
        residual_backward_post(before, after1, dout, n),
        residual_backward_post(before, after2, dout, n),
    ensures
        after1 =~= after2,
{
    assert forall|i: int| 0 <= i < after1.len() implies after1[i] == after2[i] by {
        if i < n {
            assert(is_add(before[i], dout[i], after1[i]));
            assert(is_add(before[i], dout[i], after2[i]));
        }
    }
}

/// Both branches of a residual connection receive the same gradient: with an
/// arithmetic that is a function, accumulators that agree before the backward
/// pass agree after it.
pub proof fn lemma_residual_backward_twins<S: Scalar>(
    before1: Seq<S>,
    after1: Seq<S>,
    before2: Seq<S>,
    after2: Seq<S>,
    dout: Seq<S>,
    n: int,
)
    requires
        functional::<S>(),
        residual_backward_post(before1, after1, dout, n),
        residual_backward_post(before2, after2, dout, n),
        forall|i: int| 0 <= i < n ==> before1[i] == before2[i],
    ensures
        forall|i: int| 0 <= i < n ==> #[trigger] after1[i] == after2[i],
{
    assert forall|i: int| 0 <= i < n implies #[trigger] after1[i] == after2[i] by {
        assert(is_add(before1[i], dout[i], after1[i]));
        assert(is_add(before2[i], dout[i], after2[i]));
    }
}

/// The backward pass only adds: with exact additions, two passes with the same
/// `dout` add to every entry twice what one pass adds.
pub proof fn lemma_residual_backward_twice<S: Scalar>(
    before: Seq<S>,
    mid: Seq<S>,
    after: Seq<S>,
    dout: Seq<S>,
    n: int,
)
    requires
        exact_sums::<S>(),
        residual_backward_post(before, mid, dout, n),
        residual_backward_post(mid, after, dout, n),
    ensures
        forall|i: int| 0 <= i < n ==> grew_twice(before[i], mid[i], #[trigger] after[i]),
{
    assert forall|i: int| 0 <= i < n implies grew_twice(before[i], mid[i], #[trigger] after[i]) by {
        assert(is_add(before[i], dout[i], mid[i]));
        assert(is_add(mid[i], dout[i], after[i]));
        lemma_added_twice(before[i], dout[i], mid[i], after[i]);
    }
}

} // verus!
