//! The output head: softmax over the vocabulary, the cross-entropy loss, and
//! the gradient of both at once.
//!
//! Logits and probabilities are `[rows, vocab_padded]` with `rows = batch *
//! time`; only the first `vocab` entries of a row carry meaning.
use crate::fold::{entry, lemma_sum_chain_moved, lemma_sum_chain_unique, sum_chain};
use crate::layout::{at2, lemma_at2_in_table, lemma_row_span, row};
use crate::scalar::{
    exact_sums, functional, grew_twice, is_add, is_div, is_exp, is_gt, is_ln, is_mul, is_neg,
    is_neg_infinity, is_num, is_sub, lemma_added_twice, Scalar,
};
use vstd::prelude::*;

verus! {

/// `r` is the running maximum of the first `n` entries of `x` that starts from
/// `init`: each entry in turn replaces the maximum where it compares greater.
pub open spec fn max_chain<S: Scalar>(x: Seq<S>, n: int, init: S, r: S) -> bool
    decreases n,
{
    if n <= 0 {
        r == init
    } else {
        let last = x[n - 1];
        exists|p: S, g: bool|
            max_chain(x, n - 1, init, p) && #[trigger] is_gt(last, p, g) && r == if g {
                last
            } else {
                p
            }
    }
}

/// A running maximum only depends on the entries it has run over.
pub proof fn lemma_max_chain_moved<S: Scalar>(x: Seq<S>, y: Seq<S>, n: int, init: S, r: S)
    requires
        max_chain(x, n, init, r),
        forall|k: int| 0 <= k < n ==> #[trigger] x[k] == y[k],
    ensures
        max_chain(y, n, init, r),
    decreases n,
{
    if n > 0 {
        let last = x[n - 1];
        let (p, g) = choose|p: S, g: bool|
            max_chain(x, n - 1, init, p) && #[trigger] is_gt(last, p, g) && r == if g {
                last
            } else {
                p
            };
        lemma_max_chain_moved(x, y, n - 1, init, p);
        assert(x[n - 1] == y[n - 1]);
        assert(is_gt(y[n - 1], p, g));
    }
}

/// With an arithmetic that is a function, a running maximum has one result.
pub proof fn lemma_max_chain_unique<S: Scalar>(x: Seq<S>, n: int, init: S, r1: S, r2: S)
    requires
        functional::<S>(),
        max_chain(x, n, init, r1),
        max_chain(x, n, init, r2),
    ensures
        r1 == r2,
    decreases n,
{
    if n > 0 {
        let last = x[n - 1];
        let (p1, g1) = choose|p: S, g: bool|
            max_chain(x, n - 1, init, p) && #[trigger] is_gt(last, p, g) && r1 == if g {
                last
            } else {
                p
            };
        let (p2, g2) = choose|p: S, g: bool|
            max_chain(x, n - 1, init, p) && #[trigger] is_gt(last, p, g) && r2 == if g {
                last
            } else {
                p
            };
        lemma_max_chain_unique(x, n - 1, init, p1, p2);
        assert(g1 == g2);
    }
}

/// `e` is the exponential of `x` shifted down by `maxval`.
pub open spec fn exp_shifted<S: Scalar>(x: S, maxval: S, e: S) -> bool {
    exists|d: S| is_sub(x, maxval, d) && is_exp(d, e)
}

/// The row `probs` is the softmax of the first `vocab` entries of the row
/// `logits`, followed by zeros: with the running maximum `maxval` of the
/// logits from negative infinity, `probs[i] = e[i] / sum` for
/// `e[i] = exp(logits[i] - maxval)` and `sum` the `e[i]` added in order to zero.
pub open spec fn softmax_row<S: Scalar>(
    logits: Seq<S>,
    probs: Seq<S>,
    vocab: int,
    vocab_padded: int,
) -> bool {
    exists|ninf: S, maxval: S, e: Seq<S>, zero: S, sum: S|
        is_neg_infinity(ninf) && #[trigger] max_chain(logits, vocab, ninf, maxval) && (forall|
            i: int,
        |
            0 <= i < vocab ==> exp_shifted(logits[i], maxval, #[trigger] e[i])) && is_num(0, zero)
            && #[trigger] sum_chain(e, 0, 1, vocab, zero, sum) && (forall|i: int|
            0 <= i < vocab ==> is_div(e[i], sum, #[trigger] probs[i])) && (forall|i: int|
            vocab <= i < vocab_padded ==> is_num(0, #[trigger] probs[i]))
}

/// What the forward pass leaves in `probs`.
pub open spec fn softmax_forward_post<S: Scalar>(
    before: Seq<S>,
    after: Seq<S>,
    logits: Seq<S>,
    rows: int,
    vocab: int,
    vocab_padded: int,
) -> bool {
    &&& after.len() == before.len()
    &&& forall|r: int|
        0 <= r < rows ==> #[trigger] softmax_row(
            row(logits, r, vocab_padded),
            row(after, r, vocab_padded),
            vocab,
            vocab_padded,
        )
    &&& forall|j: int| rows * vocab_padded <= j < before.len() ==> after[j] == before[j]
}

/// Writes to each row of `probs` the softmax of the first `vocab` entries of
/// the same row of `logits`, and zero to the padding behind them.
pub fn softmax_forward<S: Scalar>(
    probs: &mut [S],
    logits: &[S],
    batch: usize,
    time: usize,
    vocab: usize,
    vocab_padded: usize,
)
    requires
        vocab <= vocab_padded,
        batch * time * vocab_padded <= old(probs).len(),
        batch * time * vocab_padded <= logits.len(),
    ensures
        softmax_forward_post(
            old(probs)@,
            final(probs)@,
            logits@,
            batch * time,
            vocab as int,
            vocab_padded as int,
        ),
{
    if vocab_padded == 0 {
        let ninf = S::neg_infinity();
        let zero = S::from_usize(0);
        proof {
            assert forall|r: int| 0 <= r < batch * time implies #[trigger] softmax_row(
                row(logits@, r, vocab_padded as int),
                row(probs@, r, vocab_padded as int),
                vocab as int,
                vocab_padded as int,
            ) by {
                let lrow = row(logits@, r, vocab_padded as int);
                let e = Seq::<S>::empty();
                assert(max_chain(lrow, 0, ninf, ninf));
                assert(sum_chain(e, 0, 1, 0, zero, zero));
            }
        }
        return ;
    }
    proof {
        assert(batch * time <= batch * time * vocab_padded) by (nonlinear_arith)
            requires
                vocab_padded >= 1,
                batch * time >= 0,
        ;
    }
    let rows = batch * time;
    let mut r: usize = 0;
    while r < rows
        invariant
            r <= rows,
            vocab <= vocab_padded,
            vocab_padded > 0,
            probs.len() == old(probs).len(),
            rows * vocab_padded <= probs.len(),
            rows * vocab_padded <= logits.len(),
            forall|r2: int|
                0 <= r2 < r ==> #[trigger] softmax_row(
                    row(logits@, r2, vocab_padded as int),
                    row(probs@, r2, vocab_padded as int),
                    vocab as int,
                    vocab_padded as int,
                ),
            forall|j: int| r * vocab_padded <= j < probs.len() ==> probs[j] == old(probs)[j],
        decreases rows - r,
    {
        proof {
            lemma_at2_in_table(r as int, 0, rows as int, vocab_padded as int);
        }
        let base = r * vocab_padded;
        let ghost before = probs@;
        softmax_one_row(probs, logits, base, vocab, vocab_padded);
        proof {
            assert((r + 1) * vocab_padded == r * vocab_padded + vocab_padded) by (nonlinear_arith);
            assert forall|r2: int| 0 <= r2 < r + 1 implies #[trigger] softmax_row(
                row(logits@, r2, vocab_padded as int),
                row(probs@, r2, vocab_padded as int),
                vocab as int,
                vocab_padded as int,
            ) by {
                if r2 == r {
                    assert(row(probs@, r2, vocab_padded as int) =~= probs@.subrange(
                        base as int,
                        base + vocab_padded,
                    ));
                    assert(row(logits@, r2, vocab_padded as int) =~= logits@.subrange(
                        base as int,
                        base + vocab_padded,
                    ));
                } else {
                    lemma_at2_in_table(r2, 0, r as int, vocab_padded as int);
                    assert(row(probs@, r2, vocab_padded as int) =~= row(
                        before,
                        r2,
                        vocab_padded as int,
                    ));
                    assert(softmax_row(
                        row(logits@, r2, vocab_padded as int),
                        row(before, r2, vocab_padded as int),
                        vocab as int,
                        vocab_padded as int,
                    ));
                }
            }
        }
        r += 1;
    }
}

/// The softmax of the row of `logits` that starts at `base`, written to the
/// same place in `probs`.
pub fn softmax_one_row<S: Scalar>(
    probs: &mut [S],
    logits: &[S],
    base: usize,
    vocab: usize,
    vocab_padded: usize,
)
    requires
        vocab <= vocab_padded,
        base + vocab_padded <= old(probs).len(),
        base + vocab_padded <= logits.len(),
    ensures
        final(probs).len() == old(probs).len(),
        softmax_row(
            logits@.subrange(base as int, base + vocab_padded),
            final(probs)@.subrange(base as int, base + vocab_padded),
            vocab as int,
            vocab_padded as int,
        ),
        forall|j: int|
            0 <= j < old(probs).len() && !(base <= j < base + vocab_padded) ==> final(probs)[j]
                == old(probs)[j],
{
    let ghost lrow = logits@.subrange(base as int, base + vocab_padded);
    let ninf = S::neg_infinity();
    let mut maxval = ninf;
    let mut i: usize = 0;
    while i < vocab
        invariant
            i <= vocab,
            vocab <= vocab_padded,
            base + vocab_padded <= logits.len(),
            lrow == logits@.subrange(base as int, base + vocab_padded),
            max_chain(lrow, i as int, ninf, maxval),
        decreases vocab - i,
    {
        let x = logits[base + i];
        let ghost p = maxval;
        let g = x.gt(maxval);
        if g {
            maxval = x;
        }
        proof {
            assert(lrow[(i + 1) - 1] == x);
            assert(is_gt(x, p, g));
        }
        i += 1;
    }
    let zero = S::from_usize(0);
    let mut sum = zero;
    let ghost before = probs@;
    let mut i: usize = 0;
    while i < vocab
        invariant
            i <= vocab,
            vocab <= vocab_padded,
            probs.len() == before.len(),
            base + vocab_padded <= probs.len(),
            base + vocab_padded <= logits.len(),
            sum_chain(probs@, base as int, 1, i as int, zero, sum),
            forall|j: int|
                base <= j < base + i ==> exp_shifted(logits[j], maxval, #[trigger] probs[j]),
            forall|j: int| 0 <= j < probs.len() && !(base <= j < base + i) ==> probs[j] == before[j],
        decreases vocab - i,
    {
        let ev = logits[base + i].sub(maxval).exp();
        let ghost prev = probs@;
        let ghost psum = sum;
        probs[base + i] = ev;
        sum = sum.add(ev);
        proof {
            assert forall|k: int| 0 <= k < i implies #[trigger] entry(prev, base as int, 1, k)
                == entry(probs@, base as int, 1, k) by {}
            lemma_sum_chain_moved(prev, base as int, 1, probs@, base as int, 1, i as int, zero, psum);
            assert(probs@[base + ((i + 1) - 1) * 1] == ev);
            assert(is_add(psum, ev, sum));
        }
        i += 1;
    }
    let ghost mid = probs@;
    let ghost e = mid.subrange(base as int, base + vocab);
    proof {
        assert forall|k: int| 0 <= k < vocab implies #[trigger] entry(mid, base as int, 1, k)
            == entry(e, 0, 1, k) by {}
        lemma_sum_chain_moved(mid, base as int, 1, e, 0, 1, vocab as int, zero, sum);
    }
    let mut i: usize = 0;
    while i < vocab
        invariant
            i <= vocab,
            vocab <= vocab_padded,
            probs.len() == mid.len(),
            base + vocab_padded <= probs.len(),
            forall|j: int|
                base <= j < base + i ==> is_div(mid[j], sum, #[trigger] probs[j]),
            forall|j: int| 0 <= j < probs.len() && !(base <= j < base + i) ==> probs[j] == mid[j],
        decreases vocab - i,
    {
        probs[base + i] = probs[base + i].div(sum);
        i += 1;
    }
    let mut i: usize = vocab;
    while i < vocab_padded
        invariant
            vocab <= i <= vocab_padded,
            probs.len() == mid.len(),
            base + vocab_padded <= probs.len(),
            forall|j: int|
                base <= j < base + vocab ==> is_div(mid[j], sum, #[trigger] probs[j]),
            forall|j: int| base + vocab <= j < base + i ==> is_num(0, #[trigger] probs[j]),
            forall|j: int|
                0 <= j < probs.len() && !(base <= j < base + i) ==> probs[j] == mid[j],
        decreases vocab_padded - i,
    {
        probs[base + i] = S::from_usize(0);
        i += 1;
    }
    proof {
        let prow = probs@.subrange(base as int, base + vocab_padded);
        assert forall|k: int| 0 <= k < vocab implies exp_shifted(
            lrow[k],
            maxval,
            #[trigger] e[k],
        ) by {
            assert(e[k] == mid[base + k]);
        }
        assert forall|k: int| 0 <= k < vocab implies is_div(e[k], sum, #[trigger] prow[k]) by {
            assert(prow[k] == probs[base + k]);
        }
        assert forall|k: int| vocab <= k < vocab_padded implies is_num(0, #[trigger] prow[k]) by {
            assert(prow[k] == probs[base + k]);
        }
        assert(max_chain(lrow, vocab as int, ninf, maxval));
        assert(sum_chain(e, 0, 1, vocab as int, zero, sum));
    }
}

/// `l` is the loss of a target whose probability is `p`: `-ln(p)`.
pub open spec fn xent_loss<S: Scalar>(p: S, l: S) -> bool {
    exists|lg: S| is_ln(p, lg) && is_neg(lg, l)
}

/// The targets of the first `rows` positions name entries of a row of
/// `width` entries.
pub open spec fn targets_in_row(targets: Seq<i32>, rows: int, width: int) -> bool {
    forall|r: int| 0 <= r < rows ==> 0 <= #[trigger] targets[r] < width
}

/// What the forward pass leaves in `losses`.
pub open spec fn crossentropy_forward_post<S: Scalar>(
    before: Seq<S>,
    after: Seq<S>,
    probs: Seq<S>,
    targets: Seq<i32>,
    rows: int,
    vocab_padded: int,
) -> bool {
    &&& after.len() == before.len()
    &&& forall|r: int|
        0 <= r < rows ==> xent_loss(
            probs[at2(r, targets[r] as int, vocab_padded)],
            #[trigger] after[r],
        )
    &&& forall|j: int| rows <= j < before.len() ==> after[j] == before[j]
}

/// Writes to `losses[r]` the negative logarithm of the probability that row
/// `r` of `probs` gives to the target of that position.
///
/// No probability is clamped: a zero probability yields whatever the
/// logarithm makes of it.
pub fn crossentropy_forward<S: Scalar>(
    losses: &mut [S],
    probs: &[S],
    targets: &[i32],
    batch: usize,
    time: usize,
    vocab_padded: usize,
)
    requires
        batch * time <= old(losses).len(),
        batch * time <= targets.len(),
        batch * time * vocab_padded <= probs.len(),
        targets_in_row(targets@, batch * time, vocab_padded as int),
    ensures
        crossentropy_forward_post(
            old(losses)@,
            final(losses)@,
            probs@,
            targets@,
            batch * time,
            vocab_padded as int,
        ),
{
    let rows = batch * time;
    let mut r: usize = 0;
    while r < rows
        invariant
            r <= rows,
            losses.len() == old(losses).len(),
            rows <= losses.len(),
            rows <= targets.len(),
            rows * vocab_padded <= probs.len(),
            targets_in_row(targets@, rows as int, vocab_padded as int),
            forall|r2: int|
                0 <= r2 < r ==> xent_loss(
                    probs[at2(r2, targets[r2] as int, vocab_padded as int)],
                    #[trigger] losses[r2],
                ),
            forall|j: int| r <= j < losses.len() ==> losses[j] == old(losses)[j],
        decreases rows - r,
    {
        let ix = targets[r] as usize;
        proof {
            lemma_at2_in_table(r as int, ix as int, rows as int, vocab_padded as int);
        }
        let p = probs[r * vocab_padded + ix];
        losses[r] = p.ln().neg();
        r += 1;
    }
}

/// `new` is `old` plus the gradient of the loss with respect to one logit:
/// `(p - indicator) * dloss`, where the indicator is one at the target (`hit`)
/// and zero elsewhere.
pub open spec fn xent_pull<S: Scalar>(p: S, hit: bool, dloss: S, old: S, new: S) -> bool {
    exists|ind: S, d: S, g: S|
        #![trigger is_sub(p, ind, d), is_mul(d, dloss, g)]
        is_num(
            if hit {
                1
            } else {
                0
            },
            ind,
        ) && is_sub(p, ind, d) && is_mul(d, dloss, g) && is_add(old, g, new)
}

/// What the backward pass adds to `dlogits`, and what it leaves alone.
pub open spec fn crossentropy_softmax_backward_post<S: Scalar>(
    before: Seq<S>,
    after: Seq<S>,
    dlosses: Seq<S>,
    probs: Seq<S>,
    targets: Seq<i32>,
    rows: int,
    vocab: int,
    vocab_padded: int,
) -> bool {
    &&& after.len() == before.len()
    &&& forall|r: int, i: int|
        0 <= r < rows && 0 <= i < vocab ==> xent_pull(
            probs[at2(r, i, vocab_padded)],
            targets[r] == i,
            dlosses[r],
            before[at2(r, i, vocab_padded)],
            #[trigger] after[at2(r, i, vocab_padded)],
        )
    &&& forall|r: int, i: int|
        0 <= r < rows && vocab <= i < vocab_padded ==> #[trigger] after[at2(r, i, vocab_padded)]
            == before[at2(r, i, vocab_padded)]
    &&& forall|j: int| rows * vocab_padded <= j < before.len() ==> after[j] == before[j]
}

/// Adds to the first `vocab` entries of each row of `dlogits` the gradient of
/// the loss through softmax and cross-entropy together,
/// `(probs[r, i] - [i == targets[r]]) * dlosses[r]`. The padding of a row is
/// left as it is.
pub fn crossentropy_softmax_backward<S: Scalar>(
    dlogits: &mut [S],
    dlosses: &[S],
    probs: &[S],
    targets: &[i32],
    batch: usize,
    time: usize,
    vocab: usize,
    vocab_padded: usize,
)
    requires
        vocab <= vocab_padded,
        batch * time * vocab_padded <= old(dlogits).len(),
        batch * time * vocab_padded <= probs.len(),
        batch * time <= dlosses.len(),
        batch * time <= targets.len(),
    ensures
        crossentropy_softmax_backward_post(
            old(dlogits)@,
            final(dlogits)@,
            dlosses@,
            probs@,
            targets@,
            batch * time,
            vocab as int,
            vocab_padded as int,
        ),
{
    let rows = batch * time;
    let mut r: usize = 0;
    while r < rows
        invariant
            r <= rows,
            vocab <= vocab_padded,
            dlogits.len() == old(dlogits).len(),
            rows * vocab_padded <= dlogits.len(),
            rows * vocab_padded <= probs.len(),
            rows <= dlosses.len(),
            rows <= targets.len(),
            forall|r2: int, i: int|
                0 <= r2 < r && 0 <= i < vocab ==> xent_pull(
                    probs[at2(r2, i, vocab_padded as int)],
                    targets[r2] == i,
                    dlosses[r2],
                    old(dlogits)[at2(r2, i, vocab_padded as int)],
                    #[trigger] dlogits[at2(r2, i, vocab_padded as int)],
                ),
            forall|r2: int, i: int|
                0 <= r2 < r && vocab <= i < vocab_padded ==> #[trigger] dlogits[at2(
                    r2,
                    i,
                    vocab_padded as int,
                )] == old(dlogits)[at2(r2, i, vocab_padded as int)],
            forall|j: int| r * vocab_padded <= j < dlogits.len() ==> dlogits[j] == old(dlogits)[j],
        decreases rows - r,
    {
        proof {
            lemma_row_span(r as int, rows as int, vocab_padded as int);
        }
        let base = r * vocab_padded;
        let dloss = dlosses[r];
        let tgt = targets[r];
        let ghost before = dlogits@;
        let mut i: usize = 0;
        while i < vocab
            invariant
                i <= vocab,
                vocab <= vocab_padded,
                dlogits.len() == before.len(),
                base + vocab_padded <= dlogits.len(),
                base + vocab_padded <= probs.len(),
                forall|j: int|
                    base <= j < base + i ==> xent_pull(
                        probs[j],
                        tgt == j - base,
                        dloss,
                        before[j],
                        #[trigger] dlogits[j],
                    ),
                forall|j: int|
                    0 <= j < dlogits.len() && !(base <= j < base + i) ==> dlogits[j] == before[j],
            decreases vocab - i,
        {
            let p = probs[base + i];
            let hit = tgt >= 0 && tgt as usize == i;
            let ind = if hit {
                S::from_usize(1)
            } else {
                S::from_usize(0)
            };
            let g = p.sub(ind).mul(dloss);
            dlogits[base + i] = dlogits[base + i].add(g);
            i += 1;
        }
        proof {
            assert((r + 1) * vocab_padded == r * vocab_padded + vocab_padded) by (nonlinear_arith);
            assert forall|r2: int, i2: int| 0 <= r2 < r + 1 && 0 <= i2 < vocab implies xent_pull(
                probs[at2(r2, i2, vocab_padded as int)],
                targets[r2] == i2,
                dlosses[r2],
                old(dlogits)[at2(r2, i2, vocab_padded as int)],
                #[trigger] dlogits[at2(r2, i2, vocab_padded as int)],
            ) by {
                let k = at2(r2, i2, vocab_padded as int);
                lemma_at2_in_table(r2, i2, rows as int, vocab_padded as int);
                if r2 == r {
                    assert(k == base + i2);
                } else {
                    lemma_at2_in_table(r2, i2, r as int, vocab_padded as int);
                    assert(dlogits[k] == before[k]);
                }
            }
            assert forall|r2: int, i2: int|
                0 <= r2 < r + 1 && vocab <= i2 < vocab_padded implies #[trigger] dlogits[at2(
                r2,
                i2,
                vocab_padded as int,
            )] == old(dlogits)[at2(r2, i2, vocab_padded as int)] by {
                let k = at2(r2, i2, vocab_padded as int);
                lemma_at2_in_table(r2, i2, rows as int, vocab_padded as int);
                if r2 == r {
                    assert(k == base + i2);
                } else {
                    lemma_at2_in_table(r2, i2, r as int, vocab_padded as int);
                    assert(dlogits[k] == before[k]);
                }
            }
        }
        r += 1;
    }
}

/// With an arithmetic that is a function, a row of logits has one softmax.
pub proof fn lemma_softmax_row_unique<S: Scalar>(
    logits: Seq<S>,
    probs1: Seq<S>,
    probs2: Seq<S>,
    vocab: int,
    vocab_padded: int,
)
    requires
        functional::<S>(),
        softmax_row(logits, probs1, vocab, vocab_padded),
        softmax_row(logits, probs2, vocab, vocab_padded),
    ensures
        forall|i: int| 0 <= i < vocab_padded ==> #[trigger] probs1[i] == probs2[i],
{
    let (ninf1, max1, e1, zero1, sum1) = choose|ninf: S, maxval: S, e: Seq<S>, zero: S, sum: S|
        is_neg_infinity(ninf) && #[trigger] max_chain(logits, vocab, ninf, maxval) && (forall|
            i: int,
        |
            0 <= i < vocab ==> exp_shifted(logits[i], maxval, #[trigger] e[i])) && is_num(0, zero)
            && #[trigger] sum_chain(e, 0, 1, vocab, zero, sum) && (forall|i: int|
            0 <= i < vocab ==> is_div(e[i], sum, #[trigger] probs1[i])) && (forall|i: int|
            vocab <= i < vocab_padded ==> is_num(0, #[trigger] probs1[i]));
    let (ninf2, max2, e2, zero2, sum2) = choose|ninf: S, maxval: S, e: Seq<S>, zero: S, sum: S|
        is_neg_infinity(ninf) && #[trigger] max_chain(logits, vocab, ninf, maxval) && (forall|
            i: int,
        |
            0 <= i < vocab ==> exp_shifted(logits[i], maxval, #[trigger] e[i])) && is_num(0, zero)
            && #[trigger] sum_chain(e, 0, 1, vocab, zero, sum) && (forall|i: int|
            0 <= i < vocab ==> is_div(e[i], sum, #[trigger] probs2[i])) && (forall|i: int|
            vocab <= i < vocab_padded ==> is_num(0, #[trigger] probs2[i]));
    lemma_max_chain_unique(logits, vocab, ninf1, max1, max2);
    assert forall|k: int| 0 <= k < vocab implies #[trigger] entry(e1, 0, 1, k) == entry(
        e2,
        0,
        1,
        k,
    ) by {
        assert(exp_shifted(logits[k], max1, e1[k]));
        assert(exp_shifted(logits[k], max1, e2[k]));
    }
    lemma_sum_chain_moved(e1, 0, 1, e2, 0, 1, vocab, zero1, sum1);
    lemma_sum_chain_unique(e2, 0, 1, vocab, zero1, sum1, sum2);
    assert forall|i: int| 0 <= i < vocab_padded implies #[trigger] probs1[i] == probs2[i] by {
        if i < vocab {
            assert(entry(e1, 0, 1, i) == entry(e2, 0, 1, i));
            assert(is_div(e1[i], sum1, probs1[i]));
            assert(is_div(e2[i], sum2, probs2[i]));
        } else {
            assert(is_num(0, probs1[i]));
            assert(is_num(0, probs2[i]));
        }
    }
}

/// The forward pass overwrites its output: with an arithmetic that is a
/// function, two runs on the same logits leave the same probabilities in every
/// row, padding included, whatever the output buffers held before.
pub proof fn lemma_softmax_forward_determined<S: Scalar>(
    before1: Seq<S>,
    after1: Seq<S>,
    before2: Seq<S>,
    after2: Seq<S>,
    logits: Seq<S>,
    rows: int,
    vocab: int,
    vocab_padded: int,
)
    requires
        functional::<S>(),
        softmax_forward_post(before1, after1, logits, rows, vocab, vocab_padded),
        softmax_forward_post(before2, after2, logits, rows, vocab, vocab_padded),
    ensures
        forall|r: int, i: int|
            0 <= r < rows && 0 <= i < vocab_padded ==> #[trigger] row(after1, r, vocab_padded)[i]
                == row(after2, r, vocab_padded)[i],
{
    assert forall|r: int, i: int|
        0 <= r < rows && 0 <= i < vocab_padded implies #[trigger] row(after1, r, vocab_padded)[i]
        == row(after2, r, vocab_padded)[i] by {
        assert(softmax_row(
            row(logits, r, vocab_padded),
            row(after1, r, vocab_padded),
            vocab,
            vocab_padded,
        ));
        assert(softmax_row(
            row(logits, r, vocab_padded),
            row(after2, r, vocab_padded),
            vocab,
            vocab_padded,
        ));
        lemma_softmax_row_unique(
            row(logits, r, vocab_padded),
            row(after1, r, vocab_padded),
            row(after2, r, vocab_padded),
            vocab,
            vocab_padded,
        );
    }
}

/// The forward pass overwrites its output: with an arithmetic that is a
/// function, two runs on the same probabilities and targets leave the same
/// losses, whatever the output buffers held before.
pub proof fn lemma_crossentropy_forward_determined<S: Scalar>(
    before1: Seq<S>,
    after1: Seq<S>,
    before2: Seq<S>,
    after2: Seq<S>,
    probs: Seq<S>,
    targets: Seq<i32>,
    rows: int,
    vocab_padded: int,
)
    requires
        functional::<S>(),
        crossentropy_forward_post(before1, after1, probs, targets, rows, vocab_padded),
        crossentropy_forward_post(before2, after2, probs, targets, rows, vocab_padded),
    ensures
        forall|r: int| 0 <= r < rows ==> #[trigger] after1[r] == after2[r],
{
    assert forall|r: int| 0 <= r < rows implies #[trigger] after1[r] == after2[r] by {
        let p = probs[at2(r, targets[r] as int, vocab_padded)];
        assert(xent_loss(p, after1[r]));
        assert(xent_loss(p, after2[r]));
    }
}

/// With an arithmetic that is a function, two runs of the backward pass from
/// the same state add the same to every logit of the vocabulary.
pub proof fn lemma_crossentropy_softmax_backward_determined<S: Scalar>(
    before: Seq<S>,
    after1: Seq<S>,
    after2: Seq<S>,
    dlosses: Seq<S>,
    probs: Seq<S>,
    targets: Seq<i32>,
    rows: int,
    vocab: int,
    vocab_padded: int,
)
    requires
        functional::<S>(),
        crossentropy_softmax_backward_post(
            before,
            after1,
            dlosses,
            probs,
            targets,
            rows,
            vocab,
            vocab_padded,
        ),
        crossentropy_softmax_backward_post(
            before,
            after2,
            dlosses,
            probs,
            targets,
            rows,
            vocab,
            vocab_padded,
        ),
    ensures
        forall|r: int, i: int|
            0 <= r < rows && 0 <= i < vocab_padded ==> #[trigger] after1[at2(r, i, vocab_padded)]
                == after2[at2(r, i, vocab_padded)],
{
    assert forall|r: int, i: int|
        0 <= r < rows && 0 <= i < vocab_padded implies #[trigger] after1[at2(r, i, vocab_padded)]
        == after2[at2(r, i, vocab_padded)] by {
        let k = at2(r, i, vocab_padded);
        if i < vocab {
            assert(xent_pull(probs[k], targets[r] == i, dlosses[r], before[k], after1[k]));
            assert(xent_pull(probs[k], targets[r] == i, dlosses[r], before[k], after2[k]));
        } else {
            assert(after1[k] == before[k]);
            assert(after2[k] == before[k]);
        }
    }
}

/// The padding of every row of probabilities is zero after the forward pass.
pub proof fn lemma_softmax_padding_zero<S: Scalar>(
    before: Seq<S>,
    after: Seq<S>,
    logits: Seq<S>,
    rows: int,
    vocab: int,
    vocab_padded: int,
)
    requires
        softmax_forward_post(before, after, logits, rows, vocab, vocab_padded),
    ensures
        forall|r: int, i: int|
            0 <= r < rows && vocab <= i < vocab_padded ==> is_num(
                0,
                #[trigger] row(after, r, vocab_padded)[i],
            ),
{
    assert forall|r: int, i: int| 0 <= r < rows && vocab <= i < vocab_padded implies is_num(
        0,
        #[trigger] row(after, r, vocab_padded)[i],
    ) by {
        assert(softmax_row(
            row(logits, r, vocab_padded),
            row(after, r, vocab_padded),
            vocab,
            vocab_padded,
        ));
    }
}

/// The backward pass only adds: with exact additions, two passes with the same
/// inputs add to every logit of the vocabulary twice what one pass adds.
pub proof fn lemma_crossentropy_softmax_backward_twice<S: Scalar>(
    before: Seq<S>,
    mid: Seq<S>,
    after: Seq<S>,
    dlosses: Seq<S>,
    probs: Seq<S>,
    targets: Seq<i32>,
    rows: int,
    vocab: int,
    vocab_padded: int,
)
    requires
        exact_sums::<S>(),
        crossentropy_softmax_backward_post(
            before,
            mid,
            dlosses,
            probs,
            targets,
            rows,
            vocab,
            vocab_padded,
        ),
        crossentropy_softmax_backward_post(
            mid,
            after,
            dlosses,
            probs,
            targets,
            rows,
            vocab,
            vocab_padded,
        ),
    ensures
        forall|r: int, i: int|
            0 <= r < rows && 0 <= i < vocab ==> grew_twice(
                before[at2(r, i, vocab_padded)],
                mid[at2(r, i, vocab_padded)],
                #[trigger] after[at2(r, i, vocab_padded)],
            ),
{
    assert forall|r: int, i: int| 0 <= r < rows && 0 <= i < vocab implies grew_twice(
        before[at2(r, i, vocab_padded)],
        mid[at2(r, i, vocab_padded)],
        #[trigger] after[at2(r, i, vocab_padded)],
    ) by {
        let k = at2(r, i, vocab_padded);
        let p = probs[k];
        let dloss = dlosses[r];
        let hit = targets[r] == i;
        assert(xent_pull(p, hit, dloss, before[k], mid[k]));
        assert(xent_pull(p, hit, dloss, mid[k], after[k]));
        let (ind1, d1, g1) = choose|ind: S, d: S, g: S|
            #![trigger is_sub(p, ind, d), is_mul(d, dloss, g)]
            is_num(
                if hit {
                    1
                } else {
                    0
                },
                ind,
            ) && is_sub(p, ind, d) && is_mul(d, dloss, g) && is_add(before[k], g, mid[k]);
        let (ind2, d2, g2) = choose|ind: S, d: S, g: S|
            #![trigger is_sub(p, ind, d), is_mul(d, dloss, g)]
            is_num(
                if hit {
                    1
                } else {
                    0
                },
                ind,
            ) && is_sub(p, ind, d) && is_mul(d, dloss, g) && is_add(mid[k], g, after[k]);
        assert(ind1 == ind2);
        assert(d1 == d2);
        assert(g1 == g2);
        lemma_added_twice(before[k], g1, mid[k], after[k]);
    }
}

} // verus!
