//! The forward pass: the scores of a position against the positions not after
//! it, their softmax, and the values weighted by it.
use crate::attention::index::{
    future_scores_kept, head_before, k_at, lemma_future_step, lemma_head_offsets, q_at, v_at,
};
use crate::fold::{
    accumulate_weighted, dot, entry, is_mul_add, lemma_mac_chain_moved, lemma_mac_chain_unique,
    lemma_stride_in_run, lemma_sum_chain_moved, lemma_sum_chain_unique, mac_chain, sum_chain,
};
use crate::layout::{at2, at3, lemma_at2_ordered, lemma_at3_unique, row};
use crate::scalar::{
    Scalar, functional, is_add, is_div, is_gt, is_mul, is_neg_infinity, is_num, is_same, is_sqrt,
};
use crate::softmax::{exp_shifted, lemma_max_chain_moved, lemma_max_chain_unique, max_chain};
use vstd::prelude::*;

verus! {

/// `sc` is the factor that scores are scaled by, `1 / sqrt(hs)`.
pub open spec fn att_scale<S: Scalar>(hs: int, sc: S) -> bool {
    exists|one: S, n: S, sq: S|
        is_num(1, one) && is_num(hs as usize, n) && is_sqrt(n, sq) && is_div(one, sq, sc)
}

/// `v` is the score of the query at `qoff` against the key at `koff`: their
/// dot product over `hs` entries, added in order to zero, times the scale.
pub open spec fn att_score<S: Scalar>(inp: Seq<S>, qoff: int, koff: int, hs: int, scale: S, v: S) -> bool {
    exists|zero: S, d: S|
        is_num(0, zero) && mac_chain(inp, qoff, 1, inp, koff, 1, hs, zero, d) && is_mul(
            d,
            scale,
            v,
        )
}

/// `inv` is what the exponentials are multiplied by to normalise them: the
/// reciprocal of their sum, or zero where the sum compares equal to zero.
pub open spec fn att_inverse<S: Scalar>(sum: S, inv: S) -> bool {
    exists|zero: S, g: bool|
        is_num(0, zero) && #[trigger] is_same(sum, zero, g) && if g {
            is_num(0, inv)
        } else {
            exists|one: S| is_num(1, one) && #[trigger] is_div(one, sum, inv)
        }
}

/// The row `att` holds the softmax of the first `n` entries of the row `pre`,
/// followed by zeros up to `time`: with the running maximum `maxval` of the
/// scores from negative infinity, `att[k] = e[k] * inv` for
/// `e[k] = exp(pre[k] - maxval)` and `inv` the inverse of the `e[k]` added in
/// order to zero.
pub open spec fn att_probs<S: Scalar>(pre: Seq<S>, att: Seq<S>, n: int, time: int) -> bool {
    exists|ninf: S, maxval: S, e: Seq<S>, zero: S, sum: S, inv: S|
        is_neg_infinity(ninf) && #[trigger] max_chain(pre, n, ninf, maxval) && (forall|k: int|
            0 <= k < n ==> exp_shifted(pre[k], maxval, #[trigger] e[k])) && is_num(0, zero)
            && #[trigger] sum_chain(e, 0, 1, n, zero, sum) && #[trigger] att_inverse(sum, inv)
            && (forall|k: int| 0 <= k < n ==> is_mul(e[k], inv, #[trigger] att[k])) && (forall|
            k: int,
        | n <= k < time ==> is_num(0, #[trigger] att[k]))
}

/// `o` is one entry of the output of a head: the values at `voff`,
/// `voff + stride`, ... weighted by the first `n` probabilities of the row
/// `att`, added in order to zero.
pub open spec fn att_mix<S: Scalar>(att: Seq<S>, inp: Seq<S>, voff: int, stride: int, n: int, o: S) -> bool {
    exists|zero: S| is_num(0, zero) && #[trigger] mac_chain(att, 0, 1, inp, voff, stride, n, zero, o)
}

/// What one head at one position computes. `pre` and `att` are its rows of
/// scores and probabilities, `out` its `hs` outputs; its query lies at `qoff`,
/// the keys and values of the positions `0, 1, ...` of its sequence at `k0`,
/// `k0 + stride`, ... and `v0`, `v0 + stride`, ...; it looks at the positions
/// up to and including `t`.
pub open spec fn head_post<S: Scalar>(
    inp: Seq<S>,
    pre: Seq<S>,
    att: Seq<S>,
    out: Seq<S>,
    scale: S,
    qoff: int,
    k0: int,
    v0: int,
    stride: int,
    t: int,
    time: int,
    hs: int,
) -> bool {
    &&& forall|t2: int|
        0 <= t2 <= t ==> att_score(inp, qoff, k0 + t2 * stride, hs, scale, #[trigger] pre[t2])
    &&& att_probs(pre, att, t + 1, time)
    &&& forall|i: int| 0 <= i < hs ==> att_mix(att, inp, v0 + i, stride, t + 1, #[trigger] out[i])
}

/// Computes one head at one position: its row of scores at
/// `preatt[pbase..pbase + time]` (the first `t + 1` entries of it), its row of
/// probabilities at `att[pbase..pbase + time]`, and its outputs at
/// `out[obase..obase + hs]`.
pub fn attention_head<S: Scalar>(
    out: &mut [S],
    preatt: &mut [S],
    att: &mut [S],
    inp: &[S],
    scale: S,
    obase: usize,
    pbase: usize,
    qoff: usize,
    k0: usize,
    v0: usize,
    stride: usize,
    t: usize,
    time: usize,
    hs: usize,
)
    requires
        t < time,
        obase + hs <= old(out).len(),
        pbase + time <= old(preatt).len(),
        pbase + time <= old(att).len(),
        qoff + hs <= inp.len(),
        k0 + t * stride + hs <= inp.len(),
        v0 + t * stride + hs <= inp.len(),
    ensures
        final(out).len() == old(out).len(),
        final(preatt).len() == old(preatt).len(),
        final(att).len() == old(att).len(),
        head_post(
            inp@,
            final(preatt)@.subrange(pbase as int, pbase + time),
            final(att)@.subrange(pbase as int, pbase + time),
            final(out)@.subrange(obase as int, obase + hs),
            scale,
            qoff as int,
            k0 as int,
            v0 as int,
            stride as int,
            t as int,
            time as int,
            hs as int,
        ),
        forall|j: int|
            0 <= j < old(out).len() && !(obase <= j < obase + hs) ==> final(out)[j] == old(out)[j],
        forall|j: int|
            0 <= j < old(preatt).len() && !(pbase <= j <= pbase + t) ==> final(preatt)[j]
                == old(preatt)[j],
        forall|j: int|
            0 <= j < old(att).len() && !(pbase <= j < pbase + time) ==> final(att)[j] == old(att)[j],
{
    let zero = S::from_usize(0);
    let ninf = S::neg_infinity();
    let mut maxval = ninf;
    let ghost pre0 = preatt@;
    let mut t2: usize = 0;
    while t2 <= t
        invariant
            t2 <= t + 1,
            t < time,
            is_num(0, zero),
            preatt.len() == pre0.len(),
            pbase + time <= preatt.len(),
            qoff + hs <= inp.len(),
            k0 + t * stride + hs <= inp.len(),
            forall|j: int|
                pbase <= j < pbase + t2 ==> att_score(
                    inp@,
                    qoff as int,
                    k0 + (j - pbase) * stride,
                    hs as int,
                    scale,
                    #[trigger] preatt[j],
                ),
            max_chain(preatt@.subrange(pbase as int, pbase + time), t2 as int, ninf, maxval),
            forall|j: int|
                0 <= j < preatt.len() && !(pbase <= j < pbase + t2) ==> preatt[j] == pre0[j],
        decreases t + 1 - t2,
    {
        proof {
            lemma_stride_in_run(t2 as int, t + 1, stride as int);
        }
        let koff = k0 + t2 * stride;
        let d = dot(inp, qoff, inp, koff, hs, zero);
        let val = d.mul(scale);
        let ghost pm = maxval;
        let g = val.gt(maxval);
        if g {
            maxval = val;
        }
        let ghost prev = preatt@;
        preatt[pbase + t2] = val;
        proof {
            let old_row = prev.subrange(pbase as int, pbase + time);
            let new_row = preatt@.subrange(pbase as int, pbase + time);
            assert forall|k: int| 0 <= k < t2 implies #[trigger] old_row[k] == new_row[k] by {}
            lemma_max_chain_moved(old_row, new_row, t2 as int, ninf, pm);
            assert(new_row[(t2 + 1) - 1] == val);
            assert(is_gt(val, pm, g));
            assert(att_score(inp@, qoff as int, k0 + t2 * stride, hs as int, scale, val));
        }
        t2 += 1;
    }
    let ghost pre1 = preatt@;
    let ghost prow = pre1.subrange(pbase as int, pbase + time);
    let mut expsum = zero;
    let ghost att0 = att@;
    let mut t2: usize = 0;
    while t2 <= t
        invariant
            t2 <= t + 1,
            t < time,
            preatt@ == pre1,
            att.len() == att0.len(),
            pbase + time <= preatt.len(),
            pbase + time <= att.len(),
            sum_chain(att@, pbase as int, 1, t2 as int, zero, expsum),
            forall|j: int|
                pbase <= j < pbase + t2 ==> exp_shifted(pre1[j], maxval, #[trigger] att[j]),
            forall|j: int| 0 <= j < att.len() && !(pbase <= j < pbase + t2) ==> att[j] == att0[j],
        decreases t + 1 - t2,
    {
        let ev = preatt[pbase + t2].sub(maxval).exp();
        let ghost prev = att@;
        let ghost psum = expsum;
        expsum = expsum.add(ev);
        att[pbase + t2] = ev;
        proof {
            assert forall|k: int| 0 <= k < t2 implies #[trigger] entry(prev, pbase as int, 1, k)
                == entry(att@, pbase as int, 1, k) by {}
            lemma_sum_chain_moved(
                prev,
                pbase as int,
                1,
                att@,
                pbase as int,
                1,
                t2 as int,
                zero,
                psum,
            );
            assert(att@[pbase + ((t2 + 1) - 1) * 1] == ev);
            assert(is_add(psum, ev, expsum));
        }
        t2 += 1;
    }
    let ghost mid = att@;
    let ghost e = mid.subrange(pbase as int, pbase + t + 1);
    proof {
        assert forall|k: int| 0 <= k < t + 1 implies #[trigger] entry(mid, pbase as int, 1, k)
            == entry(e, 0, 1, k) by {}
        lemma_sum_chain_moved(mid, pbase as int, 1, e, 0, 1, t + 1, zero, expsum);
    }
    let g = expsum.same(zero);
    let inv = if g {
        S::from_usize(0)
    } else {
        let one = S::from_usize(1);
        one.div(expsum)
    };
    assert(att_inverse(expsum, inv)) by {
        assert(is_same(expsum, zero, g));
    }
    let mut t2: usize = 0;
    while t2 < time
        invariant
            t2 <= time,
            t < time,
            att.len() == mid.len(),
            pbase + time <= att.len(),
            forall|j: int|
                pbase <= j < pbase + t2 && j <= pbase + t ==> is_mul(mid[j], inv, #[trigger] att[j]),
            forall|j: int| pbase + t < j < pbase + t2 ==> is_num(0, #[trigger] att[j]),
            forall|j: int| 0 <= j < att.len() && !(pbase <= j < pbase + t2) ==> att[j] == mid[j],
        decreases time - t2,
    {
        if t2 <= t {
            att[pbase + t2] = att[pbase + t2].mul(inv);
        } else {
            att[pbase + t2] = S::from_usize(0);
        }
        t2 += 1;
    }
    let ghost arow = att@.subrange(pbase as int, pbase + time);
    proof {
        assert forall|k: int| 0 <= k < t + 1 implies exp_shifted(
            prow[k],
            maxval,
            #[trigger] e[k],
        ) by {
            assert(e[k] == mid[pbase + k]);
            assert(prow[k] == pre1[pbase + k]);
        }
        assert forall|k: int| 0 <= k < t + 1 implies is_mul(e[k], inv, #[trigger] arow[k]) by {
            assert(arow[k] == att[pbase + k]);
            assert(e[k] == mid[pbase + k]);
        }
        assert forall|k: int| t + 1 <= k < time implies is_num(0, #[trigger] arow[k]) by {
            assert(arow[k] == att[pbase + k]);
        }
        assert(max_chain(prow, t + 1, ninf, maxval));
        assert(sum_chain(e, 0, 1, t + 1, zero, expsum));
        assert(att_probs(prow, arow, t + 1, time as int));
    }
    let ghost out0 = out@;
    let mut i: usize = 0;
    while i < hs
        invariant
            i <= hs,
            out.len() == out0.len(),
            obase + hs <= out.len(),
            forall|j: int| obase <= j < obase + i ==> #[trigger] out[j] == zero,
            forall|j: int| 0 <= j < out.len() && !(obase <= j < obase + i) ==> out[j] == out0[j],
        decreases hs - i,
    {
        out[obase + i] = zero;
        i += 1;
    }
    let mut t2: usize = 0;
    while t2 <= t
        invariant
            t2 <= t + 1,
            t < time,
            out.len() == out0.len(),
            obase + hs <= out.len(),
            pbase + time <= att.len(),
            v0 + t * stride + hs <= inp.len(),
            arow == att@.subrange(pbase as int, pbase + time),
            forall|j: int|
                obase <= j < obase + hs ==> mac_chain(
                    arow,
                    0,
                    1,
                    inp@,
                    v0 + (j - obase),
                    stride as int,
                    t2 as int,
                    zero,
                    #[trigger] out[j],
                ),
            forall|j: int| 0 <= j < out.len() && !(obase <= j < obase + hs) ==> out[j] == out0[j],
        decreases t + 1 - t2,
    {
        proof {
            lemma_stride_in_run(t2 as int, t + 1, stride as int);
        }
        let a = att[pbase + t2];
        let voff = v0 + t2 * stride;
        let ghost mid = out@;
        accumulate_weighted(out, obase, a, inp, voff, hs);
        proof {
            assert forall|j: int| obase <= j < obase + hs implies mac_chain(
                arow,
                0,
                1,
                inp@,
                v0 + (j - obase),
                stride as int,
                t2 + 1,
                zero,
                #[trigger] out[j],
            ) by {
                assert(is_mul_add(mid[j], a, inp@[voff + (j - obase)], out[j]));
                assert(arow[0 + ((t2 + 1) - 1) * 1] == a);
                assert(inp@[v0 + (j - obase) + ((t2 + 1) - 1) * stride] == inp@[voff + (j
                    - obase)]);
                assert(mac_chain(
                    arow,
                    0,
                    1,
                    inp@,
                    v0 + (j - obase),
                    stride as int,
                    t2 as int,
                    zero,
                    mid[j],
                ));
            }
        }
        t2 += 1;
    }
    proof {
        let oseg = out@.subrange(obase as int, obase + hs);
        assert forall|k: int| 0 <= k < hs implies att_mix(
            arow,
            inp@,
            v0 + k,
            stride as int,
            t + 1,
            #[trigger] oseg[k],
        ) by {
            assert(oseg[k] == out[obase + k]);
        }
        let pfin = preatt@.subrange(pbase as int, pbase + time);
        assert(pfin =~= prow);
        assert forall|k: int| 0 <= k <= t implies att_score(
            inp@,
            qoff as int,
            k0 + k * stride,
            hs as int,
            scale,
            #[trigger] prow[k],
        ) by {
            assert(prow[k] == pre1[pbase + k]);
        }
    }
}

/// What head `h` at position `(b, t)` has computed, in the buffers as a
/// whole.
pub open spec fn head_at<S: Scalar>(
    inp: Seq<S>,
    preatt: Seq<S>,
    att: Seq<S>,
    out: Seq<S>,
    scale: S,
    b: int,
    h: int,
    t: int,
    time: int,
    chan: int,
    heads: int,
) -> bool {
    let hs = chan / heads;
    head_post(
        inp,
        row(preatt, at3(b, h, t, heads, time), time),
        row(att, at3(b, h, t, heads, time), time),
        row(out, at3(b, t, h, time, heads), hs),
        scale,
        q_at(b, t, h, 0, time, chan, hs),
        k_at(b, 0, h, 0, time, chan, hs),
        v_at(b, 0, h, 0, time, chan, hs),
        3 * chan,
        t,
        time,
        hs,
    )
}

/// Every head before `(b, t, h)` has computed its part.
pub open spec fn heads_done<S: Scalar>(
    inp: Seq<S>,
    preatt: Seq<S>,
    att: Seq<S>,
    out: Seq<S>,
    scale: S,
    b: int,
    t: int,
    h: int,
    batch: int,
    time: int,
    chan: int,
    heads: int,
) -> bool {
    forall|b2: int, h2: int, t2: int|
        0 <= b2 < batch && 0 <= h2 < heads && 0 <= t2 < time && head_before(b2, t2, h2, b, t, h)
            ==> #[trigger] head_at(inp, preatt, att, out, scale, b2, h2, t2, time, chan, heads)
}

/// What the forward pass leaves in `out`, `preatt` and `att`.
pub open spec fn attention_forward_post<S: Scalar>(
    out_before: Seq<S>,
    out: Seq<S>,
    preatt_before: Seq<S>,
    preatt: Seq<S>,
    att_before: Seq<S>,
    att: Seq<S>,
    inp: Seq<S>,
    batch: int,
    time: int,
    chan: int,
    heads: int,
) -> bool {
    &&& out.len() == out_before.len()
    &&& preatt.len() == preatt_before.len()
    &&& att.len() == att_before.len()
    &&& exists|scale: S| #[trigger]
        att_scale(chan / heads, scale) && heads_done(
            inp,
            preatt,
            att,
            out,
            scale,
            batch,
            0,
            0,
            batch,
            time,
            chan,
            heads,
        )
    &&& future_scores_kept(preatt_before, preatt, batch, time, heads)
    &&& forall|j: int| batch * heads * time * time <= j < att.len() ==> att[j] == att_before[j]
    &&& forall|j: int| batch * time * chan <= j < out.len() ==> out[j] == out_before[j]
}

/// Computes, for every position and head, the scores of the position against
/// itself and the positions before it, their softmax, and the values of those
/// positions weighted by it.
pub fn attention_forward<S: Scalar>(
    out: &mut [S],
    preatt: &mut [S],
    att: &mut [S],
    inp: &[S],
    batch: usize,
    time: usize,
    chan: usize,
    heads: usize,
)
    requires
        heads > 0,
        chan % heads == 0,
        batch * time * chan <= old(out).len(),
        batch * heads * time * time <= old(preatt).len(),
        batch * heads * time * time <= old(att).len(),
        batch * time * (3 * chan) <= inp.len(),
    ensures
        attention_forward_post(
            old(out)@,
            final(out)@,
            old(preatt)@,
            final(preatt)@,
            old(att)@,
            final(att)@,
            inp@,
            batch as int,
            time as int,
            chan as int,
            heads as int,
        ),
{
    let hs = chan / heads;
    proof {
        assert(chan == heads * hs) by (nonlinear_arith)
            requires
                hs == chan / heads,
                chan % heads == 0,
                heads > 0,
        ;
    }
    let one = S::from_usize(1);
    let scale = one.div(S::from_usize(hs).sqrt());
    assert(att_scale(hs as int, scale));
    let mut b: usize = 0;
    while b < batch
        invariant
            b <= batch,
            heads > 0,
            hs == chan / heads,
            chan == heads * hs,
            out.len() == old(out).len(),
            preatt.len() == old(preatt).len(),
            att.len() == old(att).len(),
            batch * time * chan <= out.len(),
            batch * heads * time * time <= preatt.len(),
            batch * heads * time * time <= att.len(),
            batch * time * (3 * chan) <= inp.len(),
            heads_done(
                inp@,
                preatt@,
                att@,
                out@,
                scale,
                b as int,
                0,
                0,
                batch as int,
                time as int,
                chan as int,
                heads as int,
            ),
            future_scores_kept(old(preatt)@, preatt@, batch as int, time as int, heads as int),
            forall|j: int| batch * heads * time * time <= j < att.len() ==> att[j] == old(att)[j],
            forall|j: int| batch * time * chan <= j < out.len() ==> out[j] == old(out)[j],
        decreases batch - b,
    {
        let mut t: usize = 0;
        while t < time
            invariant
                b < batch,
                t <= time,
                heads > 0,
                hs == chan / heads,
                chan == heads * hs,
                out.len() == old(out).len(),
                preatt.len() == old(preatt).len(),
                att.len() == old(att).len(),
                batch * time * chan <= out.len(),
                batch * heads * time * time <= preatt.len(),
                batch * heads * time * time <= att.len(),
                batch * time * (3 * chan) <= inp.len(),
                heads_done(
                    inp@,
                    preatt@,
                    att@,
                    out@,
                    scale,
                    b as int,
                    t as int,
                    0,
                    batch as int,
                    time as int,
                    chan as int,
                    heads as int,
                ),
                future_scores_kept(old(preatt)@, preatt@, batch as int, time as int, heads as int),
                forall|j: int|
                    batch * heads * time * time <= j < att.len() ==> att[j] == old(att)[j],
                forall|j: int| batch * time * chan <= j < out.len() ==> out[j] == old(out)[j],
            decreases time - t,
        {
            let mut h: usize = 0;
            while h < heads
                invariant
                    b < batch,
                    t < time,
                    h <= heads,
                    hs == chan / heads,
                    chan == heads * hs,
                    out.len() == old(out).len(),
                    preatt.len() == old(preatt).len(),
                    att.len() == old(att).len(),
                    batch * time * chan <= out.len(),
                    batch * heads * time * time <= preatt.len(),
                    batch * heads * time * time <= att.len(),
                    batch * time * (3 * chan) <= inp.len(),
                    heads_done(
                        inp@,
                        preatt@,
                        att@,
                        out@,
                        scale,
                        b as int,
                        t as int,
                        h as int,
                        batch as int,
                        time as int,
                        chan as int,
                        heads as int,
                    ),
                    future_scores_kept(
                        old(preatt)@,
                        preatt@,
                        batch as int,
                        time as int,
                        heads as int,
                    ),
                    forall|j: int|
                        batch * heads * time * time <= j < att.len() ==> att[j] == old(att)[j],
                    forall|j: int| batch * time * chan <= j < out.len() ==> out[j] == old(out)[j],
                decreases heads - h,
            {
                proof {
                    lemma_head_offsets(
                        b as int,
                        t as int,
                        h as int,
                        batch as int,
                        time as int,
                        chan as int,
                        heads as int,
                        hs as int,
                    );
                }
                let pos = b * time + t;
                let stride = 3 * chan;
                let seq0 = b * time * stride;
                let qoff = pos * stride + h * hs;
                let k0 = seq0 + chan + h * hs;
                let v0 = seq0 + 2 * chan + h * hs;
                let pbase = ((b * heads + h) * time + t) * time;
                let obase = (pos * heads + h) * hs;
                let ghost out1 = out@;
                let ghost pre1 = preatt@;
                let ghost att1 = att@;
                attention_head(
                    out,
                    preatt,
                    att,
                    inp,
                    scale,
                    obase,
                    pbase,
                    qoff,
                    k0,
                    v0,
                    stride,
                    t,
                    time,
                    hs,
                );
                proof {
                    lemma_heads_step(
                        inp@,
                        pre1,
                        preatt@,
                        att1,
                        att@,
                        out1,
                        out@,
                        scale,
                        b as int,
                        t as int,
                        h as int,
                        batch as int,
                        time as int,
                        chan as int,
                        heads as int,
                    );
                    lemma_future_step(
                        old(preatt)@,
                        pre1,
                        preatt@,
                        b as int,
                        t as int,
                        h as int,
                        batch as int,
                        time as int,
                        heads as int,
                    );
                }
                h += 1;
            }
            proof {
                assert forall|b2: int, h2: int, t2: int|
                    0 <= b2 < batch && 0 <= h2 < heads && 0 <= t2 < time && head_before(
                        b2,
                        t2,
                        h2,
                        b as int,
                        t + 1,
                        0,
                    ) implies #[trigger] head_at(
                    inp@,
                    preatt@,
                    att@,
                    out@,
                    scale,
                    b2,
                    h2,
                    t2,
                    time as int,
                    chan as int,
                    heads as int,
                ) by {
                    assert(head_before(b2, t2, h2, b as int, t as int, heads as int));
                }
            }
            t += 1;
        }
        proof {
            assert forall|b2: int, h2: int, t2: int|
                0 <= b2 < batch && 0 <= h2 < heads && 0 <= t2 < time && head_before(
                    b2,
                    t2,
                    h2,
                    b + 1,
                    0,
                    0,
                ) implies #[trigger] head_at(
                inp@,
                preatt@,
                att@,
                out@,
                scale,
                b2,
                h2,
                t2,
                time as int,
                chan as int,
                heads as int,
            ) by {
                assert(head_before(b2, t2, h2, b as int, time as int, 0));
            }
        }
        b += 1;
    }
}

/// One more head done: the heads before it keep what they computed, since it
/// wrote its own row and segment only.
proof fn lemma_heads_step<S: Scalar>(
    inp: Seq<S>,
    pre1: Seq<S>,
    pre2: Seq<S>,
    att1: Seq<S>,
    att2: Seq<S>,
    out1: Seq<S>,
    out2: Seq<S>,
    scale: S,
    b: int,
    t: int,
    h: int,
    batch: int,
    time: int,
    chan: int,
    heads: int,
)
    requires
        0 <= b < batch,
        0 <= t < time,
        0 <= h < heads,
        chan == heads * (chan / heads),
        0 <= chan / heads,
        pre2.len() == pre1.len(),
        att2.len() == att1.len(),
        out2.len() == out1.len(),
        batch * time * chan <= out1.len(),
        batch * heads * time * time <= pre1.len(),
        batch * heads * time * time <= att1.len(),
        heads_done(inp, pre1, att1, out1, scale, b, t, h, batch, time, chan, heads),
        head_post(
            inp,
            pre2.subrange(at3(b, h, t, heads, time) * time, at3(b, h, t, heads, time) * time + time),
            att2.subrange(at3(b, h, t, heads, time) * time, at3(b, h, t, heads, time) * time + time),
            out2.subrange(
                at3(b, t, h, time, heads) * (chan / heads),
                at3(b, t, h, time, heads) * (chan / heads) + chan / heads,
            ),
            scale,
            at2(b, t, time) * (3 * chan) + h * (chan / heads),
            b * time * (3 * chan) + chan + h * (chan / heads),
            b * time * (3 * chan) + 2 * chan + h * (chan / heads),
            3 * chan,
            t,
            time,
            chan / heads,
        ),
        forall|j: int|
            0 <= j < out1.len() && !(at3(b, t, h, time, heads) * (chan / heads) <= j < at3(
                b,
                t,
                h,
                time,
                heads,
            ) * (chan / heads) + chan / heads) ==> out2[j] == out1[j],
        forall|j: int|
            0 <= j < pre1.len() && !(at3(b, h, t, heads, time) * time <= j <= at3(
                b,
                h,
                t,
                heads,
                time,
            ) * time + t) ==> pre2[j] == pre1[j],
        forall|j: int|
            0 <= j < att1.len() && !(at3(b, h, t, heads, time) * time <= j < at3(
                b,
                h,
                t,
                heads,
                time,
            ) * time + time) ==> att2[j] == att1[j],
    ensures
        heads_done(inp, pre2, att2, out2, scale, b, t, h + 1, batch, time, chan, heads),
{
    let hs = chan / heads;
    lemma_head_offsets(b, t, h, batch, time, chan, heads, hs);
    let rr = at3(b, h, t, heads, time);
    let gg = at3(b, t, h, time, heads);
    assert forall|b2: int, h2: int, t2: int|
        0 <= b2 < batch && 0 <= h2 < heads && 0 <= t2 < time && head_before(
            b2,
            t2,
            h2,
            b,
            t,
            h + 1,
        ) implies #[trigger] head_at(inp, pre2, att2, out2, scale, b2, h2, t2, time, chan, heads) by {
        lemma_head_offsets(b2, t2, h2, batch, time, chan, heads, hs);
        let r2 = at3(b2, h2, t2, heads, time);
        let g2 = at3(b2, t2, h2, time, heads);
        if b2 == b && t2 == t && h2 == h {
            assert(row(pre2, r2, time) =~= pre2.subrange(rr * time, rr * time + time));
            assert(row(att2, r2, time) =~= att2.subrange(rr * time, rr * time + time));
            assert(row(out2, g2, hs) =~= out2.subrange(gg * hs, gg * hs + hs));
            assert((b * time) * (3 * chan) == b * time * (3 * chan));
        } else {
            assert(head_before(b2, t2, h2, b, t, h));
            assert(head_at(inp, pre1, att1, out1, scale, b2, h2, t2, time, chan, heads));
            if r2 == rr {
                lemma_at3_unique(b2, h2, t2, b, h, t, heads, time);
            }
            if g2 == gg {
                lemma_at3_unique(b2, t2, h2, b, t, h, time, heads);
            }
            if r2 < rr {
                lemma_at2_ordered(r2, rr, time);
            } else {
                lemma_at2_ordered(rr, r2, time);
            }
            if g2 < gg {
                lemma_at2_ordered(g2, gg, hs);
            } else {
                lemma_at2_ordered(gg, g2, hs);
            }
            assert(row(pre2, r2, time) =~= row(pre1, r2, time));
            assert(row(att2, r2, time) =~= row(att1, r2, time));
            assert(row(out2, g2, hs) =~= row(out1, g2, hs));
        }
    }
}

/// With an arithmetic that is a function, the scale of the scores is one
/// number.
pub proof fn lemma_att_scale_unique<S: Scalar>(hs: int, s1: S, s2: S)
    requires
        functional::<S>(),
        att_scale(hs, s1),
        att_scale(hs, s2),
    ensures
        s1 == s2,
{
}

/// With an arithmetic that is a function, a query and a key have one score.
pub proof fn lemma_att_score_unique<S: Scalar>(
    inp: Seq<S>,
    qoff: int,
    koff: int,
    hs: int,
    scale: S,
    v1: S,
    v2: S,
)
    requires
        functional::<S>(),
        att_score(inp, qoff, koff, hs, scale, v1),
        att_score(inp, qoff, koff, hs, scale, v2),
    ensures
        v1 == v2,
{
    let (z1, d1) = choose|zero: S, d: S|
        is_num(0, zero) && mac_chain(inp, qoff, 1, inp, koff, 1, hs, zero, d) && is_mul(
            d,
            scale,
            v1,
        );
    let (z2, d2) = choose|zero: S, d: S|
        is_num(0, zero) && mac_chain(inp, qoff, 1, inp, koff, 1, hs, zero, d) && is_mul(
            d,
            scale,
            v2,
        );
    lemma_mac_chain_unique(inp, qoff, 1, inp, koff, 1, hs, z1, d1, d2);
}

/// With an arithmetic that is a function, rows of scores that agree in their
/// first `n` entries have one row of probabilities.
pub proof fn lemma_att_probs_unique<S: Scalar>(
    pre1: Seq<S>,
    pre2: Seq<S>,
    att1: Seq<S>,
    att2: Seq<S>,
    n: int,
    time: int,
)
    requires
        functional::<S>(),
        att_probs(pre1, att1, n, time),
        att_probs(pre2, att2, n, time),
        forall|k: int| 0 <= k < n ==> #[trigger] pre1[k] == pre2[k],
    ensures
        forall|k: int| 0 <= k < time ==> #[trigger] att1[k] == att2[k],
{
    let (ninf1, max1, e1, zero1, sum1, inv1) = choose|
        ninf: S,
        maxval: S,
        e: Seq<S>,
        zero: S,
        sum: S,
        inv: S,
    |
        is_neg_infinity(ninf) && #[trigger] max_chain(pre1, n, ninf, maxval) && (forall|k: int|
            0 <= k < n ==> exp_shifted(pre1[k], maxval, #[trigger] e[k])) && is_num(0, zero)
            && #[trigger] sum_chain(e, 0, 1, n, zero, sum) && #[trigger] att_inverse(sum, inv)
            && (forall|k: int| 0 <= k < n ==> is_mul(e[k], inv, #[trigger] att1[k])) && (forall|
            k: int,
        | n <= k < time ==> is_num(0, #[trigger] att1[k]));
    let (ninf2, max2, e2, zero2, sum2, inv2) = choose|
        ninf: S,
        maxval: S,
        e: Seq<S>,
        zero: S,
        sum: S,
        inv: S,
    |
        is_neg_infinity(ninf) && #[trigger] max_chain(pre2, n, ninf, maxval) && (forall|k: int|
            0 <= k < n ==> exp_shifted(pre2[k], maxval, #[trigger] e[k])) && is_num(0, zero)
            && #[trigger] sum_chain(e, 0, 1, n, zero, sum) && #[trigger] att_inverse(sum, inv)
            && (forall|k: int| 0 <= k < n ==> is_mul(e[k], inv, #[trigger] att2[k])) && (forall|
            k: int,
        | n <= k < time ==> is_num(0, #[trigger] att2[k]));
    lemma_max_chain_moved(pre1, pre2, n, ninf1, max1);
    lemma_max_chain_unique(pre2, n, ninf1, max1, max2);
    assert forall|k: int| 0 <= k < n implies #[trigger] entry(e1, 0, 1, k) == entry(e2, 0, 1, k) by {
        assert(pre1[k] == pre2[k]);
        assert(exp_shifted(pre1[k], max1, e1[k]));
        assert(exp_shifted(pre1[k], max1, e2[k]));
    }
    lemma_sum_chain_moved(e1, 0, 1, e2, 0, 1, n, zero1, sum1);
    lemma_sum_chain_unique(e2, 0, 1, n, zero1, sum1, sum2);
    lemma_att_inverse_unique(sum1, inv1, inv2);
    assert forall|k: int| 0 <= k < time implies #[trigger] att1[k] == att2[k] by {
        if k < n {
            assert(entry(e1, 0, 1, k) == entry(e2, 0, 1, k));
            assert(is_mul(e1[k], inv1, att1[k]));
            assert(is_mul(e2[k], inv2, att2[k]));
        } else {
            assert(is_num(0, att1[k]));
            assert(is_num(0, att2[k]));
        }
    }
}

/// With an arithmetic that is a function, a sum has one inverse.
pub proof fn lemma_att_inverse_unique<S: Scalar>(sum: S, inv1: S, inv2: S)
    requires
        functional::<S>(),
        att_inverse(sum, inv1),
        att_inverse(sum, inv2),
    ensures
        inv1 == inv2,
{
    let (z1, g1) = choose|zero: S, g: bool|
        is_num(0, zero) && #[trigger] is_same(sum, zero, g) && if g {
            is_num(0, inv1)
        } else {
            exists|one: S| is_num(1, one) && #[trigger] is_div(one, sum, inv1)
        };
    let (z2, g2) = choose|zero: S, g: bool|
        is_num(0, zero) && #[trigger] is_same(sum, zero, g) && if g {
            is_num(0, inv2)
        } else {
            exists|one: S| is_num(1, one) && #[trigger] is_div(one, sum, inv2)
        };
    assert(z1 == z2);
    assert(g1 == g2);
}

/// With an arithmetic that is a function, one head at one position has one
/// row of scores up to its position, one row of probabilities and one output.
pub proof fn lemma_head_post_unique<S: Scalar>(
    inp: Seq<S>,
    pre1: Seq<S>,
    att1: Seq<S>,
    out1: Seq<S>,
    pre2: Seq<S>,
    att2: Seq<S>,
    out2: Seq<S>,
    scale: S,
    qoff: int,
    k0: int,
    v0: int,
    stride: int,
    t: int,
    time: int,
    hs: int,
)
    requires
        functional::<S>(),
        t < time,
        head_post(inp, pre1, att1, out1, scale, qoff, k0, v0, stride, t, time, hs),
        head_post(inp, pre2, att2, out2, scale, qoff, k0, v0, stride, t, time, hs),
    ensures
        forall|t2: int| 0 <= t2 <= t ==> #[trigger] pre1[t2] == pre2[t2],
        forall|k: int| 0 <= k < time ==> #[trigger] att1[k] == att2[k],
        forall|i: int| 0 <= i < hs ==> #[trigger] out1[i] == out2[i],
{
    assert forall|t2: int| 0 <= t2 <= t implies #[trigger] pre1[t2] == pre2[t2] by {
        lemma_att_score_unique(inp, qoff, k0 + t2 * stride, hs, scale, pre1[t2], pre2[t2]);
    }
    lemma_att_probs_unique(pre1, pre2, att1, att2, t + 1, time);
    assert forall|i: int| 0 <= i < hs implies #[trigger] out1[i] == out2[i] by {
        let z1 = choose|zero: S|
            is_num(
                0,
                zero) && #[trigger] mac_chain(att1,
                0,
                1,
                inp,
                v0 + i,
                stride,
                t + 1,
                zero,
                out1[i],
            );
        let z2 = choose|zero: S|
            is_num(
                0,
                zero) && #[trigger] mac_chain(att2,
                0,
                1,
                inp,
                v0 + i,
                stride,
                t + 1,
                zero,
                out2[i],
            );
        assert forall|k: int| 0 <= k < t + 1 implies #[trigger] entry(att1, 0, 1, k) == entry(
            att2,
            0,
            1,
            k,
        ) by {
            assert(att1[k] == att2[k]);
        }
        lemma_mac_chain_moved(
            att1,
            0,
            1,
            inp,
            v0 + i,
            stride,
            att2,
            0,
            1,
            inp,
            v0 + i,
            stride,
            t + 1,
            z1,
            out1[i],
        );
        lemma_mac_chain_unique(att2, 0, 1, inp, v0 + i, stride, t + 1, z1, out1[i], out2[i]);
    }
}

/// The forward pass overwrites its outputs: with an arithmetic that is a
/// function, two runs on the same input leave, for every head and position,
/// the same scores up to the position, the same probabilities and the same
/// outputs, whatever the buffers held before.
pub proof fn lemma_attention_forward_determined<S: Scalar>(
    out_before1: Seq<S>,
    out1: Seq<S>,
    preatt_before1: Seq<S>,
    preatt1: Seq<S>,
    att_before1: Seq<S>,
    att1: Seq<S>,
    out_before2: Seq<S>,
    out2: Seq<S>,
    preatt_before2: Seq<S>,
    preatt2: Seq<S>,
    att_before2: Seq<S>,
    att2: Seq<S>,
    inp: Seq<S>,
    batch: int,
    time: int,
    chan: int,
    heads: int,
)
    requires
        functional::<S>(),
        attention_forward_post(
            out_before1,
            out1,
            preatt_before1,
            preatt1,
            att_before1,
            att1,
            inp,
            batch,
            time,
            chan,
            heads,
        ),
        attention_forward_post(
            out_before2,
            out2,
            preatt_before2,
            preatt2,
            att_before2,
            att2,
            inp,
            batch,
            time,
            chan,
            heads,
        ),
    ensures
        forall|b: int, h: int, t: int, t2: int|
            0 <= b < batch && 0 <= h < heads && 0 <= t2 <= t < time ==> #[trigger] row(
                preatt1,
                at3(b, h, t, heads, time),
                time,
            )[t2] == row(preatt2, at3(b, h, t, heads, time), time)[t2],
        forall|b: int, h: int, t: int, t2: int|
            0 <= b < batch && 0 <= h < heads && 0 <= t < time && 0 <= t2 < time ==> #[trigger] row(
                att1,
                at3(b, h, t, heads, time),
                time,
            )[t2] == row(att2, at3(b, h, t, heads, time), time)[t2],
        forall|b: int, t: int, h: int, i: int|
            0 <= b < batch && 0 <= t < time && 0 <= h < heads && 0 <= i < chan / heads
                ==> #[trigger] row(out1, at3(b, t, h, time, heads), chan / heads)[i] == row(
                out2,
                at3(b, t, h, time, heads),
                chan / heads,
            )[i],
{
    let hs = chan / heads;
    let s1 = choose|scale: S| #[trigger]
        att_scale(hs, scale) && heads_done(
            inp,
            preatt1,
            att1,
            out1,
            scale,
            batch,
            0,
            0,
            batch,
            time,
            chan,
            heads,
        );
    let s2 = choose|scale: S| #[trigger]
        att_scale(hs, scale) && heads_done(
            inp,
            preatt2,
            att2,
            out2,
            scale,
            batch,
            0,
            0,
            batch,
            time,
            chan,
            heads,
        );
    lemma_att_scale_unique(hs, s1, s2);
    assert forall|b: int, h: int, t: int, t2: int|
        0 <= b < batch && 0 <= h < heads && 0 <= t2 <= t < time implies #[trigger] row(
        preatt1,
        at3(b, h, t, heads, time),
        time,
    )[t2] == row(preatt2, at3(b, h, t, heads, time), time)[t2] by {
        assert(head_before(b, t, h, batch, 0, 0));
        assert(head_at(inp, preatt1, att1, out1, s1, b, h, t, time, chan, heads));
        assert(head_at(inp, preatt2, att2, out2, s1, b, h, t, time, chan, heads));
        lemma_head_post_unique(
            inp,
            row(preatt1, at3(b, h, t, heads, time), time),
            row(att1, at3(b, h, t, heads, time), time),
            row(out1, at3(b, t, h, time, heads), hs),
            row(preatt2, at3(b, h, t, heads, time), time),
            row(att2, at3(b, h, t, heads, time), time),
            row(out2, at3(b, t, h, time, heads), hs),
            s1,
            q_at(b, t, h, 0, time, chan, hs),
            k_at(b, 0, h, 0, time, chan, hs),
            v_at(b, 0, h, 0, time, chan, hs),
            3 * chan,
            t,
            time,
            hs,
        );
    }
    assert forall|b: int, h: int, t: int, t2: int|
        0 <= b < batch && 0 <= h < heads && 0 <= t < time && 0 <= t2 < time implies #[trigger] row(
        att1,
        at3(b, h, t, heads, time),
        time,
    )[t2] == row(att2, at3(b, h, t, heads, time), time)[t2] by {
        assert(head_before(b, t, h, batch, 0, 0));
        assert(head_at(inp, preatt1, att1, out1, s1, b, h, t, time, chan, heads));
        assert(head_at(inp, preatt2, att2, out2, s1, b, h, t, time, chan, heads));
        lemma_head_post_unique(
            inp,
            row(preatt1, at3(b, h, t, heads, time), time),
            row(att1, at3(b, h, t, heads, time), time),
            row(out1, at3(b, t, h, time, heads), hs),
            row(preatt2, at3(b, h, t, heads, time), time),
            row(att2, at3(b, h, t, heads, time), time),
            row(out2, at3(b, t, h, time, heads), hs),
            s1,
            q_at(b, t, h, 0, time, chan, hs),
            k_at(b, 0, h, 0, time, chan, hs),
            v_at(b, 0, h, 0, time, chan, hs),
            3 * chan,
            t,
            time,
            hs,
        );
    }
    assert forall|b: int, t: int, h: int, i: int|
        0 <= b < batch && 0 <= t < time && 0 <= h < heads && 0 <= i < chan
            / heads implies #[trigger] row(out1, at3(b, t, h, time, heads), chan / heads)[i] == row(
        out2,
        at3(b, t, h, time, heads),
        chan / heads,
    )[i] by {
        assert(head_before(b, t, h, batch, 0, 0));
        assert(head_at(inp, preatt1, att1, out1, s1, b, h, t, time, chan, heads));
        assert(head_at(inp, preatt2, att2, out2, s1, b, h, t, time, chan, heads));
        lemma_head_post_unique(
            inp,
            row(preatt1, at3(b, h, t, heads, time), time),
            row(att1, at3(b, h, t, heads, time), time),
            row(out1, at3(b, t, h, time, heads), hs),
            row(preatt2, at3(b, h, t, heads, time), time),
            row(att2, at3(b, h, t, heads, time), time),
            row(out2, at3(b, t, h, time, heads), hs),
            s1,
            q_at(b, t, h, 0, time, chan, hs),
            k_at(b, 0, h, 0, time, chan, hs),
            v_at(b, 0, h, 0, time, chan, hs),
            3 * chan,
            t,
            time,
            hs,
        );
    }
}

} // verus!
