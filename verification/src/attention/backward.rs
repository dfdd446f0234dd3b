//! The backward pass: the gradients of the probabilities and the scores, and
//! through them those of the queries, keys and values.
use crate::attention::forward::{att_scale, lemma_att_scale_unique};
use crate::attention::index::{
    att_at, future_scores_kept, head_before, k_at, lemma_future_step, lemma_head_offsets,
    lemma_order_next_position, lemma_order_next_sequence, lemma_qkv_in_table, lemma_qkv_unique,
    lemma_tail_offsets, o_at, q_at, qkv_at, v_at,
};
use crate::fold::{
    dot, entry, lemma_mac_chain_additive, lemma_mac_chain_unique, lemma_mac_scaled_chain_agree,
    lemma_stride_in_run, mac_chain, mac_scaled_chain, mac_scaled_strided, mac_strided,
};
use crate::layout::{at2, at3, lemma_at2_ordered, lemma_at3_unique, row};
use crate::scalar::{
    Scalar, exact_sums, functional, grew_twice, has_sum, is_add, is_mul, is_num, is_sub,
    lemma_add_then_add, lemma_added_twice, neutral,
};
use vstd::prelude::*;

verus! {

/// `r` results from `init` by adding, in the order of `t2`, for each of the
/// first `n` positions `t2` of a row the gradient that reaches the score of
/// position `t3` through the probability of position `t2`:
/// `(att[t2] * ([t2 == t3] - att[t3])) * datt[t2]`.
pub open spec fn jac_chain<S: Scalar>(att: Seq<S>, datt: Seq<S>, t3: int, n: int, init: S, r: S) -> bool
    decreases n,
{
    if n <= 0 {
        r == init
    } else {
        let a2 = att[n - 1];
        let a3 = att[t3];
        let da = datt[n - 1];
        let unit: usize = if n - 1 == t3 {
            1
        } else {
            0
        };
        exists|p: S, ind: S, d: S, ld: S, g: S|
            #![trigger is_sub(ind, a3, d), is_mul(ld, da, g), is_add(p, g, r)]
            jac_chain(att, datt, t3, n - 1, init, p) && is_num(unit, ind) && is_sub(ind, a3, d)
                && is_mul(a2, d, ld) && is_mul(ld, da, g) && is_add(p, g, r)
    }
}

/// What the backward pass of one head at one position adds to its rows of
/// `datt` and `dpreatt`: to `datt[t2]` the dot product of the value of
/// position `t2` and the gradient of the head's output, and to `dpreatt[t3]`
/// the gradient through the softmax, taken with the new `datt`.
pub open spec fn back_scores_post<S: Scalar>(
    att: Seq<S>,
    datt0: Seq<S>,
    datt1: Seq<S>,
    dpre0: Seq<S>,
    dpre1: Seq<S>,
    inp: Seq<S>,
    dout: Seq<S>,
    v0: int,
    doff: int,
    stride: int,
    t: int,
    hs: int,
) -> bool {
    &&& forall|t2: int|
        0 <= t2 <= t ==> mac_chain(
            inp,
            v0 + t2 * stride,
            1,
            dout,
            doff,
            1,
            hs,
            datt0[t2],
            #[trigger] datt1[t2],
        )
    &&& forall|t3: int|
        0 <= t3 <= t ==> jac_chain(att, datt1, t3, t + 1, dpre0[t3], #[trigger] dpre1[t3])
}

/// The first phase of the backward pass for one head at one position: the
/// gradients of its probabilities and of its scores, in the rows at `pbase`.
pub fn attention_head_backward_scores<S: Scalar>(
    dpreatt: &mut [S],
    datt: &mut [S],
    dout: &[S],
    inp: &[S],
    att: &[S],
    pbase: usize,
    doff: usize,
    v0: usize,
    stride: usize,
    t: usize,
    time: usize,
    hs: usize,
)
    requires
        t < time,
        pbase + time <= old(dpreatt).len(),
        pbase + time <= old(datt).len(),
        pbase + time <= att.len(),
        doff + hs <= dout.len(),
        v0 + t * stride + hs <= inp.len(),
    ensures
        final(dpreatt).len() == old(dpreatt).len(),
        final(datt).len() == old(datt).len(),
        back_scores_post(
            att@.subrange(pbase as int, pbase + time),
            old(datt)@.subrange(pbase as int, pbase + time),
            final(datt)@.subrange(pbase as int, pbase + time),
            old(dpreatt)@.subrange(pbase as int, pbase + time),
            final(dpreatt)@.subrange(pbase as int, pbase + time),
            inp@,
            dout@,
            v0 as int,
            doff as int,
            stride as int,
            t as int,
            hs as int,
        ),
        forall|j: int|
            0 <= j < old(datt).len() && !(pbase <= j <= pbase + t) ==> final(datt)[j]
                == old(datt)[j],
        forall|j: int|
            0 <= j < old(dpreatt).len() && !(pbase <= j <= pbase + t) ==> final(dpreatt)[j]
                == old(dpreatt)[j],
{
    let mut t2: usize = 0;
    while t2 <= t
        invariant
            t2 <= t + 1,
            t < time,
            datt.len() == old(datt).len(),
            pbase + time <= datt.len(),
            doff + hs <= dout.len(),
            v0 + t * stride + hs <= inp.len(),
            forall|j: int|
                pbase <= j < pbase + t2 ==> mac_chain(
                    inp@,
                    v0 + (j - pbase) * stride,
                    1,
                    dout@,
                    doff as int,
                    1,
                    hs as int,
                    old(datt)[j],
                    #[trigger] datt[j],
                ),
            forall|j: int|
                0 <= j < datt.len() && !(pbase <= j < pbase + t2) ==> datt[j] == old(datt)[j],
        decreases t + 1 - t2,
    {
        proof {
            lemma_stride_in_run(t2 as int, t + 1, stride as int);
        }
        let v = dot(inp, v0 + t2 * stride, dout, doff, hs, datt[pbase + t2]);
        datt[pbase + t2] = v;
        t2 += 1;
    }
    let ghost arow = att@.subrange(pbase as int, pbase + time);
    let ghost drow = datt@.subrange(pbase as int, pbase + time);
    let mut t3: usize = 0;
    while t3 <= t
        invariant
            t3 <= t + 1,
            t < time,
            dpreatt.len() == old(dpreatt).len(),
            pbase + time <= dpreatt.len(),
            pbase + time <= datt.len(),
            pbase + time <= att.len(),
            arow == att@.subrange(pbase as int, pbase + time),
            drow == datt@.subrange(pbase as int, pbase + time),
            forall|j: int|
                pbase <= j < pbase + t3 ==> jac_chain(
                    arow,
                    drow,
                    j - pbase,
                    t + 1,
                    old(dpreatt)[j],
                    #[trigger] dpreatt[j],
                ),
            forall|j: int|
                0 <= j < dpreatt.len() && !(pbase <= j < pbase + t3)
                    ==> dpreatt[j] == old(dpreatt)[j],
        decreases t + 1 - t3,
    {
        let a3 = att[pbase + t3];
        let init = dpreatt[pbase + t3];
        let mut acc = init;
        let mut t2: usize = 0;
        while t2 <= t
            invariant
                t2 <= t + 1,
                t3 <= t,
                t < time,
                pbase + time <= datt.len(),
                pbase + time <= att.len(),
                arow == att@.subrange(pbase as int, pbase + time),
                drow == datt@.subrange(pbase as int, pbase + time),
                a3 == arow[t3 as int],
                jac_chain(arow, drow, t3 as int, t2 as int, init, acc),
            decreases t + 1 - t2,
        {
            let unit: usize = if t2 == t3 {
                1
            } else {
                0
            };
            let ind = S::from_usize(unit);
            let a2 = att[pbase + t2];
            let da = datt[pbase + t2];
            let d = ind.sub(a3);
            let ld = a2.mul(d);
            let g = ld.mul(da);
            let ghost p = acc;
            acc = acc.add(g);
            proof {
                assert(arow[(t2 + 1) - 1] == a2);
                assert(drow[(t2 + 1) - 1] == da);
                assert(is_num(unit, ind) && is_sub(ind, a3, d) && is_mul(a2, d, ld) && is_mul(
                    ld,
                    da,
                    g,
                ) && is_add(p, g, acc));
            }
            t2 += 1;
        }
        dpreatt[pbase + t3] = acc;
        t3 += 1;
    }
    proof {
        let d0 = old(datt)@.subrange(pbase as int, pbase + time);
        let p0 = old(dpreatt)@.subrange(pbase as int, pbase + time);
        let p1 = dpreatt@.subrange(pbase as int, pbase + time);
        assert forall|k: int| 0 <= k <= t implies mac_chain(
            inp@,
            v0 + k * stride,
            1,
            dout@,
            doff as int,
            1,
            hs as int,
            d0[k],
            #[trigger] drow[k],
        ) by {
            assert(drow[k] == datt[pbase + k]);
            assert(d0[k] == old(datt)[pbase + k]);
        }
        assert forall|k: int| 0 <= k <= t implies jac_chain(
            arow,
            drow,
            k,
            t + 1,
            p0[k],
            #[trigger] p1[k],
        ) by {
            assert(p1[k] == dpreatt[pbase + k]);
            assert(p0[k] == old(dpreatt)[pbase + k]);
        }
    }
}

/// The second phase of the backward pass for one head at one position `t`:
/// the gradients of its query, its key and its value, in the segments of
/// `dinp` at `qoff`, `koff` and `voff`.
///
/// The query collects from the keys of the positions up to `t`, which start
/// at `k0`; the key and the value collect from the queries and the output
/// gradients of the positions from `t` on, which start at `qoff` and `doff`.
/// `pbase` is the row of the head at position `t` in `dpreatt` and `att`.
pub fn attention_head_backward_input<S: Scalar>(
    dinp: &mut [S],
    inp: &[S],
    dpreatt: &[S],
    att: &[S],
    dout: &[S],
    scale: S,
    qoff: usize,
    koff: usize,
    voff: usize,
    k0: usize,
    doff: usize,
    pbase: usize,
    stride: usize,
    chan: usize,
    t: usize,
    time: usize,
    hs: usize,
)
    requires
        t < time,
        qoff + hs <= koff,
        koff + hs <= voff,
        voff + hs <= old(dinp).len(),
        k0 + t * stride + hs <= inp.len(),
        qoff + (time - 1 - t) * stride + hs <= inp.len(),
        doff + (time - 1 - t) * chan + hs <= dout.len(),
        pbase + t + (time - 1 - t) * time < dpreatt.len(),
        pbase + t + (time - 1 - t) * time < att.len(),
    ensures
        final(dinp).len() == old(dinp).len(),
        forall|j: int|
            qoff <= j < qoff + hs ==> mac_scaled_chain(
                inp@,
                k0 + (j - qoff),
                stride as int,
                dpreatt@,
                pbase as int,
                1,
                scale,
                t + 1,
                old(dinp)[j],
                #[trigger] final(dinp)[j],
            ),
        forall|j: int|
            koff <= j < koff + hs ==> mac_scaled_chain(
                inp@,
                qoff + (j - koff),
                stride as int,
                dpreatt@,
                pbase + t,
                time as int,
                scale,
                time - t,
                old(dinp)[j],
                #[trigger] final(dinp)[j],
            ),
        forall|j: int|
            voff <= j < voff + hs ==> mac_chain(
                att@,
                pbase + t,
                time as int,
                dout@,
                doff + (j - voff),
                chan as int,
                time - t,
                old(dinp)[j],
                #[trigger] final(dinp)[j],
            ),
        forall|j: int|
            0 <= j < old(dinp).len() && !(qoff <= j < qoff + hs) && !(koff <= j < koff + hs) && !(
            voff <= j < voff + hs) ==> final(dinp)[j] == old(dinp)[j],
{
    proof {
        assert(0 <= t * stride) by (nonlinear_arith)
            requires
                0 <= t,
                0 <= stride,
        ;
        assert(0 <= (time - 1 - t) * stride) by (nonlinear_arith)
            requires
                0 <= time - 1 - t,
                0 <= stride,
        ;
        assert(0 <= (time - 1 - t) * chan) by (nonlinear_arith)
            requires
                0 <= time - 1 - t,
                0 <= chan,
        ;
        assert(0 <= (time - 1 - t) * time) by (nonlinear_arith)
            requires
                0 <= time - 1 - t,
                0 <= time,
        ;
    }
    let mut i: usize = 0;
    while i < hs
        invariant
            i <= hs,
            t < time,
            dinp.len() == old(dinp).len(),
            qoff + hs <= koff,
            koff + hs <= voff,
            voff + hs <= dinp.len(),
            k0 + t * stride + hs <= inp.len(),
            0 <= t * stride,
            pbase + t < dpreatt.len(),
            forall|j: int|
                qoff <= j < qoff + i ==> mac_scaled_chain(
                    inp@,
                    k0 + (j - qoff),
                    stride as int,
                    dpreatt@,
                    pbase as int,
                    1,
                    scale,
                    t + 1,
                    old(dinp)[j],
                    #[trigger] dinp[j],
                ),
            forall|j: int|
                0 <= j < dinp.len() && !(qoff <= j < qoff + i) ==> #[trigger] dinp[j] == old(dinp)[j],
        decreases hs - i,
    {
        let v = mac_scaled_strided(
            inp,
            k0 + i,
            stride,
            dpreatt,
            pbase,
            1,
            scale,
            t + 1,
            dinp[qoff + i],
        );
        dinp[qoff + i] = v;
        i += 1;
    }
    let ghost mid1 = dinp@;
    let mut i: usize = 0;
    while i < hs
        invariant
            i <= hs,
            t < time,
            dinp.len() == mid1.len(),
            qoff + hs <= koff,
            koff + hs <= voff,
            voff + hs <= dinp.len(),
            qoff + (time - 1 - t) * stride + hs <= inp.len(),
            0 <= (time - 1 - t) * stride,
            pbase + t + (time - 1 - t) * time < dpreatt.len(),
            forall|j: int|
                koff <= j < koff + i ==> mac_scaled_chain(
                    inp@,
                    qoff + (j - koff),
                    stride as int,
                    dpreatt@,
                    pbase + t,
                    time as int,
                    scale,
                    time - t,
                    mid1[j],
                    #[trigger] dinp[j],
                ),
            forall|j: int|
                0 <= j < dinp.len() && !(koff <= j < koff + i) ==> #[trigger] dinp[j] == mid1[j],
        decreases hs - i,
    {
        let v = mac_scaled_strided(
            inp,
            qoff + i,
            stride,
            dpreatt,
            pbase + t,
            time,
            scale,
            time - t,
            dinp[koff + i],
        );
        dinp[koff + i] = v;
        i += 1;
    }
    let ghost mid2 = dinp@;
    let mut i: usize = 0;
    while i < hs
        invariant
            i <= hs,
            t < time,
            dinp.len() == mid2.len(),
            koff + hs <= voff,
            voff + hs <= dinp.len(),
            doff + (time - 1 - t) * chan + hs <= dout.len(),
            0 <= (time - 1 - t) * chan,
            pbase + t + (time - 1 - t) * time < att.len(),
            forall|j: int|
                voff <= j < voff + i ==> mac_chain(
                    att@,
                    pbase + t,
                    time as int,
                    dout@,
                    doff + (j - voff),
                    chan as int,
                    time - t,
                    mid2[j],
                    #[trigger] dinp[j],
                ),
            forall|j: int|
                0 <= j < dinp.len() && !(voff <= j < voff + i) ==> #[trigger] dinp[j] == mid2[j],
        decreases hs - i,
    {
        let v = mac_strided(att, pbase + t, time, dout, doff + i, chan, time - t, dinp[voff + i]);
        dinp[voff + i] = v;
        i += 1;
    }
}

/// What the first phase of the backward pass has added for head `h` at
/// position `(b, t)`, in the buffers as a whole.
pub open spec fn scores_at<S: Scalar>(
    att: Seq<S>,
    datt0: Seq<S>,
    datt1: Seq<S>,
    dpre0: Seq<S>,
    dpre1: Seq<S>,
    inp: Seq<S>,
    dout: Seq<S>,
    b: int,
    h: int,
    t: int,
    time: int,
    chan: int,
    heads: int,
) -> bool {
    let hs = chan / heads;
    let r = at3(b, h, t, heads, time);
    back_scores_post(
        row(att, r, time),
        row(datt0, r, time),
        row(datt1, r, time),
        row(dpre0, r, time),
        row(dpre1, r, time),
        inp,
        dout,
        v_at(b, 0, h, 0, time, chan, hs),
        o_at(b, t, h, 0, time, chan, hs),
        3 * chan,
        t,
        hs,
    )
}

/// The first phase is through with every head before `(b, t, h)`.
pub open spec fn scores_done<S: Scalar>(
    att: Seq<S>,
    datt0: Seq<S>,
    datt1: Seq<S>,
    dpre0: Seq<S>,
    dpre1: Seq<S>,
    inp: Seq<S>,
    dout: Seq<S>,
    b: int,
    t: int,
    h: int,
    batch: int,
    time: int,
    chan: int,
    heads: int,
) -> bool {
    forall|b2: int, h2: int, t2: int|
        0 <= b2 < batch && 0 <= h2 < heads && 0 <= t2 < time && head_before(b2, t2, h2, b, t, h)
            ==> #[trigger] scores_at(
            att,
            datt0,
            datt1,
            dpre0,
            dpre1,
            inp,
            dout,
            b2,
            h2,
            t2,
            time,
            chan,
            heads,
        )
}

/// The rows of the heads from `(b, t, h)` on are as before.
pub open spec fn rows_kept<S: Scalar>(
    before: Seq<S>,
    now: Seq<S>,
    b: int,
    t: int,
    h: int,
    batch: int,
    time: int,
    heads: int,
) -> bool {
    forall|b2: int, h2: int, t2: int|
        0 <= b2 < batch && 0 <= h2 < heads && 0 <= t2 < time && !head_before(b2, t2, h2, b, t, h)
            ==> #[trigger] row(now, at3(b2, h2, t2, heads, time), time) == row(
            before,
            at3(b2, h2, t2, heads, time),
            time,
        )
}

/// `new` is `old` plus what the second phase of the backward pass adds to one
/// entry of the input gradient.
///
/// The query of position `t` collects `(key[t2] * dpreatt[t, t2]) * scale`
/// over the positions `t2` up to `t`; the key of position `t` collects
/// `(query[t2] * dpreatt[t2, t]) * scale` and its value
/// `att[t2, t] * dout[t2]` over the positions `t2` from `t` on.
pub open spec fn dinp_cell<S: Scalar>(
    inp: Seq<S>,
    dpreatt: Seq<S>,
    att: Seq<S>,
    dout: Seq<S>,
    scale: S,
    b: int,
    t: int,
    part: int,
    h: int,
    i: int,
    time: int,
    chan: int,
    heads: int,
    old: S,
    new: S,
) -> bool {
    let hs = chan / heads;
    if part == 0 {
        mac_scaled_chain(
            inp,
            k_at(b, 0, h, i, time, chan, hs),
            3 * chan,
            dpreatt,
            att_at(b, h, t, 0, heads, time),
            1,
            scale,
            t + 1,
            old,
            new,
        )
    } else if part == 1 {
        mac_scaled_chain(
            inp,
            q_at(b, t, h, i, time, chan, hs),
            3 * chan,
            dpreatt,
            att_at(b, h, t, t, heads, time),
            time,
            scale,
            time - t,
            old,
            new,
        )
    } else {
        mac_chain(
            att,
            att_at(b, h, t, t, heads, time),
            time,
            dout,
            o_at(b, t, h, i, time, chan, hs),
            chan,
            time - t,
            old,
            new,
        )
    }
}

/// The second phase is through with every head before `(b, t, h)`, and has
/// not touched the others.
pub open spec fn dinp_done<S: Scalar>(
    dinp0: Seq<S>,
    dinp: Seq<S>,
    inp: Seq<S>,
    dpreatt: Seq<S>,
    att: Seq<S>,
    dout: Seq<S>,
    scale: S,
    b: int,
    t: int,
    h: int,
    batch: int,
    time: int,
    chan: int,
    heads: int,
) -> bool {
    forall|b2: int, t2: int, part: int, h2: int, i: int|
        0 <= b2 < batch && 0 <= t2 < time && 0 <= part < 3 && 0 <= h2 < heads && 0 <= i < chan
            / heads ==> if head_before(b2, t2, h2, b, t, h) {
            dinp_cell(
                inp,
                dpreatt,
                att,
                dout,
                scale,
                b2,
                t2,
                part,
                h2,
                i,
                time,
                chan,
                heads,
                dinp0[qkv_at(b2, t2, part, h2, i, time, chan, chan / heads)],
                #[trigger] dinp[qkv_at(b2, t2, part, h2, i, time, chan, chan / heads)],
            )
        } else {
            dinp[qkv_at(b2, t2, part, h2, i, time, chan, chan / heads)] == dinp0[qkv_at(
                b2,
                t2,
                part,
                h2,
                i,
                time,
                chan,
                chan / heads,
            )]
        }
}

/// What the backward pass adds to `dinp`, `dpreatt` and `datt`.
pub open spec fn attention_backward_post<S: Scalar>(
    dinp0: Seq<S>,
    dinp: Seq<S>,
    dpre0: Seq<S>,
    dpre: Seq<S>,
    datt0: Seq<S>,
    datt: Seq<S>,
    dout: Seq<S>,
    inp: Seq<S>,
    att: Seq<S>,
    batch: int,
    time: int,
    chan: int,
    heads: int,
) -> bool {
    &&& dinp.len() == dinp0.len()
    &&& dpre.len() == dpre0.len()
    &&& datt.len() == datt0.len()
    &&& scores_done(att, datt0, datt, dpre0, dpre, inp, dout, batch, 0, 0, batch, time, chan, heads)
    &&& future_scores_kept(datt0, datt, batch, time, heads)
    &&& future_scores_kept(dpre0, dpre, batch, time, heads)
    &&& exists|scale: S| #[trigger]
        att_scale(chan / heads, scale) && dinp_done(
            dinp0,
            dinp,
            inp,
            dpre,
            att,
            dout,
            scale,
            batch,
            0,
            0,
            batch,
            time,
            chan,
            heads,
        )
    &&& forall|j: int| batch * time * (3 * chan) <= j < dinp.len() ==> dinp[j] == dinp0[j]
}

/// One more head through the first phase: the heads before it keep what was
/// added for them, and the rows of the heads after it are still untouched.
proof fn lemma_scores_step<S: Scalar>(
    att: Seq<S>,
    datt0: Seq<S>,
    datt1: Seq<S>,
    datt2: Seq<S>,
    dpre0: Seq<S>,
    dpre1: Seq<S>,
    dpre2: Seq<S>,
    inp: Seq<S>,
    dout: Seq<S>,
    b: int,
    t: int,
    h: int,
    batch: int,
    time: int,
    chan: int,
    heads: int,
)
    requires
        0 <= b < batch,
        0 <= t < time,
        0 <= h < heads,
        chan == heads * (chan / heads),
        0 <= chan / heads,
        datt1.len() == datt0.len(),
        datt2.len() == datt0.len(),
        dpre1.len() == dpre0.len(),
        dpre2.len() == dpre0.len(),
        batch * heads * time * time <= datt0.len(),
        batch * heads * time * time <= dpre0.len(),
        batch * heads * time * time <= att.len(),
        scores_done(att, datt0, datt1, dpre0, dpre1, inp, dout, b, t, h, batch, time, chan, heads),
        rows_kept(datt0, datt1, b, t, h, batch, time, heads),
        rows_kept(dpre0, dpre1, b, t, h, batch, time, heads),
        back_scores_post(
            att.subrange(at3(b, h, t, heads, time) * time, at3(b, h, t, heads, time) * time + time),
            datt1.subrange(
                at3(b, h, t, heads, time) * time,
                at3(b, h, t, heads, time) * time + time,
            ),
            datt2.subrange(
                at3(b, h, t, heads, time) * time,
                at3(b, h, t, heads, time) * time + time,
            ),
            dpre1.subrange(
                at3(b, h, t, heads, time) * time,
                at3(b, h, t, heads, time) * time + time,
            ),
            dpre2.subrange(
                at3(b, h, t, heads, time) * time,
                at3(b, h, t, heads, time) * time + time,
            ),
            inp,
            dout,
            b * time * (3 * chan) + 2 * chan + h * (chan / heads),
            at2(b, t, time) * chan + h * (chan / heads),
            3 * chan,
            t,
            chan / heads,
        ),
        forall|j: int|
            0 <= j < datt1.len() && !(at3(b, h, t, heads, time) * time <= j <= at3(
                b,
                h,
                t,
                heads,
                time,
            ) * time + t) ==> datt2[j] == datt1[j],
        forall|j: int|
            0 <= j < dpre1.len() && !(at3(b, h, t, heads, time) * time <= j <= at3(
                b,
                h,
                t,
                heads,
                time,
            ) * time + t) ==> dpre2[j] == dpre1[j],
    ensures
        scores_done(
            att,
            datt0,
            datt2,
            dpre0,
            dpre2,
            inp,
            dout,
            b,
            t,
            h + 1,
            batch,
            time,
            chan,
            heads,
        ),
        rows_kept(datt0, datt2, b, t, h + 1, batch, time, heads),
        rows_kept(dpre0, dpre2, b, t, h + 1, batch, time, heads),
{
    let hs = chan / heads;
    lemma_head_offsets(b, t, h, batch, time, chan, heads, hs);
    let rr = at3(b, h, t, heads, time);
    assert(row(datt1, rr, time) == row(datt0, rr, time));
    assert(row(dpre1, rr, time) == row(dpre0, rr, time));
    assert forall|b2: int, h2: int, t2: int|
        0 <= b2 < batch && 0 <= h2 < heads && 0 <= t2 < time && head_before(
            b2,
            t2,
            h2,
            b,
            t,
            h + 1,
        ) implies #[trigger] scores_at(
        att,
        datt0,
        datt2,
        dpre0,
        dpre2,
        inp,
        dout,
        b2,
        h2,
        t2,
        time,
        chan,
        heads,
    ) by {
        lemma_head_offsets(b2, t2, h2, batch, time, chan, heads, hs);
        let r2 = at3(b2, h2, t2, heads, time);
        if b2 == b && t2 == t && h2 == h {
            assert(row(att, r2, time) =~= att.subrange(rr * time, rr * time + time));
            assert(row(datt0, r2, time) =~= datt1.subrange(rr * time, rr * time + time));
            assert(row(dpre0, r2, time) =~= dpre1.subrange(rr * time, rr * time + time));
            assert(row(datt2, r2, time) =~= datt2.subrange(rr * time, rr * time + time));
            assert(row(dpre2, r2, time) =~= dpre2.subrange(rr * time, rr * time + time));
            assert((b * time + 0) * (3 * chan) == b * time * (3 * chan));
        } else {
            assert(head_before(b2, t2, h2, b, t, h));
            assert(scores_at(
                att,
                datt0,
                datt1,
                dpre0,
                dpre1,
                inp,
                dout,
                b2,
                h2,
                t2,
                time,
                chan,
                heads,
            ));
            if r2 == rr {
                lemma_at3_unique(b2, h2, t2, b, h, t, heads, time);
            }
            if r2 < rr {
                lemma_at2_ordered(r2, rr, time);
            } else {
                lemma_at2_ordered(rr, r2, time);
            }
            assert(row(datt2, r2, time) =~= row(datt1, r2, time));
            assert(row(dpre2, r2, time) =~= row(dpre1, r2, time));
        }
    }
    assert forall|b2: int, h2: int, t2: int|
        0 <= b2 < batch && 0 <= h2 < heads && 0 <= t2 < time && !head_before(
            b2,
            t2,
            h2,
            b,
            t,
            h + 1,
        ) implies #[trigger] row(datt2, at3(b2, h2, t2, heads, time), time) == row(
        datt0,
        at3(b2, h2, t2, heads, time),
        time,
    ) by {
        lemma_head_offsets(b2, t2, h2, batch, time, chan, heads, hs);
        let r2 = at3(b2, h2, t2, heads, time);
        assert(!head_before(b2, t2, h2, b, t, h));
        assert(row(datt1, r2, time) == row(datt0, r2, time));
        if r2 == rr {
            lemma_at3_unique(b2, h2, t2, b, h, t, heads, time);
        }
        if r2 < rr {
            lemma_at2_ordered(r2, rr, time);
        } else {
            lemma_at2_ordered(rr, r2, time);
        }
        assert(row(datt2, r2, time) =~= row(datt1, r2, time));
    }
    assert forall|b2: int, h2: int, t2: int|
        0 <= b2 < batch && 0 <= h2 < heads && 0 <= t2 < time && !head_before(
            b2,
            t2,
            h2,
            b,
            t,
            h + 1,
        ) implies #[trigger] row(dpre2, at3(b2, h2, t2, heads, time), time) == row(
        dpre0,
        at3(b2, h2, t2, heads, time),
        time,
    ) by {
        lemma_head_offsets(b2, t2, h2, batch, time, chan, heads, hs);
        let r2 = at3(b2, h2, t2, heads, time);
        assert(!head_before(b2, t2, h2, b, t, h));
        assert(row(dpre1, r2, time) == row(dpre0, r2, time));
        if r2 == rr {
            lemma_at3_unique(b2, h2, t2, b, h, t, heads, time);
        }
        if r2 < rr {
            lemma_at2_ordered(r2, rr, time);
        } else {
            lemma_at2_ordered(rr, r2, time);
        }
        assert(row(dpre2, r2, time) =~= row(dpre1, r2, time));
    }
}

/// One more head through the second phase: its three segments hold what was
/// added for it, and every other entry is as it was.
proof fn lemma_dinp_step<S: Scalar>(
    dinp0: Seq<S>,
    dinp1: Seq<S>,
    dinp2: Seq<S>,
    inp: Seq<S>,
    dpreatt: Seq<S>,
    att: Seq<S>,
    dout: Seq<S>,
    scale: S,
    b: int,
    t: int,
    h: int,
    batch: int,
    time: int,
    chan: int,
    heads: int,
)
    requires
        0 <= b < batch,
        0 <= t < time,
        0 <= h < heads,
        chan == heads * (chan / heads),
        0 <= chan / heads,
        dinp1.len() == dinp0.len(),
        dinp2.len() == dinp0.len(),
        batch * time * (3 * chan) <= dinp0.len(),
        dinp_done(
            dinp0,
            dinp1,
            inp,
            dpreatt,
            att,
            dout,
            scale,
            b,
            t,
            h,
            batch,
            time,
            chan,
            heads,
        ),
        forall|j: int|
            at2(b, t, time) * (3 * chan) + h * (chan / heads) <= j < at2(b, t, time) * (3 * chan)
                + h * (chan / heads) + chan / heads ==> mac_scaled_chain(
                inp,
                b * time * (3 * chan) + chan + h * (chan / heads) + (j - (at2(b, t, time) * (3
                    * chan) + h * (chan / heads))),
                3 * chan,
                dpreatt,
                at3(b, h, t, heads, time) * time,
                1,
                scale,
                t + 1,
                dinp1[j],
                #[trigger] dinp2[j],
            ),
        forall|j: int|
            at2(b, t, time) * (3 * chan) + chan + h * (chan / heads) <= j < at2(b, t, time) * (3
                * chan) + chan + h * (chan / heads) + chan / heads ==> mac_scaled_chain(
                inp,
                at2(b, t, time) * (3 * chan) + h * (chan / heads) + (j - (at2(b, t, time) * (3
                    * chan) + chan + h * (chan / heads))),
                3 * chan,
                dpreatt,
                at3(b, h, t, heads, time) * time + t,
                time,
                scale,
                time - t,
                dinp1[j],
                #[trigger] dinp2[j],
            ),
        forall|j: int|
            at2(b, t, time) * (3 * chan) + 2 * chan + h * (chan / heads) <= j < at2(b, t, time)
                * (3 * chan) + 2 * chan + h * (chan / heads) + chan / heads ==> mac_chain(
                att,
                at3(b, h, t, heads, time) * time + t,
                time,
                dout,
                at2(b, t, time) * chan + h * (chan / heads) + (j - (at2(b, t, time) * (3 * chan)
                    + 2 * chan + h * (chan / heads))),
                chan,
                time - t,
                dinp1[j],
                #[trigger] dinp2[j],
            ),
        forall|j: int|
            0 <= j < dinp1.len() && !(at2(b, t, time) * (3 * chan) + h * (chan / heads) <= j
                < at2(b, t, time) * (3 * chan) + h * (chan / heads) + chan / heads) && !(at2(
                b,
                t,
                time,
            ) * (3 * chan) + chan + h * (chan / heads) <= j < at2(b, t, time) * (3 * chan) + chan
                + h * (chan / heads) + chan / heads) && !(at2(b, t, time) * (3 * chan) + 2 * chan
                + h * (chan / heads) <= j < at2(b, t, time) * (3 * chan) + 2 * chan + h * (chan
                / heads) + chan / heads) ==> #[trigger] dinp2[j] == dinp1[j],
    ensures
        dinp_done(
            dinp0,
            dinp2,
            inp,
            dpreatt,
            att,
            dout,
            scale,
            b,
            t,
            h + 1,
            batch,
            time,
            chan,
            heads,
        ),
{
    let hs = chan / heads;
    let c3 = 3 * chan;
    let pos = at2(b, t, time);
    let qoff = pos * c3 + h * hs;
    lemma_head_offsets(b, t, h, batch, time, chan, heads, hs);
    assert forall|b2: int, t2: int, part: int, h2: int, i: int|
        0 <= b2 < batch && 0 <= t2 < time && 0 <= part < 3 && 0 <= h2 < heads && 0 <= i
            < hs implies if head_before(b2, t2, h2, b, t, h + 1) {
        dinp_cell(
            inp,
            dpreatt,
            att,
            dout,
            scale,
            b2,
            t2,
            part,
            h2,
            i,
            time,
            chan,
            heads,
            dinp0[qkv_at(b2, t2, part, h2, i, time, chan, hs)],
            #[trigger] dinp2[qkv_at(b2, t2, part, h2, i, time, chan, hs)],
        )
    } else {
        dinp2[qkv_at(b2, t2, part, h2, i, time, chan, hs)] == dinp0[qkv_at(
            b2,
            t2,
            part,
            h2,
            i,
            time,
            chan,
            hs,
        )]
    } by {
        let k = qkv_at(b2, t2, part, h2, i, time, chan, hs);
        lemma_qkv_in_table(b2, t2, part, h2, i, batch, time, chan, heads, hs);
        assert(if head_before(b2, t2, h2, b, t, h) {
            dinp_cell(
                inp,
                dpreatt,
                att,
                dout,
                scale,
                b2,
                t2,
                part,
                h2,
                i,
                time,
                chan,
                heads,
                dinp0[k],
                dinp1[k],
            )
        } else {
            dinp1[k] == dinp0[k]
        });
        if b2 == b && t2 == t && h2 == h {
            assert(k == qoff + part * chan + i);
            assert((b * time + 0) * (3 * chan) == b * time * (3 * chan));
            assert(att_at(b, h, t, 0, heads, time) == at3(b, h, t, heads, time) * time);
            assert(att_at(b, h, t, t, heads, time) == at3(b, h, t, heads, time) * time + t);
            if part == 0 {
                assert(k_at(b, 0, h, i, time, chan, hs) == b * time * c3 + chan + h * hs + (k
                    - qoff));
            } else if part == 1 {
                assert(q_at(b, t, h, i, time, chan, hs) == qoff + (k - (qoff + chan)));
            } else {
                assert(o_at(b, t, h, i, time, chan, hs) == pos * chan + h * hs + (k - (qoff + 2
                    * chan)));
            }
        } else {
            if qoff <= k < qoff + hs {
                lemma_qkv_in_table(b, t, 0, h, k - qoff, batch, time, chan, heads, hs);
                lemma_qkv_unique(b2, t2, part, h2, i, b, t, 0, h, k - qoff, time, chan, heads, hs);
            }
            if qoff + chan <= k < qoff + chan + hs {
                lemma_qkv_in_table(b, t, 1, h, k - qoff - chan, batch, time, chan, heads, hs);
                lemma_qkv_unique(
                    b2,
                    t2,
                    part,
                    h2,
                    i,
                    b,
                    t,
                    1,
                    h,
                    k - qoff - chan,
                    time,
                    chan,
                    heads,
                    hs,
                );
            }
            if qoff + 2 * chan <= k < qoff + 2 * chan + hs {
                lemma_qkv_in_table(b, t, 2, h, k - qoff - 2 * chan, batch, time, chan, heads, hs);
                lemma_qkv_unique(
                    b2,
                    t2,
                    part,
                    h2,
                    i,
                    b,
                    t,
                    2,
                    h,
                    k - qoff - 2 * chan,
                    time,
                    chan,
                    heads,
                    hs,
                );
            }
            assert(dinp2[k] == dinp1[k]);
        }
    }
}

/// Adds to `dinp`, `dpreatt` and `datt` the gradients that `dout` induces, from
/// the input and the probabilities that the forward pass kept.
///
/// A first phase goes through the weighted sum and the softmax of every head
/// and position, a second through the scores into the queries, keys and
/// values. Each entry collects its terms in the order of the positions.
pub fn attention_backward<S: Scalar>(
    dinp: &mut [S],
    dpreatt: &mut [S],
    datt: &mut [S],
    dout: &[S],
    inp: &[S],
    att: &[S],
    batch: usize,
    time: usize,
    chan: usize,
    heads: usize,
)
    requires
        heads > 0,
        chan % heads == 0,
        batch * time * (3 * chan) <= old(dinp).len(),
        batch * heads * time * time <= old(dpreatt).len(),
        batch * heads * time * time <= old(datt).len(),
        batch * time * chan <= dout.len(),
        batch * time * (3 * chan) <= inp.len(),
        batch * heads * time * time <= att.len(),
    ensures
        attention_backward_post(
            old(dinp)@,
            final(dinp)@,
            old(dpreatt)@,
            final(dpreatt)@,
            old(datt)@,
            final(datt)@,
            dout@,
            inp@,
            att@,
            batch as int,
            time as int,
            chan as int,
            heads as int,
        ),
{
    let hs = chan / heads;
    proof {
        assert(chan == heads * hs) by (nonlinear_arith)
            requires
                hs == chan / heads,
                chan % heads == 0,
                heads > 0,
        ;
    }
    let one = S::from_usize(1);
    let scale = one.div(S::from_usize(hs).sqrt());
    assert(att_scale(hs as int, scale));
    let mut b: usize = 0;
    while b < batch
        invariant
            b <= batch,
            heads > 0,
            hs == chan / heads,
            chan == heads * hs,
            dinp.len() == old(dinp).len(),
            dpreatt.len() == old(dpreatt).len(),
            datt.len() == old(datt).len(),
            batch * time * (3 * chan) <= dinp.len(),
            batch * heads * time * time <= dpreatt.len(),
            batch * heads * time * time <= datt.len(),
            batch * time * chan <= dout.len(),
            batch * time * (3 * chan) <= inp.len(),
            batch * heads * time * time <= att.len(),
            dinp@ == old(dinp)@,
            scores_done(
                att@,
                old(datt)@,
                datt@,
                old(dpreatt)@,
                dpreatt@,
                inp@,
                dout@,
                b as int,
                0,
                0,
                batch as int,
                time as int,
                chan as int,
                heads as int,
            ),
            rows_kept(old(datt)@, datt@, b as int, 0, 0, batch as int, time as int, heads as int),
            rows_kept(
                old(dpreatt)@,
                dpreatt@,
                b as int,
                0,
                0,
                batch as int,
                time as int,
                heads as int,
            ),
            future_scores_kept(old(datt)@, datt@, batch as int, time as int, heads as int),
            future_scores_kept(old(dpreatt)@, dpreatt@, batch as int, time as int, heads as int),
        decreases batch - b,
    {
        let mut t: usize = 0;
        while t < time
            invariant
                b < batch,
                t <= time,
                heads > 0,
                hs == chan / heads,
                chan == heads * hs,
                dinp.len() == old(dinp).len(),
                dpreatt.len() == old(dpreatt).len(),
                datt.len() == old(datt).len(),
                batch * time * (3 * chan) <= dinp.len(),
                batch * heads * time * time <= dpreatt.len(),
                batch * heads * time * time <= datt.len(),
                batch * time * chan <= dout.len(),
                batch * time * (3 * chan) <= inp.len(),
                batch * heads * time * time <= att.len(),
                dinp@ == old(dinp)@,
                scores_done(
                    att@,
                    old(datt)@,
                    datt@,
                    old(dpreatt)@,
                    dpreatt@,
                    inp@,
                    dout@,
                    b as int,
                    t as int,
                    0,
                    batch as int,
                    time as int,
                    chan as int,
                    heads as int,
                ),
                rows_kept(
                    old(datt)@,
                    datt@,
                    b as int,
                    t as int,
                    0,
                    batch as int,
                    time as int,
                    heads as int,
                ),
                rows_kept(
                    old(dpreatt)@,
                    dpreatt@,
                    b as int,
                    t as int,
                    0,
                    batch as int,
                    time as int,
                    heads as int,
                ),
                future_scores_kept(old(datt)@, datt@, batch as int, time as int, heads as int),
                future_scores_kept(
                    old(dpreatt)@,
                    dpreatt@,
                    batch as int,
                    time as int,
                    heads as int,
                ),
            decreases time - t,
        {
            let mut h: usize = 0;
            while h < heads
                invariant
                    b < batch,
                    t < time,
                    h <= heads,
                    heads > 0,
                    hs == chan / heads,
                    chan == heads * hs,
                    dinp.len() == old(dinp).len(),
                    dpreatt.len() == old(dpreatt).len(),
                    datt.len() == old(datt).len(),
                    batch * time * (3 * chan) <= dinp.len(),
                    batch * heads * time * time <= dpreatt.len(),
                    batch * heads * time * time <= datt.len(),
                    batch * time * chan <= dout.len(),
                    batch * time * (3 * chan) <= inp.len(),
                    batch * heads * time * time <= att.len(),
                    dinp@ == old(dinp)@,
                    scores_done(
                        att@,
                        old(datt)@,
                        datt@,
                        old(dpreatt)@,
                        dpreatt@,
                        inp@,
                        dout@,
                        b as int,
                        t as int,
                        h as int,
                        batch as int,
                        time as int,
                        chan as int,
                        heads as int,
                    ),
                    rows_kept(
                        old(datt)@,
                        datt@,
                        b as int,
                        t as int,
                        h as int,
                        batch as int,
                        time as int,
                        heads as int,
                    ),
                    rows_kept(
                        old(dpreatt)@,
                        dpreatt@,
                        b as int,
                        t as int,
                        h as int,
                        batch as int,
                        time as int,
                        heads as int,
                    ),
                    future_scores_kept(old(datt)@, datt@, batch as int, time as int, heads as int),
                    future_scores_kept(
                        old(dpreatt)@,
                        dpreatt@,
                        batch as int,
                        time as int,
                        heads as int,
                    ),
                decreases heads - h,
            {
                proof {
                    lemma_head_offsets(
                        b as int,
                        t as int,
                        h as int,
                        batch as int,
                        time as int,
                        chan as int,
                        heads as int,
                        hs as int,
                    );
                    lemma_tail_offsets(
                        b as int,
                        t as int,
                        h as int,
                        batch as int,
                        time as int,
                        chan as int,
                        heads as int,
                        hs as int,
                    );
                }
                let pos = b * time + t;
                let stride = 3 * chan;
                let seq0 = b * time * stride;
                let pbase = ((b * heads + h) * time + t) * time;
                let doff = pos * chan + h * hs;
                let v0 = seq0 + 2 * chan + h * hs;
                let ghost datt1 = datt@;
                let ghost dpre1 = dpreatt@;
                attention_head_backward_scores(
                    dpreatt,
                    datt,
                    dout,
                    inp,
                    att,
                    pbase,
                    doff,
                    v0,
                    stride,
                    t,
                    time,
                    hs,
                );
                proof {
                    lemma_scores_step(
                        att@,
                        old(datt)@,
                        datt1,
                        datt@,
                        old(dpreatt)@,
                        dpre1,
                        dpreatt@,
                        inp@,
                        dout@,
                        b as int,
                        t as int,
                        h as int,
                        batch as int,
                        time as int,
                        chan as int,
                        heads as int,
                    );
                    lemma_future_step(
                        old(datt)@,
                        datt1,
                        datt@,
                        b as int,
                        t as int,
                        h as int,
                        batch as int,
                        time as int,
                        heads as int,
                    );
                    lemma_future_step(
                        old(dpreatt)@,
                        dpre1,
                        dpreatt@,
                        b as int,
                        t as int,
                        h as int,
                        batch as int,
                        time as int,
                        heads as int,
                    );
                }
                h += 1;
            }
            proof {
                lemma_order_next_position(b as int, t as int, heads as int);
            }
            t += 1;
        }
        proof {
            lemma_order_next_sequence(b as int, time as int);
        }
        b += 1;
    }
    let mut b: usize = 0;
    while b < batch
        invariant
            b <= batch,
            heads > 0,
            hs == chan / heads,
            chan == heads * hs,
            dinp.len() == old(dinp).len(),
            dpreatt.len() == old(dpreatt).len(),
            datt.len() == old(datt).len(),
            batch * time * (3 * chan) <= dinp.len(),
            batch * heads * time * time <= dpreatt.len(),
            batch * heads * time * time <= datt.len(),
            batch * time * chan <= dout.len(),
            batch * time * (3 * chan) <= inp.len(),
            batch * heads * time * time <= att.len(),
            att_scale(hs as int, scale),
            dinp_done(
                old(dinp)@,
                dinp@,
                inp@,
                dpreatt@,
                att@,
                dout@,
                scale,
                b as int,
                0,
                0,
                batch as int,
                time as int,
                chan as int,
                heads as int,
            ),
            forall|j: int| batch * time * (3 * chan) <= j < dinp.len() ==> dinp[j] == old(dinp)[j],
        decreases batch - b,
    {
        let mut t: usize = 0;
        while t < time
            invariant
                b < batch,
                t <= time,
                heads > 0,
                hs == chan / heads,
                chan == heads * hs,
                dinp.len() == old(dinp).len(),
                dpreatt.len() == old(dpreatt).len(),
                datt.len() == old(datt).len(),
                batch * time * (3 * chan) <= dinp.len(),
                batch * heads * time * time <= dpreatt.len(),
                batch * heads * time * time <= datt.len(),
                batch * time * chan <= dout.len(),
                batch * time * (3 * chan) <= inp.len(),
                batch * heads * time * time <= att.len(),
                att_scale(hs as int, scale),
                dinp_done(
                    old(dinp)@,
                    dinp@,
                    inp@,
                    dpreatt@,
                    att@,
                    dout@,
                    scale,
                    b as int,
                    t as int,
                    0,
                    batch as int,
                    time as int,
                    chan as int,
                    heads as int,
                ),
                forall|j: int|
                    batch * time * (3 * chan) <= j < dinp.len() ==> dinp[j] == old(dinp)[j],
            decreases time - t,
        {
            let mut h: usize = 0;
            while h < heads
                invariant
                    b < batch,
                    t < time,
                    h <= heads,
                    heads > 0,
                    hs == chan / heads,
                    chan == heads * hs,
                    dinp.len() == old(dinp).len(),
                    dpreatt.len() == old(dpreatt).len(),
                    datt.len() == old(datt).len(),
                    batch * time * (3 * chan) <= dinp.len(),
                    batch * heads * time * time <= dpreatt.len(),
                    batch * heads * time * time <= datt.len(),
                    batch * time * chan <= dout.len(),
                    batch * time * (3 * chan) <= inp.len(),
                    batch * heads * time * time <= att.len(),
                    att_scale(hs as int, scale),
                    dinp_done(
                        old(dinp)@,
                        dinp@,
                        inp@,
                        dpreatt@,
                        att@,
                        dout@,
                        scale,
                        b as int,
                        t as int,
                        h as int,
                        batch as int,
                        time as int,
                        chan as int,
                        heads as int,
                    ),
                    forall|j: int|
                        batch * time * (3 * chan) <= j < dinp.len() ==> dinp[j] == old(dinp)[j],
                decreases heads - h,
            {
                proof {
                    lemma_head_offsets(
                        b as int,
                        t as int,
                        h as int,
                        batch as int,
                        time as int,
                        chan as int,
                        heads as int,
                        hs as int,
                    );
                    lemma_tail_offsets(
                        b as int,
                        t as int,
                        h as int,
                        batch as int,
                        time as int,
                        chan as int,
                        heads as int,
                        hs as int,
                    );
                }
                let pos = b * time + t;
                let stride = 3 * chan;
                let seq0 = b * time * stride;
                let pbase = ((b * heads + h) * time + t) * time;
                let doff = pos * chan + h * hs;
                let qoff = pos * stride + h * hs;
                let koff = qoff + chan;
                let voff = koff + chan;
                let k0 = seq0 + chan + h * hs;
                let ghost dinp1 = dinp@;
                attention_head_backward_input(
                    dinp,
                    inp,
                    dpreatt,
                    att,
                    dout,
                    scale,
                    qoff,
                    koff,
                    voff,
                    k0,
                    doff,
                    pbase,
                    stride,
                    chan,
                    t,
                    time,
                    hs,
                );
                proof {
                    lemma_dinp_step(
                        old(dinp)@,
                        dinp1,
                        dinp@,
                        inp@,
                        dpreatt@,
                        att@,
                        dout@,
                        scale,
                        b as int,
                        t as int,
                        h as int,
                        batch as int,
                        time as int,
                        chan as int,
                        heads as int,
                    );
                }
                h += 1;
            }
            proof {
                lemma_order_next_position(b as int, t as int, heads as int);
            }
            t += 1;
        }
        proof {
            lemma_order_next_sequence(b as int, time as int);
        }
        b += 1;
    }
}

/// With an arithmetic that is a function, the gradient through the softmax
/// has one sum for rows of `datt` that agree in their first `n` entries.
pub proof fn lemma_jac_chain_agree<S: Scalar>(
    att: Seq<S>,
    datt1: Seq<S>,
    datt2: Seq<S>,
    t3: int,
    n: int,
    init: S,
    r1: S,
    r2: S,
)
    requires
        functional::<S>(),
        jac_chain(att, datt1, t3, n, init, r1),
        jac_chain(att, datt2, t3, n, init, r2),
        forall|k: int| 0 <= k < n ==> #[trigger] datt1[k] == datt2[k],
    ensures
        r1 == r2,
    decreases n,
{
    if n > 0 {
        let a2 = att[n - 1];
        let a3 = att[t3];
        let da1 = datt1[n - 1];
        let da2 = datt2[n - 1];
        let unit: usize = if n - 1 == t3 {
            1
        } else {
            0
        };
        let (p1, ind1, d1, ld1, g1) = choose|p: S, ind: S, d: S, ld: S, g: S|
            #![trigger is_sub(ind, a3, d), is_mul(ld, da1, g), is_add(p, g, r1)]
            jac_chain(att, datt1, t3, n - 1, init, p) && is_num(unit, ind) && is_sub(ind, a3, d)
                && is_mul(a2, d, ld) && is_mul(ld, da1, g) && is_add(p, g, r1);
        let (p2, ind2, d2, ld2, g2) = choose|p: S, ind: S, d: S, ld: S, g: S|
            #![trigger is_sub(ind, a3, d), is_mul(ld, da2, g), is_add(p, g, r2)]
            jac_chain(att, datt2, t3, n - 1, init, p) && is_num(unit, ind) && is_sub(ind, a3, d)
                && is_mul(a2, d, ld) && is_mul(ld, da2, g) && is_add(p, g, r2);
        lemma_jac_chain_agree(att, datt1, datt2, t3, n - 1, init, p1, p2);
        assert(datt1[n - 1] == datt2[n - 1]);
        assert(ind1 == ind2);
        assert(d1 == d2);
        assert(ld1 == ld2);
        assert(g1 == g2);
    }
}

/// With an arithmetic that is a function, the first phase of the backward
/// pass adds the same to the rows of one head at one position, run after run.
pub proof fn lemma_back_scores_unique<S: Scalar>(
    att: Seq<S>,
    datt0: Seq<S>,
    datt1: Seq<S>,
    datt2: Seq<S>,
    dpre0: Seq<S>,
    dpre1: Seq<S>,
    dpre2: Seq<S>,
    inp: Seq<S>,
    dout: Seq<S>,
    v0: int,
    doff: int,
    stride: int,
    t: int,
    hs: int,
)
    requires
        functional::<S>(),
        back_scores_post(att, datt0, datt1, dpre0, dpre1, inp, dout, v0, doff, stride, t, hs),
        back_scores_post(att, datt0, datt2, dpre0, dpre2, inp, dout, v0, doff, stride, t, hs),
    ensures
        forall|t2: int| 0 <= t2 <= t ==> #[trigger] datt1[t2] == datt2[t2],
        forall|t3: int| 0 <= t3 <= t ==> #[trigger] dpre1[t3] == dpre2[t3],
{
    assert forall|t2: int| 0 <= t2 <= t implies #[trigger] datt1[t2] == datt2[t2] by {
        lemma_mac_chain_unique(
            inp,
            v0 + t2 * stride,
            1,
            dout,
            doff,
            1,
            hs,
            datt0[t2],
            datt1[t2],
            datt2[t2],
        );
    }
    assert forall|t3: int| 0 <= t3 <= t implies #[trigger] dpre1[t3] == dpre2[t3] by {
        lemma_jac_chain_agree(att, datt1, datt2, t3, t + 1, dpre0[t3], dpre1[t3], dpre2[t3]);
    }
}

/// With an arithmetic that is a function, two runs of the backward pass from
/// the same state add the same to `datt` and `dpreatt` in the rows of every
/// head and position up to the position, and to every entry of `dinp`.
pub proof fn lemma_attention_backward_determined<S: Scalar>(
    dinp0: Seq<S>,
    dinp1: Seq<S>,
    dinp2: Seq<S>,
    dpre0: Seq<S>,
    dpre1: Seq<S>,
    dpre2: Seq<S>,
    datt0: Seq<S>,
    datt1: Seq<S>,
    datt2: Seq<S>,
    dout: Seq<S>,
    inp: Seq<S>,
    att: Seq<S>,
    batch: int,
    time: int,
    chan: int,
    heads: int,
)
    requires
        functional::<S>(),
        heads > 0,
        0 <= chan / heads,
        chan == heads * (chan / heads),
        batch * heads * time * time <= dpre0.len(),
        batch * heads * time * time <= datt0.len(),
        attention_backward_post(
            dinp0,
            dinp1,
            dpre0,
            dpre1,
            datt0,
            datt1,
            dout,
            inp,
            att,
            batch,
            time,
            chan,
            heads,
        ),
        attention_backward_post(
            dinp0,
            dinp2,
            dpre0,
            dpre2,
            datt0,
            datt2,
            dout,
            inp,
            att,
            batch,
            time,
            chan,
            heads,
        ),
    ensures
        forall|b: int, h: int, t: int, t2: int|
            0 <= b < batch && 0 <= h < heads && 0 <= t2 <= t < time ==> #[trigger] datt1[att_at(
                b,
                h,
                t,
                t2,
                heads,
                time,
            )] == datt2[att_at(b, h, t, t2, heads, time)],
        forall|b: int, h: int, t: int, t2: int|
            0 <= b < batch && 0 <= h < heads && 0 <= t2 <= t < time ==> #[trigger] dpre1[att_at(
                b,
                h,
                t,
                t2,
                heads,
                time,
            )] == dpre2[att_at(b, h, t, t2, heads, time)],
        forall|b: int, t: int, part: int, h: int, i: int|
            0 <= b < batch && 0 <= t < time && 0 <= part < 3 && 0 <= h < heads && 0 <= i < chan
                / heads ==> #[trigger] dinp1[qkv_at(b, t, part, h, i, time, chan, chan / heads)]
                == dinp2[qkv_at(b, t, part, h, i, time, chan, chan / heads)],
{
    let hs = chan / heads;
    lemma_scores_rows_agree(
        dpre0,
        dpre1,
        dpre2,
        datt0,
        datt1,
        datt2,
        dout,
        inp,
        att,
        batch,
        time,
        chan,
        heads,
    );
    let s1 = choose|scale: S| #[trigger]
        att_scale(hs, scale) && dinp_done(
            dinp0,
            dinp1,
            inp,
            dpre1,
            att,
            dout,
            scale,
            batch,
            0,
            0,
            batch,
            time,
            chan,
            heads,
        );
    let s2 = choose|scale: S| #[trigger]
        att_scale(hs, scale) && dinp_done(
            dinp0,
            dinp2,
            inp,
            dpre2,
            att,
            dout,
            scale,
            batch,
            0,
            0,
            batch,
            time,
            chan,
            heads,
        );
    lemma_att_scale_unique(hs, s1, s2);
    assert forall|b: int, t: int, part: int, h: int, i: int|
        0 <= b < batch && 0 <= t < time && 0 <= part < 3 && 0 <= h < heads && 0 <= i
            < hs implies #[trigger] dinp1[qkv_at(b, t, part, h, i, time, chan, hs)] == dinp2[qkv_at(
        b,
        t,
        part,
        h,
        i,
        time,
        chan,
        hs,
    )] by {
        let k = qkv_at(b, t, part, h, i, time, chan, hs);
        assert(head_before(b, t, h, batch, 0, 0));
        assert(dinp_cell(
            inp,
            dpre1,
            att,
            dout,
            s1,
            b,
            t,
            part,
            h,
            i,
            time,
            chan,
            heads,
            dinp0[k],
            dinp1[k],
        ));
        assert(dinp_cell(
            inp,
            dpre2,
            att,
            dout,
            s1,
            b,
            t,
            part,
            h,
            i,
            time,
            chan,
            heads,
            dinp0[k],
            dinp2[k],
        ));
        if part == 0 {
            let yo = att_at(b, h, t, 0, heads, time);
            assert forall|j: int| 0 <= j < t + 1 implies #[trigger] entry(dpre1, yo, 1, j) == entry(
                dpre2,
                yo,
                1,
                j,
            ) by {
                assert(yo + j * 1 == att_at(b, h, t, j, heads, time));
                assert(dpre1[att_at(b, h, t, j, heads, time)] == dpre2[att_at(
                    b,
                    h,
                    t,
                    j,
                    heads,
                    time,
                )]);
            }
            lemma_mac_scaled_chain_agree(
                inp,
                k_at(b, 0, h, i, time, chan, hs),
                3 * chan,
                dpre1,
                dpre2,
                yo,
                1,
                s1,
                t + 1,
                dinp0[k],
                dinp1[k],
                dinp2[k],
            );
        } else if part == 1 {
            let yo = att_at(b, h, t, t, heads, time);
            assert forall|j: int| 0 <= j < time - t implies #[trigger] entry(dpre1, yo, time, j)
                == entry(dpre2, yo, time, j) by {
                assert(yo + j * time == att_at(b, h, t + j, t, heads, time)) by (nonlinear_arith)
                    requires
                        yo == ((b * heads + h) * time + t) * time + t,
                        att_at(b, h, t + j, t, heads, time) == ((b * heads + h) * time + (t + j))
                            * time + t,
                ;
                assert(dpre1[att_at(b, h, t + j, t, heads, time)] == dpre2[att_at(
                    b,
                    h,
                    t + j,
                    t,
                    heads,
                    time,
                )]);
            }
            lemma_mac_scaled_chain_agree(
                inp,
                q_at(b, t, h, i, time, chan, hs),
                3 * chan,
                dpre1,
                dpre2,
                yo,
                time,
                s1,
                time - t,
                dinp0[k],
                dinp1[k],
                dinp2[k],
            );
        } else {
            lemma_mac_chain_unique(
                att,
                att_at(b, h, t, t, heads, time),
                time,
                dout,
                o_at(b, t, h, i, time, chan, hs),
                chan,
                time - t,
                dinp0[k],
                dinp1[k],
                dinp2[k],
            );
        }
    }
}

/// With an arithmetic that is a function, two runs of the first phase of the
/// backward pass from the same state agree on every entry of `datt` and
/// `dpreatt` that belongs to a head and a position not after its own.
pub proof fn lemma_scores_rows_agree<S: Scalar>(
    dpre0: Seq<S>,
    dpre1: Seq<S>,
    dpre2: Seq<S>,
    datt0: Seq<S>,
    datt1: Seq<S>,
    datt2: Seq<S>,
    dout: Seq<S>,
    inp: Seq<S>,
    att: Seq<S>,
    batch: int,
    time: int,
    chan: int,
    heads: int,
)
    requires
        functional::<S>(),
        heads > 0,
        0 <= chan / heads,
        chan == heads * (chan / heads),
        batch * heads * time * time <= dpre0.len(),
        batch * heads * time * time <= datt0.len(),
        dpre1.len() == dpre0.len(),
        dpre2.len() == dpre0.len(),
        datt1.len() == datt0.len(),
        datt2.len() == datt0.len(),
        scores_done(
            att,
            datt0,
            datt1,
            dpre0,
            dpre1,
            inp,
            dout,
            batch,
            0,
            0,
            batch,
            time,
            chan,
            heads,
        ),
        scores_done(
            att,
            datt0,
            datt2,
            dpre0,
            dpre2,
            inp,
            dout,
            batch,
            0,
            0,
            batch,
            time,
            chan,
            heads,
        ),
    ensures
        forall|b: int, h: int, t: int, t2: int|
            0 <= b < batch && 0 <= h < heads && 0 <= t2 <= t < time ==> #[trigger] datt1[att_at(
                b,
                h,
                t,
                t2,
                heads,
                time,
            )] == datt2[att_at(b, h, t, t2, heads, time)],
        forall|b: int, h: int, t: int, t2: int|
            0 <= b < batch && 0 <= h < heads && 0 <= t2 <= t < time ==> #[trigger] dpre1[att_at(
                b,
                h,
                t,
                t2,
                heads,
                time,
            )] == dpre2[att_at(b, h, t, t2, heads, time)],
{
    let hs = chan / heads;
    assert forall|b: int, h: int, t: int, t2: int|
        0 <= b < batch && 0 <= h < heads && 0 <= t2 <= t < time implies #[trigger] datt1[att_at(
        b,
        h,
        t,
        t2,
        heads,
        time,
    )] == datt2[att_at(b, h, t, t2, heads, time)] by {
        let r = at3(b, h, t, heads, time);
        lemma_head_offsets(b, t, h, batch, time, chan, heads, hs);
        assert(head_before(b, t, h, batch, 0, 0));
        assert(scores_at(att, datt0, datt1, dpre0, dpre1, inp, dout, b, h, t, time, chan, heads));
        assert(scores_at(att, datt0, datt2, dpre0, dpre2, inp, dout, b, h, t, time, chan, heads));
        lemma_back_scores_unique(
            row(att, r, time),
            row(datt0, r, time),
            row(datt1, r, time),
            row(datt2, r, time),
            row(dpre0, r, time),
            row(dpre1, r, time),
            row(dpre2, r, time),
            inp,
            dout,
            v_at(b, 0, h, 0, time, chan, hs),
            o_at(b, t, h, 0, time, chan, hs),
            3 * chan,
            t,
            hs,
        );
        assert(row(datt1, r, time)[t2] == datt1[att_at(b, h, t, t2, heads, time)]);
        assert(row(datt2, r, time)[t2] == datt2[att_at(b, h, t, t2, heads, time)]);
        assert(row(dpre1, r, time)[t2] == dpre1[att_at(b, h, t, t2, heads, time)]);
        assert(row(dpre2, r, time)[t2] == dpre2[att_at(b, h, t, t2, heads, time)]);
    }
    assert forall|b: int, h: int, t: int, t2: int|
        0 <= b < batch && 0 <= h < heads && 0 <= t2 <= t < time implies #[trigger] dpre1[att_at(
        b,
        h,
        t,
        t2,
        heads,
        time,
    )] == dpre2[att_at(b, h, t, t2, heads, time)] by {
        let r = at3(b, h, t, heads, time);
        lemma_head_offsets(b, t, h, batch, time, chan, heads, hs);
        assert(head_before(b, t, h, batch, 0, 0));
        assert(scores_at(att, datt0, datt1, dpre0, dpre1, inp, dout, b, h, t, time, chan, heads));
        assert(scores_at(att, datt0, datt2, dpre0, dpre2, inp, dout, b, h, t, time, chan, heads));
        lemma_back_scores_unique(
            row(att, r, time),
            row(datt0, r, time),
            row(datt1, r, time),
            row(datt2, r, time),
            row(dpre0, r, time),
            row(dpre1, r, time),
            row(dpre2, r, time),
            inp,
            dout,
            v_at(b, 0, h, 0, time, chan, hs),
            o_at(b, t, h, 0, time, chan, hs),
            3 * chan,
            t,
            hs,
        );
        assert(row(datt1, r, time)[t2] == datt1[att_at(b, h, t, t2, heads, time)]);
        assert(row(datt2, r, time)[t2] == datt2[att_at(b, h, t, t2, heads, time)]);
        assert(row(dpre1, r, time)[t2] == dpre1[att_at(b, h, t, t2, heads, time)]);
        assert(row(dpre2, r, time)[t2] == dpre2[att_at(b, h, t, t2, heads, time)]);
    }
}

/// The gradient through the softmax adds one number to what a score gradient
/// held: with exact additions there is a `delta`, the same for every start,
/// such that the result is the start plus `delta`. The number depends on the
/// row of `datt` that the sum is taken with.
pub proof fn lemma_jac_chain_additive<S: Scalar>(att: Seq<S>, datt: Seq<S>, t3: int, n: int) -> (delta:
    S)
    requires
        exact_sums::<S>(),
    ensures
        forall|init: S, r: S| #[trigger] jac_chain(att, datt, t3, n, init, r) ==> is_add(
            init,
            delta,
            r,
        ),
    decreases n,
{
    if n <= 0 {
        let z = choose|z: S| neutral(z);
        assert forall|init: S, r: S| #[trigger] jac_chain(att, datt, t3, n, init, r) implies is_add(
            init,
            z,
            r,
        ) by {
            assert(is_add(init, z, init));
        }
        z
    } else {
        let prev = lemma_jac_chain_additive(att, datt, t3, n - 1);
        let a2 = att[n - 1];
        let a3 = att[t3];
        let da = datt[n - 1];
        let unit: usize = if n - 1 == t3 {
            1
        } else {
            0
        };
        if exists|ind: S, d: S, ld: S, g: S|
            #![trigger is_sub(ind, a3, d), is_mul(ld, da, g)]
            is_num(unit, ind) && is_sub(ind, a3, d) && is_mul(a2, d, ld) && is_mul(ld, da, g) {
            let (ind0, d0, ld0, term) = choose|ind: S, d: S, ld: S, g: S|
                #![trigger is_sub(ind, a3, d), is_mul(ld, da, g)]
                is_num(unit, ind) && is_sub(ind, a3, d) && is_mul(a2, d, ld) && is_mul(ld, da, g);
            assert(has_sum(prev, term));
            let delta = choose|s: S| is_add(prev, term, s);
            assert forall|init: S, r: S| #[trigger]
                jac_chain(att, datt, t3, n, init, r) implies is_add(init, delta, r) by {
                let (p, ind, d, ld, g) = choose|p: S, ind: S, d: S, ld: S, g: S|
                    #![trigger is_sub(ind, a3, d), is_mul(ld, da, g), is_add(p, g, r)]
                    jac_chain(att, datt, t3, n - 1, init, p) && is_num(unit, ind) && is_sub(
                        ind,
                        a3,
                        d,
                    ) && is_mul(a2, d, ld) && is_mul(ld, da, g) && is_add(p, g, r);
                assert(ind == ind0);
                assert(d == d0);
                assert(ld == ld0);
                assert(g == term);
                assert(is_add(init, prev, p));
                let s = lemma_add_then_add(init, prev, p, term, r);
            }
            delta
        } else {
            prev
        }
    }
}

/// The backward pass only adds, and where what it adds is read from the inputs
/// alone, two passes add twice what one adds: with exact additions this holds
/// of every entry of `datt` up to its position and of every entry of the value
/// part of `dinp`.
///
/// The gradients of the scores, and through them those of the queries and the
/// keys, are taken with what `datt` and `dpreatt` hold after the pass has
/// added to them; a second pass on buffers that were not cleared adds
/// something else to those.
pub proof fn lemma_attention_backward_twice<S: Scalar>(
    dinp0: Seq<S>,
    dinp1: Seq<S>,
    dinp2: Seq<S>,
    dpre0: Seq<S>,
    dpre1: Seq<S>,
    dpre2: Seq<S>,
    datt0: Seq<S>,
    datt1: Seq<S>,
    datt2: Seq<S>,
    dout: Seq<S>,
    inp: Seq<S>,
    att: Seq<S>,
    batch: int,
    time: int,
    chan: int,
    heads: int,
)
    requires
        exact_sums::<S>(),
        heads > 0,
        0 <= chan / heads,
        chan == heads * (chan / heads),
        batch * heads * time * time <= datt0.len(),
        attention_backward_post(
            dinp0,
            dinp1,
            dpre0,
            dpre1,
            datt0,
            datt1,
            dout,
            inp,
            att,
            batch,
            time,
            chan,
            heads,
        ),
        attention_backward_post(
            dinp1,
            dinp2,
            dpre1,
            dpre2,
            datt1,
            datt2,
            dout,
            inp,
            att,
            batch,
            time,
            chan,
            heads,
        ),
    ensures
        forall|b: int, h: int, t: int, t2: int|
            0 <= b < batch && 0 <= h < heads && 0 <= t2 <= t < time ==> grew_twice(
                datt0[att_at(b, h, t, t2, heads, time)],
                datt1[att_at(b, h, t, t2, heads, time)],
                #[trigger] datt2[att_at(b, h, t, t2, heads, time)],
            ),
        forall|b: int, t: int, h: int, i: int|
            0 <= b < batch && 0 <= t < time && 0 <= h < heads && 0 <= i < chan / heads
                ==> grew_twice(
                dinp0[qkv_at(b, t, 2, h, i, time, chan, chan / heads)],
                dinp1[qkv_at(b, t, 2, h, i, time, chan, chan / heads)],
                #[trigger] dinp2[qkv_at(b, t, 2, h, i, time, chan, chan / heads)],
            ),
{
    let hs = chan / heads;
    assert forall|b: int, h: int, t: int, t2: int|
        0 <= b < batch && 0 <= h < heads && 0 <= t2 <= t < time implies grew_twice(
        datt0[att_at(b, h, t, t2, heads, time)],
        datt1[att_at(b, h, t, t2, heads, time)],
        #[trigger] datt2[att_at(b, h, t, t2, heads, time)],
    ) by {
        let r = at3(b, h, t, heads, time);
        let k = att_at(b, h, t, t2, heads, time);
        lemma_head_offsets(b, t, h, batch, time, chan, heads, hs);
        assert(head_before(b, t, h, batch, 0, 0));
        assert(scores_at(att, datt0, datt1, dpre0, dpre1, inp, dout, b, h, t, time, chan, heads));
        assert(scores_at(att, datt1, datt2, dpre1, dpre2, inp, dout, b, h, t, time, chan, heads));
        let v0 = v_at(b, 0, h, 0, time, chan, hs);
        let doff = o_at(b, t, h, 0, time, chan, hs);
        assert(row(datt0, r, time)[t2] == datt0[k]);
        assert(row(datt1, r, time)[t2] == datt1[k]);
        assert(row(datt2, r, time)[t2] == datt2[k]);
        let delta = lemma_mac_chain_additive(inp, v0 + t2 * (3 * chan), 1, dout, doff, 1, hs);
        assert(mac_chain(inp, v0 + t2 * (3 * chan), 1, dout, doff, 1, hs, datt0[k], datt1[k]));
        assert(mac_chain(inp, v0 + t2 * (3 * chan), 1, dout, doff, 1, hs, datt1[k], datt2[k]));
        lemma_added_twice(datt0[k], delta, datt1[k], datt2[k]);
    }
    let s1 = choose|scale: S| #[trigger]
        att_scale(hs, scale) && dinp_done(
            dinp0,
            dinp1,
            inp,
            dpre1,
            att,
            dout,
            scale,
            batch,
            0,
            0,
            batch,
            time,
            chan,
            heads,
        );
    let s2 = choose|scale: S| #[trigger]
        att_scale(hs, scale) && dinp_done(
            dinp1,
            dinp2,
            inp,
            dpre2,
            att,
            dout,
            scale,
            batch,
            0,
            0,
            batch,
            time,
            chan,
            heads,
        );
    assert forall|b: int, t: int, h: int, i: int|
        0 <= b < batch && 0 <= t < time && 0 <= h < heads && 0 <= i < hs implies grew_twice(
        dinp0[qkv_at(b, t, 2, h, i, time, chan, hs)],
        dinp1[qkv_at(b, t, 2, h, i, time, chan, hs)],
        #[trigger] dinp2[qkv_at(b, t, 2, h, i, time, chan, hs)],
    ) by {
        let k = qkv_at(b, t, 2, h, i, time, chan, hs);
        assert(head_before(b, t, h, batch, 0, 0));
        assert(dinp_cell(
            inp,
            dpre1,
            att,
            dout,
            s1,
            b,
            t,
            2,
            h,
            i,
            time,
            chan,
            heads,
            dinp0[k],
            dinp1[k],
        ));
        assert(dinp_cell(
            inp,
            dpre2,
            att,
            dout,
            s2,
            b,
            t,
            2,
            h,
            i,
            time,
            chan,
            heads,
            dinp1[k],
            dinp2[k],
        ));
        let delta = lemma_mac_chain_additive(
            att,
            att_at(b, h, t, t, heads, time),
            time,
            dout,
            o_at(b, t, h, i, time, chan, hs),
            chan,
            time - t,
        );
        lemma_added_twice(dinp0[k], delta, dinp1[k], dinp2[k]);
    }
}

} // verus!
