//! Layer normalisation of the rows of a `[rows, chan]` tensor, and its
//! gradient.
//!
//! A row is shifted by its mean and scaled by the reciprocal of its standard
//! deviation, `rstd = 1 / sqrt(variance + eps)` with `eps = 1 / 100000` and the
//! variance taken over all `chan` entries; then each entry is scaled by a
//! weight and shifted by a bias.
use crate::fold::{
    lemma_mac_chain_unique, lemma_sum_chain_additive, lemma_sum_chain_unique, mac_chain,
    sum_chain, sum_strided,
};
use crate::layout::{at2, lemma_at2_in_table, lemma_row_span, row};
use crate::scalar::{
    exact_sums, functional, grew_twice, has_sum, is_add, is_div, is_mul, is_num, is_ratio,
    is_sqrt, is_sub, lemma_add_then_add, lemma_added_twice, lemma_ratio_unique, neutral, ratio,
    Scalar,
};
use vstd::prelude::*;

verus! {

/// `m` is the mean of the row `x[base..base + chan]`: its entries added in
/// order to zero, divided by their number.
pub open spec fn ln_mean<S: Scalar>(x: Seq<S>, base: int, chan: int, m: S) -> bool {
    exists|zero: S, s: S, n: S|
        is_num(0, zero) && sum_chain(x, base, 1, chan, zero, s) && is_num(chan as usize, n)
            && is_div(s, n, m)
}

/// `r` results from `init` by adding, in order, the squares of the first `n`
/// entries of the row at `base`, each shifted by `m`.
pub open spec fn sq_dev_chain<S: Scalar>(x: Seq<S>, base: int, m: S, n: int, init: S, r: S) -> bool
    decreases n,
{
    if n <= 0 {
        r == init
    } else {
        let last = x[base + (n - 1)];
        exists|p: S, d: S, q: S|
            sq_dev_chain(x, base, m, n - 1, init, p) && is_sub(last, m, d) && is_mul(d, d, q)
                && is_add(p, q, r)
    }
}

/// `v` is the variance of the row at `base` around `m`, over all `chan`
/// entries.
pub open spec fn ln_variance<S: Scalar>(x: Seq<S>, base: int, chan: int, m: S, v: S) -> bool {
    exists|zero: S, s: S, n: S|
        is_num(0, zero) && sq_dev_chain(x, base, m, chan, zero, s) && is_num(chan as usize, n)
            && is_div(s, n, v)
}

/// `rs` is the reciprocal standard deviation of the row at `base` around `m`:
/// `1 / sqrt(variance + eps)`.
pub open spec fn ln_rstd<S: Scalar>(x: Seq<S>, base: int, chan: int, m: S, rs: S) -> bool {
    exists|v: S, eps: S, ve: S, sd: S, one: S|
        ln_variance(x, base, chan, m, v) && is_ratio(1, 100000, eps) && is_add(v, eps, ve)
            && is_sqrt(ve, sd) && is_num(1, one) && is_div(one, sd, rs)
}

/// `o` is the normalised entry `(rs * (x - m)) * w + b`.
pub open spec fn ln_out<S: Scalar>(x: S, m: S, rs: S, w: S, b: S, o: S) -> bool {
    exists|d: S, n: S, nw: S| is_sub(x, m, d) && is_mul(rs, d, n) && is_mul(n, w, nw) && is_add(
        nw,
        b,
        o,
    )
}

/// What the forward pass leaves in `out`, `mean` and `rstd`.
pub open spec fn layernorm_forward_post<S: Scalar>(
    out_before: Seq<S>,
    out: Seq<S>,
    mean_before: Seq<S>,
    mean: Seq<S>,
    rstd_before: Seq<S>,
    rstd: Seq<S>,
    inp: Seq<S>,
    weight: Seq<S>,
    bias: Seq<S>,
    rows: int,
    chan: int,
) -> bool {
    &&& out.len() == out_before.len()
    &&& mean.len() == mean_before.len()
    &&& rstd.len() == rstd_before.len()
    &&& forall|r: int| 0 <= r < rows ==> ln_mean(inp, at2(r, 0, chan), chan, #[trigger] mean[r])
    &&& forall|r: int|
        0 <= r < rows ==> ln_rstd(inp, at2(r, 0, chan), chan, mean[r], #[trigger] rstd[r])
    &&& forall|r: int, i: int|
        0 <= r < rows && 0 <= i < chan ==> ln_out(
            inp[at2(r, i, chan)],
            mean[r],
            rstd[r],
            weight[i],
            bias[i],
            #[trigger] out[at2(r, i, chan)],
        )
    &&& forall|j: int| rows * chan <= j < out.len() ==> out[j] == out_before[j]
    &&& forall|j: int| rows <= j < mean.len() ==> mean[j] == mean_before[j]
    &&& forall|j: int| rows <= j < rstd.len() ==> rstd[j] == rstd_before[j]
}

/// The mean of the row `inp[base..base + chan]`.
pub fn row_mean<S: Scalar>(inp: &[S], base: usize, chan: usize) -> (m: S)
    requires
        base + chan <= inp.len(),
    ensures
        ln_mean(inp@, base as int, chan as int, m),
{
    let zero = S::from_usize(0);
    let s = sum_strided(inp, base, 1, chan, zero);
    let n = S::from_usize(chan);
    s.div(n)
}

/// The reciprocal standard deviation of the row `inp[base..base + chan]`
/// around the mean `m`.
pub fn row_rstd<S: Scalar>(inp: &[S], base: usize, chan: usize, m: S) -> (rs: S)
    requires
        base + chan <= inp.len(),
    ensures
        ln_rstd(inp@, base as int, chan as int, m, rs),
{
    let zero = S::from_usize(0);
    let mut acc = zero;
    let mut i: usize = 0;
    while i < chan
        invariant
            i <= chan,
            base + chan <= inp.len(),
            sq_dev_chain(inp@, base as int, m, i as int, zero, acc),
        decreases chan - i,
    {
        let d = inp[base + i].sub(m);
        let q = d.mul(d);
        let ghost p = acc;
        acc = acc.add(q);
        proof {
            assert(inp@[base + ((i + 1) - 1)] == inp@[base + i]);
            assert(is_sub(inp@[base + i], m, d) && is_mul(d, d, q) && is_add(p, q, acc));
        }
        i += 1;
    }
    let n = S::from_usize(chan);
    let v = acc.div(n);
    assert(ln_variance(inp@, base as int, chan as int, m, v));
    let eps: S = ratio(1, 100000);
    let one = S::from_usize(1);
    one.div(v.add(eps).sqrt())
}

/// Normalises each row of `inp`, writes the result scaled by `weight` and
/// shifted by `bias` to `out`, and keeps the row's mean and reciprocal
/// standard deviation in `mean` and `rstd` for the backward pass.
pub fn layernorm_forward<S: Scalar>(
    out: &mut [S],
    mean: &mut [S],
    rstd: &mut [S],
    inp: &[S],
    weight: &[S],
    bias: &[S],
    batch: usize,
    time: usize,
    chan: usize,
)
    requires
        batch * time * chan <= old(out).len(),
        batch * time <= old(mean).len(),
        batch * time <= old(rstd).len(),
        batch * time * chan <= inp.len(),
        chan <= weight.len(),
        chan <= bias.len(),
    ensures
        layernorm_forward_post(
            old(out)@,
            final(out)@,
            old(mean)@,
            final(mean)@,
            old(rstd)@,
            final(rstd)@,
            inp@,
            weight@,
            bias@,
            batch * time,
            chan as int,
        ),
{
    let rows = batch * time;
    let mut r: usize = 0;
    while r < rows
        invariant
            r <= rows,
            out.len() == old(out).len(),
            mean.len() == old(mean).len(),
            rstd.len() == old(rstd).len(),
            rows * chan <= out.len(),
            rows <= mean.len(),
            rows <= rstd.len(),
            rows * chan <= inp.len(),
            chan <= weight.len(),
            chan <= bias.len(),
            forall|r2: int|
                0 <= r2 < r ==> ln_mean(inp@, at2(r2, 0, chan as int), chan as int, #[trigger] mean[r2]),
            forall|r2: int|
                0 <= r2 < r ==> ln_rstd(
                    inp@,
                    at2(r2, 0, chan as int),
                    chan as int,
                    mean[r2],
                    #[trigger] rstd[r2],
                ),
            forall|r2: int, i: int|
                0 <= r2 < r && 0 <= i < chan ==> ln_out(
                    inp[at2(r2, i, chan as int)],
                    mean[r2],
                    rstd[r2],
                    weight[i],
                    bias[i],
                    #[trigger] out[at2(r2, i, chan as int)],
                ),
            forall|j: int| r * chan <= j < out.len() ==> out[j] == old(out)[j],
            forall|j: int| r <= j < mean.len() ==> mean[j] == old(mean)[j],
            forall|j: int| r <= j < rstd.len() ==> rstd[j] == old(rstd)[j],
        decreases rows - r,
    {
        proof {
            lemma_row_span(r as int, rows as int, chan as int);
        }
        let base = r * chan;
        let m = row_mean(inp, base, chan);
        let s = row_rstd(inp, base, chan, m);
        let ghost before = out@;
        let mut i: usize = 0;
        while i < chan
            invariant
                i <= chan,
                out.len() == before.len(),
                base + chan <= out.len(),
                base + chan <= inp.len(),
                chan <= weight.len(),
                chan <= bias.len(),
                forall|j: int|
                    base <= j < base + i ==> ln_out(
                        inp[j],
                        m,
                        s,
                        weight[j - base],
                        bias[j - base],
                        #[trigger] out[j],
                    ),
                forall|j: int|
                    0 <= j < out.len() && !(base <= j < base + i) ==> out[j] == before[j],
            decreases chan - i,
        {
            let n = s.mul(inp[base + i].sub(m));
            out[base + i] = n.mul(weight[i]).add(bias[i]);
            i += 1;
        }
        mean[r] = m;
        rstd[r] = s;
        proof {
            assert((r + 1) * chan == r * chan + chan) by (nonlinear_arith);
            assert forall|r2: int, i2: int| 0 <= r2 < r + 1 && 0 <= i2 < chan implies ln_out(
                inp[at2(r2, i2, chan as int)],
                mean[r2],
                rstd[r2],
                weight[i2],
                bias[i2],
                #[trigger] out[at2(r2, i2, chan as int)],
            ) by {
                let k = at2(r2, i2, chan as int);
                lemma_at2_in_table(r2, i2, rows as int, chan as int);
                if r2 == r {
                    assert(k == base + i2);
                } else {
                    lemma_at2_in_table(r2, i2, r as int, chan as int);
                    assert(out[k] == before[k]);
                }
            }
        }
        r += 1;
    }
}

/// `n` is the normalised entry `(x - m) * rs`.
pub open spec fn ln_norm<S: Scalar>(x: S, m: S, rs: S, n: S) -> bool {
    exists|d: S| is_sub(x, m, d) && is_mul(d, rs, n)
}

/// `r` results from `init` by adding, in order, for each of the first `n`
/// entries of the row at `base` the product of its scaled gradient
/// `weight[i] * dout[i]` and its normalised entry.
pub open spec fn dnorm_norm_chain<S: Scalar>(
    weight: Seq<S>,
    dout: Seq<S>,
    inp: Seq<S>,
    base: int,
    m: S,
    rs: S,
    n: int,
    init: S,
    r: S,
) -> bool
    decreases n,
{
    if n <= 0 {
        r == init
    } else {
        let w = weight[n - 1];
        let d = dout[base + (n - 1)];
        let x = inp[base + (n - 1)];
        exists|p: S, nrm: S, dn: S, t: S|
            dnorm_norm_chain(weight, dout, inp, base, m, rs, n - 1, init, p) && ln_norm(
                x,
                m,
                rs,
                nrm,
            ) && is_mul(w, d, dn) && is_mul(dn, nrm, t) && is_add(p, t, r)
    }
}

/// `v` is the mean over the row at `base` of the scaled gradients
/// `weight[i] * dout[i]`.
pub open spec fn ln_dnorm_mean<S: Scalar>(
    weight: Seq<S>,
    dout: Seq<S>,
    base: int,
    chan: int,
    v: S,
) -> bool {
    exists|zero: S, s: S, n: S|
        is_num(0, zero) && mac_chain(weight, 0, 1, dout, base, 1, chan, zero, s) && is_num(
            chan as usize,
            n,
        ) && is_div(s, n, v)
}

/// `v` is the mean over the row at `base` of the scaled gradients times the
/// normalised entries.
pub open spec fn ln_dnorm_norm_mean<S: Scalar>(
    weight: Seq<S>,
    dout: Seq<S>,
    inp: Seq<S>,
    base: int,
    chan: int,
    m: S,
    rs: S,
    v: S,
) -> bool {
    exists|zero: S, s: S, n: S|
        is_num(0, zero) && dnorm_norm_chain(weight, dout, inp, base, m, rs, chan, zero, s)
            && is_num(chan as usize, n) && is_div(s, n, v)
}

/// `dval` is the gradient that reaches one input entry:
/// `(((0 + w * d) - dm) - norm * dnm) * rs`.
pub open spec fn ln_dval<S: Scalar>(x: S, w: S, d: S, m: S, rs: S, dm: S, dnm: S, dval: S) -> bool {
    exists|nrm: S, dn: S, zero: S, a: S, b: S, t: S, c: S|
        ln_norm(x, m, rs, nrm) && is_mul(w, d, dn) && is_num(0, zero) && is_add(zero, dn, a)
            && is_sub(a, dm, b) && is_mul(nrm, dnm, t) && is_sub(b, t, c) && is_mul(c, rs, dval)
}

/// `new` is `old` plus the gradient that reaches one input entry.
pub open spec fn ln_dinp_cell<S: Scalar>(
    x: S,
    w: S,
    d: S,
    m: S,
    rs: S,
    dm: S,
    dnm: S,
    old: S,
    new: S,
) -> bool {
    exists|dval: S| ln_dval(x, w, d, m, rs, dm, dnm, dval) && is_add(old, dval, new)
}

/// The row `after` of the input gradient is the row `before` plus the
/// gradients of the row of the input at `base`, all taken with the same two
/// means over the row.
pub open spec fn ln_dinp_row<S: Scalar>(
    before: Seq<S>,
    after: Seq<S>,
    dout: Seq<S>,
    inp: Seq<S>,
    weight: Seq<S>,
    base: int,
    chan: int,
    m: S,
    rs: S,
) -> bool {
    exists|dm: S, dnm: S|
        ln_dnorm_mean(weight, dout, base, chan, dm) && ln_dnorm_norm_mean(
            weight,
            dout,
            inp,
            base,
            chan,
            m,
            rs,
            dnm,
        ) && forall|i: int|
            0 <= i < chan ==> ln_dinp_cell(
                inp[base + i],
                weight[i],
                dout[base + i],
                m,
                rs,
                dm,
                dnm,
                before[i],
                #[trigger] after[i],
            )
}

/// `r` results from `init` by adding, in the order of the rows, for each of
/// the first `n` rows the product of the normalised entry of column `i` and
/// its gradient `dout[row, i]`.
pub open spec fn ln_dweight_chain<S: Scalar>(
    inp: Seq<S>,
    dout: Seq<S>,
    mean: Seq<S>,
    rstd: Seq<S>,
    chan: int,
    i: int,
    n: int,
    init: S,
    r: S,
) -> bool
    decreases n,
{
    if n <= 0 {
        r == init
    } else {
        let x = inp[at2(n - 1, i, chan)];
        let d = dout[at2(n - 1, i, chan)];
        let m = mean[n - 1];
        let rs = rstd[n - 1];
        exists|p: S, nrm: S, t: S|
            ln_dweight_chain(inp, dout, mean, rstd, chan, i, n - 1, init, p) && ln_norm(
                x,
                m,
                rs,
                nrm,
            ) && is_mul(nrm, d, t) && is_add(p, t, r)
    }
}

/// What the backward pass adds to the three gradients.
pub open spec fn layernorm_backward_post<S: Scalar>(
    dinp_before: Seq<S>,
    dinp: Seq<S>,
    dweight_before: Seq<S>,
    dweight: Seq<S>,
    dbias_before: Seq<S>,
    dbias: Seq<S>,
    dout: Seq<S>,
    inp: Seq<S>,
    weight: Seq<S>,
    mean: Seq<S>,
    rstd: Seq<S>,
    rows: int,
    chan: int,
) -> bool {
    &&& dinp.len() == dinp_before.len()
    &&& dweight.len() == dweight_before.len()
    &&& dbias.len() == dbias_before.len()
    &&& forall|r: int|
        0 <= r < rows ==> #[trigger] ln_dinp_row(
            row(dinp_before, r, chan),
            row(dinp, r, chan),
            dout,
            inp,
            weight,
            at2(r, 0, chan),
            chan,
            mean[r],
            rstd[r],
        )
    &&& forall|j: int| rows * chan <= j < dinp.len() ==> dinp[j] == dinp_before[j]
    &&& forall|i: int|
        0 <= i < chan ==> ln_dweight_chain(
            inp,
            dout,
            mean,
            rstd,
            chan,
            i,
            rows,
            dweight_before[i],
            #[trigger] dweight[i],
        )
    &&& forall|j: int| chan <= j < dweight.len() ==> dweight[j] == dweight_before[j]
    &&& forall|i: int|
        0 <= i < chan ==> sum_chain(dout, i, chan, rows, dbias_before[i], #[trigger] dbias[i])
    &&& forall|j: int| chan <= j < dbias.len() ==> dbias[j] == dbias_before[j]
}

/// Adds to `dinp`, `dweight` and `dbias` the gradients that `dout` induces,
/// from the input and the statistics that the forward pass kept.
pub fn layernorm_backward<S: Scalar>(
    dinp: &mut [S],
    dweight: &mut [S],
    dbias: &mut [S],
    dout: &[S],
    inp: &[S],
    weight: &[S],
    mean: &[S],
    rstd: &[S],
    batch: usize,
    time: usize,
    chan: usize,
)
    requires
        batch * time * chan <= old(dinp).len(),
        chan <= old(dweight).len(),
        chan <= old(dbias).len(),
        batch * time * chan <= dout.len(),
        batch * time * chan <= inp.len(),
        chan <= weight.len(),
        batch * time <= mean.len(),
        batch * time <= rstd.len(),
    ensures
        layernorm_backward_post(
            old(dinp)@,
            final(dinp)@,
            old(dweight)@,
            final(dweight)@,
            old(dbias)@,
            final(dbias)@,
            dout@,
            inp@,
            weight@,
            mean@,
            rstd@,
            batch * time,
            chan as int,
        ),
{
    let rows = batch * time;
    let mut r: usize = 0;
    while r < rows
        invariant
            r <= rows,
            dinp.len() == old(dinp).len(),
            dweight.len() == old(dweight).len(),
            dbias.len() == old(dbias).len(),
            rows * chan <= dinp.len(),
            chan <= dweight.len(),
            chan <= dbias.len(),
            rows * chan <= dout.len(),
            rows * chan <= inp.len(),
            chan <= weight.len(),
            rows <= mean.len(),
            rows <= rstd.len(),
            forall|r2: int|
                0 <= r2 < r ==> #[trigger] ln_dinp_row(
                    row(old(dinp)@, r2, chan as int),
                    row(dinp@, r2, chan as int),
                    dout@,
                    inp@,
                    weight@,
                    at2(r2, 0, chan as int),
                    chan as int,
                    mean[r2],
                    rstd[r2],
                ),
            forall|j: int| r * chan <= j < dinp.len() ==> dinp[j] == old(dinp)[j],
            forall|i: int|
                0 <= i < chan ==> ln_dweight_chain(
                    inp@,
                    dout@,
                    mean@,
                    rstd@,
                    chan as int,
                    i,
                    r as int,
                    old(dweight)[i],
                    #[trigger] dweight[i],
                ),
            forall|j: int| chan <= j < dweight.len() ==> dweight[j] == old(dweight)[j],
            forall|i: int|
                0 <= i < chan ==> sum_chain(
                    dout@,
                    i,
                    chan as int,
                    r as int,
                    old(dbias)[i],
                    #[trigger] dbias[i],
                ),
            forall|j: int| chan <= j < dbias.len() ==> dbias[j] == old(dbias)[j],
        decreases rows - r,
    {
        proof {
            lemma_row_span(r as int, rows as int, chan as int);
        }
        let base = r * chan;
        let m = mean[r];
        let rs = rstd[r];
        let zero = S::from_usize(0);
        let mut dm_acc = zero;
        let mut dnm_acc = zero;
        let mut i: usize = 0;
        while i < chan
            invariant
                i <= chan,
                base + chan <= dout.len(),
                base + chan <= inp.len(),
                chan <= weight.len(),
                mac_chain(weight@, 0, 1, dout@, base as int, 1, i as int, zero, dm_acc),
                dnorm_norm_chain(weight@, dout@, inp@, base as int, m, rs, i as int, zero, dnm_acc),
            decreases chan - i,
        {
            let nrm = inp[base + i].sub(m).mul(rs);
            let dn = weight[i].mul(dout[base + i]);
            let ghost p1 = dm_acc;
            let ghost p2 = dnm_acc;
            dm_acc = dm_acc.add(dn);
            let t = dn.mul(nrm);
            dnm_acc = dnm_acc.add(t);
            proof {
                assert(weight@[0 + ((i + 1) - 1) * 1] == weight@[i as int]);
                assert(dout@[base + ((i + 1) - 1) * 1] == dout@[base + i]);
                assert(is_mul(weight@[i as int], dout@[base + i], dn) && is_add(p1, dn, dm_acc));
                assert(ln_norm(inp@[base + i], m, rs, nrm));
                assert(is_mul(dn, nrm, t) && is_add(p2, t, dnm_acc));
                assert(inp@[base + ((i + 1) - 1)] == inp@[base + i]);
            }
            i += 1;
        }
        let n = S::from_usize(chan);
        let dm = dm_acc.div(n);
        let dnm = dnm_acc.div(n);
        assert(ln_dnorm_mean(weight@, dout@, base as int, chan as int, dm));
        assert(ln_dnorm_norm_mean(weight@, dout@, inp@, base as int, chan as int, m, rs, dnm));
        let ghost before = dinp@;
        let ghost w_before = dweight@;
        let ghost b_before = dbias@;
        let mut i: usize = 0;
        while i < chan
            invariant
                i <= chan,
                r < rows,
                base == r * chan,
                m == mean[r as int],
                rs == rstd[r as int],
                is_num(0, zero),
                dinp.len() == before.len(),
                dweight.len() == w_before.len(),
                dbias.len() == b_before.len(),
                base + chan <= dinp.len(),
                chan <= dweight.len(),
                chan <= dbias.len(),
                base + chan <= dout.len(),
                base + chan <= inp.len(),
                chan <= weight.len(),
                rows <= mean.len(),
                rows <= rstd.len(),
                forall|j: int|
                    base <= j < base + i ==> ln_dinp_cell(
                        inp[j],
                        weight[j - base],
                        dout[j],
                        m,
                        rs,
                        dm,
                        dnm,
                        before[j],
                        #[trigger] dinp[j],
                    ),
                forall|j: int|
                    0 <= j < dinp.len() && !(base <= j < base + i) ==> dinp[j] == before[j],
                forall|i2: int|
                    0 <= i2 < i ==> ln_dweight_chain(
                        inp@,
                        dout@,
                        mean@,
                        rstd@,
                        chan as int,
                        i2,
                        r + 1,
                        old(dweight)[i2],
                        #[trigger] dweight[i2],
                    ),
                forall|i2: int|
                    i <= i2 < chan ==> ln_dweight_chain(
                        inp@,
                        dout@,
                        mean@,
                        rstd@,
                        chan as int,
                        i2,
                        r as int,
                        old(dweight)[i2],
                        #[trigger] dweight[i2],
                    ),
                forall|j: int| chan <= j < dweight.len() ==> dweight[j] == old(dweight)[j],
                forall|i2: int|
                    0 <= i2 < i ==> sum_chain(
                        dout@,
                        i2,
                        chan as int,
                        r + 1,
                        old(dbias)[i2],
                        #[trigger] dbias[i2],
                    ),
                forall|i2: int|
                    i <= i2 < chan ==> sum_chain(
                        dout@,
                        i2,
                        chan as int,
                        r as int,
                        old(dbias)[i2],
                        #[trigger] dbias[i2],
                    ),
                forall|j: int| chan <= j < dbias.len() ==> dbias[j] == old(dbias)[j],
            decreases chan - i,
        {
            let x = inp[base + i];
            let d = dout[base + i];
            let w = weight[i];
            let nrm = x.sub(m).mul(rs);
            let dn = w.mul(d);
            let ghost pb = dbias[i as int];
            let ghost pw = dweight[i as int];
            let ghost pd = dinp[base + i];
            let nb = dbias[i].add(d);
            dbias[i] = nb;
            let t = nrm.mul(d);
            let nw = dweight[i].add(t);
            dweight[i] = nw;
            let a = zero.add(dn);
            let b = a.sub(dm);
            let tt = nrm.mul(dnm);
            let c = b.sub(tt);
            let dval = c.mul(rs);
            let nd = dinp[base + i].add(dval);
            dinp[base + i] = nd;
            proof {
                assert(ln_norm(x, m, rs, nrm));
                assert(is_mul(w, d, dn) && is_num(0, zero) && is_add(zero, dn, a) && is_sub(
                    a,
                    dm,
                    b,
                ) && is_mul(nrm, dnm, tt) && is_sub(b, tt, c) && is_mul(c, rs, dval));
                assert(ln_dval(x, w, d, m, rs, dm, dnm, dval));
                assert(is_add(pd, dval, nd));
                assert(ln_dinp_cell(x, w, d, m, rs, dm, dnm, pd, nd));
                assert(i + ((r + 1) - 1) * chan == base + i);
                assert(is_add(pb, dout@[i + ((r + 1) - 1) * chan], nb));
                assert(sum_chain(dout@, i as int, chan as int, r as int, old(dbias)[i as int], pb));
                assert(sum_chain(dout@, i as int, chan as int, r + 1, old(dbias)[i as int], nb));
                assert(at2((r + 1) - 1, i as int, chan as int) == base + i);
                assert(is_mul(nrm, d, t) && is_add(pw, t, nw));
                assert(ln_dweight_chain(
                    inp@,
                    dout@,
                    mean@,
                    rstd@,
                    chan as int,
                    i as int,
                    r as int,
                    old(dweight)[i as int],
                    pw,
                ));
                assert(ln_dweight_chain(
                    inp@,
                    dout@,
                    mean@,
                    rstd@,
                    chan as int,
                    i as int,
                    r + 1,
                    old(dweight)[i as int],
                    nw,
                ));
            }
            i += 1;
        }
        proof {
            assert((r + 1) * chan == r * chan + chan) by (nonlinear_arith);
            assert forall|r2: int| 0 <= r2 < r + 1 implies #[trigger] ln_dinp_row(
                row(old(dinp)@, r2, chan as int),
                row(dinp@, r2, chan as int),
                dout@,
                inp@,
                weight@,
                at2(r2, 0, chan as int),
                chan as int,
                mean[r2],
                rstd[r2],
            ) by {
                if r2 == r {
                    let rb = row(old(dinp)@, r2, chan as int);
                    let ra = row(dinp@, r2, chan as int);
                    assert forall|i2: int| 0 <= i2 < chan implies ln_dinp_cell(
                        inp[base + i2],
                        weight[i2],
                        dout[base + i2],
                        m,
                        rs,
                        dm,
                        dnm,
                        rb[i2],
                        #[trigger] ra[i2],
                    ) by {
                        assert(ra[i2] == dinp[base + i2]);
                        assert(rb[i2] == before[base + i2]);
                    }
                } else {
                    lemma_row_span(r2 as int, r as int, chan as int);
                    assert(row(dinp@, r2, chan as int) =~= row(before, r2, chan as int));
                    assert(ln_dinp_row(
                        row(old(dinp)@, r2, chan as int),
                        row(before, r2, chan as int),
                        dout@,
                        inp@,
                        weight@,
                        at2(r2, 0, chan as int),
                        chan as int,
                        mean[r2],
                        rstd[r2],
                    ));
                }
            }
        }
        r += 1;
    }
}

/// With an arithmetic that is a function, a row has one mean.
pub proof fn lemma_ln_mean_unique<S: Scalar>(x: Seq<S>, base: int, chan: int, m1: S, m2: S)
    requires
        functional::<S>(),
        ln_mean(x, base, chan, m1),
        ln_mean(x, base, chan, m2),
    ensures
        m1 == m2,
{
    let (z1, s1, n1) = choose|zero: S, s: S, n: S|
        is_num(0, zero) && sum_chain(x, base, 1, chan, zero, s) && is_num(chan as usize, n)
            && is_div(s, n, m1);
    let (z2, s2, n2) = choose|zero: S, s: S, n: S|
        is_num(0, zero) && sum_chain(x, base, 1, chan, zero, s) && is_num(chan as usize, n)
            && is_div(s, n, m2);
    lemma_sum_chain_unique(x, base, 1, chan, z1, s1, s2);
}

/// With an arithmetic that is a function, the squared deviations of a row have
/// one sum.
pub proof fn lemma_sq_dev_chain_unique<S: Scalar>(
    x: Seq<S>,
    base: int,
    m: S,
    n: int,
    init: S,
    r1: S,
    r2: S,
)
    requires
        functional::<S>(),
        sq_dev_chain(x, base, m, n, init, r1),
        sq_dev_chain(x, base, m, n, init, r2),
    ensures
        r1 == r2,
    decreases n,
{
    if n > 0 {
        let last = x[base + (n - 1)];
        let (p1, d1, q1) = choose|p: S, d: S, q: S|
            sq_dev_chain(x, base, m, n - 1, init, p) && is_sub(last, m, d) && is_mul(d, d, q)
                && is_add(p, q, r1);
        let (p2, d2, q2) = choose|p: S, d: S, q: S|
            sq_dev_chain(x, base, m, n - 1, init, p) && is_sub(last, m, d) && is_mul(d, d, q)
                && is_add(p, q, r2);
        lemma_sq_dev_chain_unique(x, base, m, n - 1, init, p1, p2);
        assert(d1 == d2);
        assert(q1 == q2);
    }
}

/// With an arithmetic that is a function, a row has one reciprocal standard
/// deviation around a mean.
pub proof fn lemma_ln_rstd_unique<S: Scalar>(x: Seq<S>, base: int, chan: int, m: S, r1: S, r2: S)
    requires
        functional::<S>(),
        ln_rstd(x, base, chan, m, r1),
        ln_rstd(x, base, chan, m, r2),
    ensures
        r1 == r2,
{
    let (v1, eps1, ve1, sd1, one1) = choose|v: S, eps: S, ve: S, sd: S, one: S|
        ln_variance(x, base, chan, m, v) && is_ratio(1, 100000, eps) && is_add(v, eps, ve)
            && is_sqrt(ve, sd) && is_num(1, one) && is_div(one, sd, r1);
    let (v2, eps2, ve2, sd2, one2) = choose|v: S, eps: S, ve: S, sd: S, one: S|
        ln_variance(x, base, chan, m, v) && is_ratio(1, 100000, eps) && is_add(v, eps, ve)
            && is_sqrt(ve, sd) && is_num(1, one) && is_div(one, sd, r2);
    let (za, sa, na) = choose|zero: S, s: S, n: S|
        is_num(0, zero) && sq_dev_chain(x, base, m, chan, zero, s) && is_num(chan as usize, n)
            && is_div(s, n, v1);
    let (zb, sb, nb) = choose|zero: S, s: S, n: S|
        is_num(0, zero) && sq_dev_chain(x, base, m, chan, zero, s) && is_num(chan as usize, n)
            && is_div(s, n, v2);
    lemma_sq_dev_chain_unique(x, base, m, chan, za, sa, sb);
    assert(v1 == v2);
    lemma_ratio_unique(1, 100000, eps1, eps2);
}

/// The forward pass overwrites its outputs: with an arithmetic that is a
/// function, two runs on the same inputs leave the same means, reciprocal
/// standard deviations and outputs, whatever the buffers held before.
pub proof fn lemma_layernorm_forward_determined<S: Scalar>(
    out_before1: Seq<S>,
    out1: Seq<S>,
    mean_before1: Seq<S>,
    mean1: Seq<S>,
    rstd_before1: Seq<S>,
    rstd1: Seq<S>,
    out_before2: Seq<S>,
    out2: Seq<S>,
    mean_before2: Seq<S>,
    mean2: Seq<S>,
    rstd_before2: Seq<S>,
    rstd2: Seq<S>,
    inp: Seq<S>,
    weight: Seq<S>,
    bias: Seq<S>,
    rows: int,
    chan: int,
)
    requires
        functional::<S>(),
        layernorm_forward_post(
            out_before1,
            out1,
            mean_before1,
            mean1,
            rstd_before1,
            rstd1,
            inp,
            weight,
            bias,
            rows,
            chan,
        ),
        layernorm_forward_post(
            out_before2,
            out2,
            mean_before2,
            mean2,
            rstd_before2,
            rstd2,
            inp,
            weight,
            bias,
            rows,
            chan,
        ),
    ensures
        forall|r: int| 0 <= r < rows ==> #[trigger] mean1[r] == mean2[r],
        forall|r: int| 0 <= r < rows ==> #[trigger] rstd1[r] == rstd2[r],
        forall|r: int, i: int|
            0 <= r < rows && 0 <= i < chan ==> #[trigger] out1[at2(r, i, chan)] == out2[at2(
                r,
                i,
                chan,
            )],
{
    assert forall|r: int| 0 <= r < rows implies #[trigger] mean1[r] == mean2[r] by {
        lemma_ln_mean_unique(inp, at2(r, 0, chan), chan, mean1[r], mean2[r]);
    }
    assert forall|r: int| 0 <= r < rows implies #[trigger] rstd1[r] == rstd2[r] by {
        assert(mean1[r] == mean2[r]);
        lemma_ln_rstd_unique(inp, at2(r, 0, chan), chan, mean1[r], rstd1[r], rstd2[r]);
    }
    assert forall|r: int, i: int| 0 <= r < rows && 0 <= i < chan implies #[trigger] out1[at2(
        r,
        i,
        chan,
    )] == out2[at2(r, i, chan)] by {
        let k = at2(r, i, chan);
        assert(mean1[r] == mean2[r]);
        assert(rstd1[r] == rstd2[r]);
        assert(ln_out(inp[k], mean1[r], rstd1[r], weight[i], bias[i], out1[k]));
        assert(ln_out(inp[k], mean1[r], rstd1[r], weight[i], bias[i], out2[k]));
    }
}

/// With an arithmetic that is a function, the products of scaled gradients and
/// normalised entries of a row have one sum.
pub proof fn lemma_dnorm_norm_chain_unique<S: Scalar>(
    weight: Seq<S>,
    dout: Seq<S>,
    inp: Seq<S>,
    base: int,
    m: S,
    rs: S,
    n: int,
    init: S,
    r1: S,
    r2: S,
)
    requires
        functional::<S>(),
        dnorm_norm_chain(weight, dout, inp, base, m, rs, n, init, r1),
        dnorm_norm_chain(weight, dout, inp, base, m, rs, n, init, r2),
    ensures
        r1 == r2,
    decreases n,
{
    if n > 0 {
        let w = weight[n - 1];
        let d = dout[base + (n - 1)];
        let x = inp[base + (n - 1)];
        let (p1, nrm1, dn1, t1) = choose|p: S, nrm: S, dn: S, t: S|
            dnorm_norm_chain(weight, dout, inp, base, m, rs, n - 1, init, p) && ln_norm(
                x,
                m,
                rs,
                nrm,
            ) && is_mul(w, d, dn) && is_mul(dn, nrm, t) && is_add(p, t, r1);
        let (p2, nrm2, dn2, t2) = choose|p: S, nrm: S, dn: S, t: S|
            dnorm_norm_chain(weight, dout, inp, base, m, rs, n - 1, init, p) && ln_norm(
                x,
                m,
                rs,
                nrm,
            ) && is_mul(w, d, dn) && is_mul(dn, nrm, t) && is_add(p, t, r2);
        lemma_dnorm_norm_chain_unique(weight, dout, inp, base, m, rs, n - 1, init, p1, p2);
        assert(nrm1 == nrm2);
        assert(dn1 == dn2);
        assert(t1 == t2);
    }
}

/// With an arithmetic that is a function, the gradients collected for one
/// weight have one sum.
pub proof fn lemma_ln_dweight_chain_unique<S: Scalar>(
    inp: Seq<S>,
    dout: Seq<S>,
    mean: Seq<S>,
    rstd: Seq<S>,
    chan: int,
    i: int,
    n: int,
    init: S,
    r1: S,
    r2: S,
)
    requires
        functional::<S>(),
        ln_dweight_chain(inp, dout, mean, rstd, chan, i, n, init, r1),
        ln_dweight_chain(inp, dout, mean, rstd, chan, i, n, init, r2),
    ensures
        r1 == r2,
    decreases n,
{
    if n > 0 {
        let x = inp[at2(n - 1, i, chan)];
        let d = dout[at2(n - 1, i, chan)];
        let m = mean[n - 1];
        let rs = rstd[n - 1];
        let (p1, nrm1, t1) = choose|p: S, nrm: S, t: S|
            ln_dweight_chain(inp, dout, mean, rstd, chan, i, n - 1, init, p) && ln_norm(
                x,
                m,
                rs,
                nrm,
            ) && is_mul(nrm, d, t) && is_add(p, t, r1);
        let (p2, nrm2, t2) = choose|p: S, nrm: S, t: S|
            ln_dweight_chain(inp, dout, mean, rstd, chan, i, n - 1, init, p) && ln_norm(
                x,
                m,
                rs,
                nrm,
            ) && is_mul(nrm, d, t) && is_add(p, t, r2);
        lemma_ln_dweight_chain_unique(inp, dout, mean, rstd, chan, i, n - 1, init, p1, p2);
        assert(nrm1 == nrm2);
        assert(t1 == t2);
    }
}

/// With an arithmetic that is a function, a row has one mean of its scaled
/// gradients and one mean of their products with the normalised entries.
pub proof fn lemma_ln_row_means_unique<S: Scalar>(
    weight: Seq<S>,
    dout: Seq<S>,
    inp: Seq<S>,
    base: int,
    chan: int,
    m: S,
    rs: S,
    dm1: S,
    dnm1: S,
    dm2: S,
    dnm2: S,
)
    requires
        functional::<S>(),
        ln_dnorm_mean(weight, dout, base, chan, dm1),
        ln_dnorm_mean(weight, dout, base, chan, dm2),
        ln_dnorm_norm_mean(weight, dout, inp, base, chan, m, rs, dnm1),
        ln_dnorm_norm_mean(weight, dout, inp, base, chan, m, rs, dnm2),
    ensures
        dm1 == dm2,
        dnm1 == dnm2,
{
    assert(dm1 == dm2) by {
        let (za, sa, na) = choose|zero: S, s: S, n: S|
            is_num(0, zero) && mac_chain(weight, 0, 1, dout, base, 1, chan, zero, s) && is_num(
                chan as usize,
                n,
            ) && is_div(s, n, dm1);
        let (zb, sb, nb) = choose|zero: S, s: S, n: S|
            is_num(0, zero) && mac_chain(weight, 0, 1, dout, base, 1, chan, zero, s) && is_num(
                chan as usize,
                n,
            ) && is_div(s, n, dm2);
        lemma_mac_chain_unique(weight, 0, 1, dout, base, 1, chan, za, sa, sb);
    }
    assert(dnm1 == dnm2) by {
        let (za, sa, na) = choose|zero: S, s: S, n: S|
            is_num(0, zero) && dnorm_norm_chain(weight, dout, inp, base, m, rs, chan, zero, s)
                && is_num(chan as usize, n) && is_div(s, n, dnm1);
        let (zb, sb, nb) = choose|zero: S, s: S, n: S|
            is_num(0, zero) && dnorm_norm_chain(weight, dout, inp, base, m, rs, chan, zero, s)
                && is_num(chan as usize, n) && is_div(s, n, dnm2);
        lemma_dnorm_norm_chain_unique(weight, dout, inp, base, m, rs, chan, za, sa, sb);
    }
}

/// With an arithmetic that is a function, a row of the input gradient has one
/// state after the backward pass.
pub proof fn lemma_ln_dinp_row_unique<S: Scalar>(
    before: Seq<S>,
    after1: Seq<S>,
    after2: Seq<S>,
    dout: Seq<S>,
    inp: Seq<S>,
    weight: Seq<S>,
    base: int,
    chan: int,
    m: S,
    rs: S,
)
    requires
        functional::<S>(),
        ln_dinp_row(before, after1, dout, inp, weight, base, chan, m, rs),
        ln_dinp_row(before, after2, dout, inp, weight, base, chan, m, rs),
    ensures
        forall|i: int| 0 <= i < chan ==> #[trigger] after1[i] == after2[i],
{
    let (dm1, dnm1) = choose|dm: S, dnm: S|
        ln_dnorm_mean(weight, dout, base, chan, dm) && ln_dnorm_norm_mean(
            weight,
            dout,
            inp,
            base,
            chan,
            m,
            rs,
            dnm,
        ) && forall|i: int|
            0 <= i < chan ==> ln_dinp_cell(
                inp[base + i],
                weight[i],
                dout[base + i],
                m,
                rs,
                dm,
                dnm,
                before[i],
                #[trigger] after1[i],
            );
    let (dm2, dnm2) = choose|dm: S, dnm: S|
        ln_dnorm_mean(weight, dout, base, chan, dm) && ln_dnorm_norm_mean(
            weight,
            dout,
            inp,
            base,
            chan,
            m,
            rs,
            dnm,
        ) && forall|i: int|
            0 <= i < chan ==> ln_dinp_cell(
                inp[base + i],
                weight[i],
                dout[base + i],
                m,
                rs,
                dm,
                dnm,
                before[i],
                #[trigger] after2[i],
            );
    lemma_ln_row_means_unique(weight, dout, inp, base, chan, m, rs, dm1, dnm1, dm2, dnm2);
    assert forall|i: int| 0 <= i < chan implies #[trigger] after1[i] == after2[i] by {
        let x = inp[base + i];
        let w = weight[i];
        let d = dout[base + i];
        assert(ln_dinp_cell(x, w, d, m, rs, dm1, dnm1, before[i], after1[i]));
        assert(ln_dinp_cell(x, w, d, m, rs, dm1, dnm1, before[i], after2[i]));
        let v1 = choose|dval: S|
            ln_dval(x, w, d, m, rs, dm1, dnm1, dval) && is_add(before[i], dval, after1[i]);
        let v2 = choose|dval: S|
            ln_dval(x, w, d, m, rs, dm1, dnm1, dval) && is_add(before[i], dval, after2[i]);
        assert(v1 == v2);
    }
}

/// With an arithmetic that is a function, two runs of the backward pass from
/// the same state add the same to every entry of the three gradients.
pub proof fn lemma_layernorm_backward_determined<S: Scalar>(
    dinp0: Seq<S>,
    dinp1: Seq<S>,
    dinp2: Seq<S>,
    dweight0: Seq<S>,
    dweight1: Seq<S>,
    dweight2: Seq<S>,
    dbias0: Seq<S>,
    dbias1: Seq<S>,
    dbias2: Seq<S>,
    dout: Seq<S>,
    inp: Seq<S>,
    weight: Seq<S>,
    mean: Seq<S>,
    rstd: Seq<S>,
    rows: int,
    chan: int,
)
    requires
        functional::<S>(),
        layernorm_backward_post(
            dinp0,
            dinp1,
            dweight0,
            dweight1,
            dbias0,
            dbias1,
            dout,
            inp,
            weight,
            mean,
            rstd,
            rows,
            chan,
        ),
        layernorm_backward_post(
            dinp0,
            dinp2,
            dweight0,
            dweight2,
            dbias0,
            dbias2,
            dout,
            inp,
            weight,
            mean,
            rstd,
            rows,
            chan,
        ),
    ensures
        forall|r: int, i: int|
            0 <= r < rows && 0 <= i < chan ==> #[trigger] row(dinp1, r, chan)[i] == row(
                dinp2,
                r,
                chan,
            )[i],
        forall|i: int| 0 <= i < chan ==> #[trigger] dweight1[i] == dweight2[i],
        forall|i: int| 0 <= i < chan ==> #[trigger] dbias1[i] == dbias2[i],
{
    assert forall|r: int, i: int| 0 <= r < rows && 0 <= i < chan implies #[trigger] row(
        dinp1,
        r,
        chan,
    )[i] == row(dinp2, r, chan)[i] by {
        assert(ln_dinp_row(
            row(dinp0, r, chan),
            row(dinp1, r, chan),
            dout,
            inp,
            weight,
            at2(r, 0, chan),
            chan,
            mean[r],
            rstd[r],
        ));
        assert(ln_dinp_row(
            row(dinp0, r, chan),
            row(dinp2, r, chan),
            dout,
            inp,
            weight,
            at2(r, 0, chan),
            chan,
            mean[r],
            rstd[r],
        ));
        lemma_ln_dinp_row_unique(
            row(dinp0, r, chan),
            row(dinp1, r, chan),
            row(dinp2, r, chan),
            dout,
            inp,
            weight,
            at2(r, 0, chan),
            chan,
            mean[r],
            rstd[r],
        );
    }
    assert forall|i: int| 0 <= i < chan implies #[trigger] dweight1[i] == dweight2[i] by {
        lemma_ln_dweight_chain_unique(
            inp,
            dout,
            mean,
            rstd,
            chan,
            i,
            rows,
            dweight0[i],
            dweight1[i],
            dweight2[i],
        );
    }
    assert forall|i: int| 0 <= i < chan implies #[trigger] dbias1[i] == dbias2[i] by {
        lemma_sum_chain_unique(dout, i, chan, rows, dbias0[i], dbias1[i], dbias2[i]);
    }
}

/// The gradients collected for one weight add one number to what the entry
/// held: with exact additions there is a `delta`, the same for every start,
/// such that the result is the start plus `delta`.
pub proof fn lemma_ln_dweight_chain_additive<S: Scalar>(
    inp: Seq<S>,
    dout: Seq<S>,
    mean: Seq<S>,
    rstd: Seq<S>,
    chan: int,
    i: int,
    n: int,
) -> (delta: S)
    requires
        exact_sums::<S>(),
    ensures
        forall|init: S, r: S| #[trigger]
            ln_dweight_chain(inp, dout, mean, rstd, chan, i, n, init, r) ==> is_add(
                init,
                delta,
                r,
            ),
    decreases n,
{
    if n <= 0 {
        let z = choose|z: S| neutral(z);
        assert forall|init: S, r: S| #[trigger]
            ln_dweight_chain(inp, dout, mean, rstd, chan, i, n, init, r) implies is_add(
            init,
            z,
            r,
        ) by {
            assert(is_add(init, z, init));
        }
        z
    } else {
        let prev = lemma_ln_dweight_chain_additive(inp, dout, mean, rstd, chan, i, n - 1);
        let x = inp[at2(n - 1, i, chan)];
        let d = dout[at2(n - 1, i, chan)];
        let m = mean[n - 1];
        let rs = rstd[n - 1];
        if exists|nrm: S, t: S| ln_norm(x, m, rs, nrm) && is_mul(nrm, d, t) {
            let (nrm0, term) = choose|nrm: S, t: S| ln_norm(x, m, rs, nrm) && is_mul(nrm, d, t);
            assert(has_sum(prev, term));
            let delta = choose|s: S| is_add(prev, term, s);
            assert forall|init: S, r: S| #[trigger]
                ln_dweight_chain(inp, dout, mean, rstd, chan, i, n, init, r) implies is_add(
                init,
                delta,
                r,
            ) by {
                let (p, nrm, t) = choose|p: S, nrm: S, t: S|
                    ln_dweight_chain(inp, dout, mean, rstd, chan, i, n - 1, init, p) && ln_norm(
                        x,
                        m,
                        rs,
                        nrm,
                    ) && is_mul(nrm, d, t) && is_add(p, t, r);
                assert(nrm == nrm0);
                assert(t == term);
                assert(is_add(init, prev, p));
                let s = lemma_add_then_add(init, prev, p, term, r);
            }
            delta
        } else {
            prev
        }
    }
}

/// The backward pass only adds: with exact additions, two passes with the same
/// inputs add to every entry of the three gradients twice what one pass adds.
pub proof fn lemma_layernorm_backward_twice<S: Scalar>(
    dinp0: Seq<S>,
    dinp1: Seq<S>,
    dinp2: Seq<S>,
    dweight0: Seq<S>,
    dweight1: Seq<S>,
    dweight2: Seq<S>,
    dbias0: Seq<S>,
    dbias1: Seq<S>,
    dbias2: Seq<S>,
    dout: Seq<S>,
    inp: Seq<S>,
    weight: Seq<S>,
    mean: Seq<S>,
    rstd: Seq<S>,
    rows: int,
    chan: int,
)
    requires
        exact_sums::<S>(),
        layernorm_backward_post(
            dinp0,
            dinp1,
            dweight0,
            dweight1,
            dbias0,
            dbias1,
            dout,
            inp,
            weight,
            mean,
            rstd,
            rows,
            chan,
        ),
        layernorm_backward_post(
            dinp1,
            dinp2,
            dweight1,
            dweight2,
            dbias1,
            dbias2,
            dout,
            inp,
            weight,
            mean,
            rstd,
            rows,
            chan,
        ),
    ensures
        forall|r: int, i: int|
            0 <= r < rows && 0 <= i < chan ==> grew_twice(
                row(dinp0, r, chan)[i],
                row(dinp1, r, chan)[i],
                #[trigger] row(dinp2, r, chan)[i],
            ),
        forall|i: int|
            0 <= i < chan ==> grew_twice(dweight0[i], dweight1[i], #[trigger] dweight2[i]),
        forall|i: int| 0 <= i < chan ==> grew_twice(dbias0[i], dbias1[i], #[trigger] dbias2[i]),
{
    assert forall|r: int, i: int| 0 <= r < rows && 0 <= i < chan implies grew_twice(
        row(dinp0, r, chan)[i],
        row(dinp1, r, chan)[i],
        #[trigger] row(dinp2, r, chan)[i],
    ) by {
        let base = at2(r, 0, chan);
        let r0 = row(dinp0, r, chan);
        let r1 = row(dinp1, r, chan);
        let r2 = row(dinp2, r, chan);
        let m = mean[r];
        let rs = rstd[r];
        assert(ln_dinp_row(r0, r1, dout, inp, weight, base, chan, m, rs));
        assert(ln_dinp_row(r1, r2, dout, inp, weight, base, chan, m, rs));
        let (dm1, dnm1) = choose|dm: S, dnm: S|
            ln_dnorm_mean(weight, dout, base, chan, dm) && ln_dnorm_norm_mean(
                weight,
                dout,
                inp,
                base,
                chan,
                m,
                rs,
                dnm,
            ) && forall|j: int|
                0 <= j < chan ==> ln_dinp_cell(
                    inp[base + j],
                    weight[j],
                    dout[base + j],
                    m,
                    rs,
                    dm,
                    dnm,
                    r0[j],
                    #[trigger] r1[j],
                );
        let (dm2, dnm2) = choose|dm: S, dnm: S|
            ln_dnorm_mean(weight, dout, base, chan, dm) && ln_dnorm_norm_mean(
                weight,
                dout,
                inp,
                base,
                chan,
                m,
                rs,
                dnm,
            ) && forall|j: int|
                0 <= j < chan ==> ln_dinp_cell(
                    inp[base + j],
                    weight[j],
                    dout[base + j],
                    m,
                    rs,
                    dm,
                    dnm,
                    r1[j],
                    #[trigger] r2[j],
                );
        lemma_ln_row_means_unique(weight, dout, inp, base, chan, m, rs, dm1, dnm1, dm2, dnm2);
        let x = inp[base + i];
        let w = weight[i];
        let d = dout[base + i];
        assert(ln_dinp_cell(x, w, d, m, rs, dm1, dnm1, r0[i], r1[i]));
        assert(ln_dinp_cell(x, w, d, m, rs, dm1, dnm1, r1[i], r2[i]));
        let v1 = choose|dval: S| ln_dval(x, w, d, m, rs, dm1, dnm1, dval) && is_add(r0[i], dval, r1[i]);
        let v2 = choose|dval: S| ln_dval(x, w, d, m, rs, dm1, dnm1, dval) && is_add(r1[i], dval, r2[i]);
        assert(v1 == v2);
        lemma_added_twice(r0[i], v1, r1[i], r2[i]);
    }
    assert forall|i: int| 0 <= i < chan implies grew_twice(
        dweight0[i],
        dweight1[i],
        #[trigger] dweight2[i],
    ) by {
        let delta = lemma_ln_dweight_chain_additive(inp, dout, mean, rstd, chan, i, rows);
        assert(ln_dweight_chain(inp, dout, mean, rstd, chan, i, rows, dweight0[i], dweight1[i]));
        assert(ln_dweight_chain(inp, dout, mean, rstd, chan, i, rows, dweight1[i], dweight2[i]));
        lemma_added_twice(dweight0[i], delta, dweight1[i], dweight2[i]);
    }
    assert forall|i: int| 0 <= i < chan implies grew_twice(
        dbias0[i],
        dbias1[i],
        #[trigger] dbias2[i],
    ) by {
        let delta = lemma_sum_chain_additive(dout, i, chan, rows);
        assert(sum_chain(dout, i, chan, rows, dbias0[i], dbias1[i]));
        assert(sum_chain(dout, i, chan, rows, dbias1[i], dbias2[i]));
        lemma_added_twice(dbias0[i], delta, dbias1[i], dbias2[i]);
    }
}

} // verus!
