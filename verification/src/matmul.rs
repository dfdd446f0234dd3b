//! The affine projection `out = inp * weight^T + bias` and its gradient.
//!
//! `inp` is `[rows, chan]` with `rows = batch * time`, `weight` is
//! `[out_chan, chan]`, `bias` is `[out_chan]` and may be absent, `out` is
//! `[rows, out_chan]`.
use crate::fold::{
    accumulate_scaled, dot, is_mul_add, lemma_mac_chain_additive, lemma_mac_chain_unique,
    lemma_sum_chain_additive, lemma_sum_chain_unique, mac_chain, sum_chain, sum_strided,
};
use crate::layout::{at2, lemma_at2_in_table, lemma_at2_unique, lemma_row_span};
use crate::scalar::{
    exact_sums, functional, grew_twice, is_add, is_mul, is_num, lemma_added_twice, Scalar,
};
use vstd::prelude::*;

verus! {

/// The rows handled together by the blocked forward pass.
pub const LOOP_UNROLL: usize = 8;

/// `init` is the value an output of channel `o` starts from: its bias, or zero
/// where there is none.
pub open spec fn bias_start<S: Scalar>(bias: Option<&[S]>, o: int, init: S) -> bool {
    match bias {
        Some(bs) => init == bs@[o],
        None => is_num(0, init),
    }
}

/// `v` is the output of channel `o` for row `r`: the products
/// `inp[r, i] * weight[o, i]` added in the order of `i` to the bias.
pub open spec fn matmul_cell<S: Scalar>(
    inp: Seq<S>,
    weight: Seq<S>,
    bias: Option<&[S]>,
    r: int,
    o: int,
    chan: int,
    v: S,
) -> bool {
    exists|init: S| #[trigger]
        bias_start(bias, o, init) && mac_chain(
            inp,
            at2(r, 0, chan),
            1,
            weight,
            at2(o, 0, chan),
            1,
            chan,
            init,
            v,
        )
}

/// What the forward pass leaves in `out`, whichever way it walks the rows.
pub open spec fn matmul_forward_post<S: Scalar>(
    before: Seq<S>,
    after: Seq<S>,
    inp: Seq<S>,
    weight: Seq<S>,
    bias: Option<&[S]>,
    rows: int,
    chan: int,
    out_chan: int,
) -> bool {
    &&& after.len() == before.len()
    &&& forall|r: int, o: int|
        0 <= r < rows && 0 <= o < out_chan ==> matmul_cell(
            inp,
            weight,
            bias,
            r,
            o,
            chan,
            #[trigger] after[at2(r, o, out_chan)],
        )
    &&& forall|j: int| rows * out_chan <= j < before.len() ==> after[j] == before[j]
}

fn start<S: Scalar>(bias: &Option<&[S]>, o: usize) -> (init: S)
    requires
        *bias matches Some(bs) ==> o < bs.len(),
    ensures
        bias_start(*bias, o as int, init),
{
    match bias {
        Some(bs) => bs[o],
        None => S::from_usize(0),
    }
}

/// Computes the rows `r0 .. r0 + n` of the output one row at a time.
fn forward_rows<S: Scalar>(
    out: &mut [S],
    inp: &[S],
    weight: &[S],
    bias: &Option<&[S]>,
    r0: usize,
    n: usize,
    rows: usize,
    chan: usize,
    out_chan: usize,
)
    requires
        r0 + n <= rows,
        out_chan > 0,
        rows * chan <= inp.len(),
        rows * out_chan <= old(out).len(),
        out_chan * chan <= weight.len(),
        *bias matches Some(bs) ==> out_chan <= bs.len(),
    ensures
        final(out).len() == old(out).len(),
        forall|r: int, o: int|
            r0 <= r < r0 + n && 0 <= o < out_chan ==> matmul_cell(
                inp@,
                weight@,
                *bias,
                r,
                o,
                chan as int,
                #[trigger] final(out)[at2(r, o, out_chan as int)],
            ),
        forall|j: int|
            0 <= j < old(out).len() && !(r0 * out_chan <= j < (r0 + n) * out_chan)
                ==> final(out)[j] == old(out)[j],
{
    let mut r: usize = r0;
    proof {
        assert(rows <= rows * out_chan) by (nonlinear_arith)
            requires
                out_chan >= 1,
                rows >= 0,
        ;
    }
    while r < r0 + n
        invariant
            r0 <= r <= r0 + n,
            r0 + n <= rows,
            out_chan > 0,
            rows <= usize::MAX,
            out.len() == old(out).len(),
            rows * chan <= inp.len(),
            rows * out_chan <= out.len(),
            out_chan * chan <= weight.len(),
            *bias matches Some(bs) ==> out_chan <= bs.len(),
            forall|r2: int, o: int|
                r0 <= r2 < r && 0 <= o < out_chan ==> matmul_cell(
                    inp@,
                    weight@,
                    *bias,
                    r2,
                    o,
                    chan as int,
                    #[trigger] out[at2(r2, o, out_chan as int)],
                ),
            forall|j: int|
                0 <= j < out.len() && !(r0 * out_chan <= j < r * out_chan)
                    ==> out[j] == old(out)[j],
        decreases r0 + n - r,
    {
        proof {
            lemma_row_span(r as int, rows as int, out_chan as int);
            lemma_row_span(r as int, rows as int, chan as int);
        }
        let ibase = r * chan;
        let obase = r * out_chan;
        let ghost before = out@;
        let mut o: usize = 0;
        while o < out_chan
            invariant
                o <= out_chan,
                out.len() == before.len(),
                ibase == at2(r as int, 0, chan as int),
                obase == at2(r as int, 0, out_chan as int),
                ibase + chan <= inp.len(),
                obase + out_chan <= out.len(),
                out_chan * chan <= weight.len(),
                *bias matches Some(bs) ==> out_chan <= bs.len(),
                forall|j: int|
                    obase <= j < obase + o ==> matmul_cell(
                        inp@,
                        weight@,
                        *bias,
                        r as int,
                        j - obase,
                        chan as int,
                        #[trigger] out[j],
                    ),
                forall|j: int|
                    0 <= j < out.len() && !(obase <= j < obase + o) ==> out[j] == before[j],
            decreases out_chan - o,
        {
            proof {
                lemma_row_span(o as int, out_chan as int, chan as int);
            }
            let init: S = start(bias, o);
            let v = dot(inp, ibase, weight, o * chan, chan, init);
            out[obase + o] = v;
            o += 1;
        }
        proof {
            assert((r + 1) * out_chan == r * out_chan + out_chan) by (nonlinear_arith);
            assert(r0 * out_chan <= r * out_chan) by (nonlinear_arith)
                requires
                    r0 <= r,
                    out_chan >= 0,
            ;
            assert forall|r2: int, o2: int|
                r0 <= r2 < r + 1 && 0 <= o2 < out_chan implies matmul_cell(
                inp@,
                weight@,
                *bias,
                r2,
                o2,
                chan as int,
                #[trigger] out[at2(r2, o2, out_chan as int)],
            ) by {
                let k = at2(r2, o2, out_chan as int);
                if r2 == r {
                    assert(k == obase + o2);
                } else {
                    lemma_at2_in_table(r2, o2, r as int, out_chan as int);
                    assert(out[k] == before[k]);
                }
            }
        }
        r += 1;
    }
}

/// Computes the eight rows `r0 .. r0 + 8` of the output together: for each
/// channel one weight is read once and multiplied into eight running sums.
fn forward_block<S: Scalar>(
    out: &mut [S],
    inp: &[S],
    weight: &[S],
    bias: &Option<&[S]>,
    r0: usize,
    rows: usize,
    chan: usize,
    out_chan: usize,
)
    requires
        r0 + LOOP_UNROLL <= rows,
        out_chan > 0,
        rows * chan <= inp.len(),
        rows * out_chan <= old(out).len(),
        out_chan * chan <= weight.len(),
        *bias matches Some(bs) ==> out_chan <= bs.len(),
    ensures
        final(out).len() == old(out).len(),
        forall|r: int, o: int|
            r0 <= r < r0 + LOOP_UNROLL && 0 <= o < out_chan ==> matmul_cell(
                inp@,
                weight@,
                *bias,
                r,
                o,
                chan as int,
                #[trigger] final(out)[at2(r, o, out_chan as int)],
            ),
        forall|j: int|
            0 <= j < old(out).len() && !(r0 * out_chan <= j < (r0 + LOOP_UNROLL) * out_chan)
                ==> final(out)[j] == old(out)[j],
{
    proof {
        assert(rows <= rows * out_chan) by (nonlinear_arith)
            requires
                out_chan >= 1,
                rows >= 0,
        ;
        assert(r0 * out_chan <= (r0 + LOOP_UNROLL) * out_chan) by (nonlinear_arith)
            requires
                out_chan >= 0,
                r0 >= 0,
        ;
    }
    let mut o: usize = 0;
    while o < out_chan
        invariant
            o <= out_chan,
            r0 + LOOP_UNROLL <= rows,
            rows <= usize::MAX,
            out.len() == old(out).len(),
            rows * chan <= inp.len(),
            rows * out_chan <= out.len(),
            out_chan * chan <= weight.len(),
            *bias matches Some(bs) ==> out_chan <= bs.len(),
            forall|r: int, o2: int|
                r0 <= r < r0 + LOOP_UNROLL && 0 <= o2 < o ==> matmul_cell(
                    inp@,
                    weight@,
                    *bias,
                    r,
                    o2,
                    chan as int,
                    #[trigger] out[at2(r, o2, out_chan as int)],
                ),
            forall|j: int|
                0 <= j < out.len() && !(r0 * out_chan <= j < (r0 + LOOP_UNROLL) * out_chan)
                    ==> out[j] == old(out)[j],
        decreases out_chan - o,
    {
        proof {
            lemma_row_span(o as int, out_chan as int, chan as int);
        }
        let init: S = start(bias, o);
        let wbase = o * chan;
        let mut acc: [S; 8] = [init; 8];
        let mut i: usize = 0;
        while i < chan
            invariant
                i <= chan,
                r0 + LOOP_UNROLL <= rows,
                rows * chan <= inp.len(),
                wbase == at2(o as int, 0, chan as int),
                wbase + chan <= weight.len(),
                forall|l: int|
                    0 <= l < LOOP_UNROLL ==> mac_chain(
                        inp@,
                        at2(r0 + l, 0, chan as int),
                        1,
                        weight@,
                        wbase as int,
                        1,
                        i as int,
                        init,
                        #[trigger] acc[l],
                    ),
            decreases chan - i,
        {
            let w = weight[wbase + i];
            let ghost prev = acc@;
            let mut l: usize = 0;
            while l < LOOP_UNROLL
                invariant
                    l <= LOOP_UNROLL,
                    i < chan,
                    r0 + LOOP_UNROLL <= rows,
                    rows * chan <= inp.len(),
                    w == weight[wbase + i],
                    forall|l2: int|
                        0 <= l2 < l ==> mac_chain(
                            inp@,
                            at2(r0 + l2, 0, chan as int),
                            1,
                            weight@,
                            wbase as int,
                            1,
                            i + 1,
                            init,
                            #[trigger] acc[l2],
                        ),
                    forall|l2: int|
                        l <= l2 < LOOP_UNROLL ==> mac_chain(
                            inp@,
                            at2(r0 + l2, 0, chan as int),
                            1,
                            weight@,
                            wbase as int,
                            1,
                            i as int,
                            init,
                            #[trigger] acc[l2],
                        ),
                decreases LOOP_UNROLL - l,
            {
                proof {
                    lemma_at2_in_table(r0 + l, i as int, rows as int, chan as int);
                }
                let x = inp[(r0 + l) * chan + i];
                let m = x.mul(w);
                let ghost p = acc[l as int];
                let v = acc[l].add(m);
                acc[l] = v;
                proof {
                    assert(inp@[at2(r0 + l, 0, chan as int) + ((i + 1) - 1) * 1] == x);
                    assert(weight@[wbase + ((i + 1) - 1) * 1] == w);
                    assert(mac_chain(
                        inp@,
                        at2(r0 + l, 0, chan as int),
                        1,
                        weight@,
                        wbase as int,
                        1,
                        i as int,
                        init,
                        p,
                    ));
                    assert(is_mul(x, w, m) && is_add(p, m, v));
                    assert(mac_chain(
                        inp@,
                        at2(r0 + l, 0, chan as int),
                        1,
                        weight@,
                        wbase as int,
                        1,
                        i + 1,
                        init,
                        v,
                    ));
                }
                l += 1;
            }
            i += 1;
        }
        let mut l: usize = 0;
        while l < LOOP_UNROLL
            invariant
                l <= LOOP_UNROLL,
                o < out_chan,
                r0 + LOOP_UNROLL <= rows,
                out.len() == old(out).len(),
                rows * out_chan <= out.len(),
                wbase == at2(o as int, 0, chan as int),
                bias_start(*bias, o as int, init),
                forall|l2: int|
                    0 <= l2 < LOOP_UNROLL ==> mac_chain(
                        inp@,
                        at2(r0 + l2, 0, chan as int),
                        1,
                        weight@,
                        wbase as int,
                        1,
                        chan as int,
                        init,
                        #[trigger] acc[l2],
                    ),
                forall|r: int, o2: int|
                    r0 <= r < r0 + LOOP_UNROLL && (0 <= o2 < o || (o2 == o && r < r0 + l))
                        ==> matmul_cell(
                        inp@,
                        weight@,
                        *bias,
                        r,
                        o2,
                        chan as int,
                        #[trigger] out[at2(r, o2, out_chan as int)],
                    ),
                forall|j: int|
                    0 <= j < out.len() && !(r0 * out_chan <= j < (r0 + LOOP_UNROLL) * out_chan)
                        ==> out[j] == old(out)[j],
            decreases LOOP_UNROLL - l,
        {
            proof {
                lemma_at2_in_table(r0 + l, o as int, rows as int, out_chan as int);
                lemma_at2_in_table(l as int, o as int, LOOP_UNROLL as int, out_chan as int);
                assert((r0 + l) * out_chan == r0 * out_chan + l * out_chan) by (nonlinear_arith);
                assert((r0 + LOOP_UNROLL) * out_chan == r0 * out_chan + LOOP_UNROLL * out_chan)
                    by (nonlinear_arith);
            }
            let ghost before = out@;
            let k = (r0 + l) * out_chan + o;
            out[k] = acc[l];
            proof {
                assert forall|r: int, o2: int|
                    r0 <= r < r0 + LOOP_UNROLL && (0 <= o2 < o || (o2 == o && r < r0 + l + 1))
                        implies matmul_cell(
                    inp@,
                    weight@,
                    *bias,
                    r,
                    o2,
                    chan as int,
                    #[trigger] out[at2(r, o2, out_chan as int)],
                ) by {
                    let k2 = at2(r, o2, out_chan as int);
                    lemma_at2_in_table(r, o2, rows as int, out_chan as int);
                    if r == r0 + l && o2 == o {
                        assert(out[k2] == acc[l as int]);
                        assert(mac_chain(
                            inp@,
                            at2(r0 + l, 0, chan as int),
                            1,
                            weight@,
                            wbase as int,
                            1,
                            chan as int,
                            init,
                            acc[l as int],
                        ));
                    } else {
                        if k2 == k {
                            lemma_at2_unique(r, o2, r0 + l, o as int, out_chan as int);
                        }
                        assert(out[k2] == before[k2]);
                    }
                }
            }
            l += 1;
        }
        o += 1;
    }
}

/// Computes every output as the bias plus the dot product of an input row and
/// a weight row, one row at a time.
pub fn matmul_forward_naive<S: Scalar>(
    out: &mut [S],
    inp: &[S],
    weight: &[S],
    bias: Option<&[S]>,
    batch: usize,
    time: usize,
    chan: usize,
    out_chan: usize,
)
    requires
        batch * time * chan <= inp.len(),
        batch * time * out_chan <= old(out).len(),
        out_chan * chan <= weight.len(),
        bias matches Some(bs) ==> out_chan <= bs.len(),
    ensures
        matmul_forward_post(
            old(out)@,
            final(out)@,
            inp@,
            weight@,
            bias,
            batch * time,
            chan as int,
            out_chan as int,
        ),
{
    if out_chan == 0 {
        return ;
    }
    proof {
        assert(batch * time <= batch * time * out_chan) by (nonlinear_arith)
            requires
                out_chan >= 1,
                batch * time >= 0,
        ;
    }
    let rows = batch * time;
    forward_rows(out, inp, weight, &bias, 0, rows, rows, chan, out_chan);
    proof {
        assert(0 * out_chan == 0);
    }
}

/// Computes every output as the bias plus the dot product of an input row and
/// a weight row.
///
/// Where the number of rows is a multiple of [`LOOP_UNROLL`] the rows are
/// handled in blocks, which reads each weight once for eight rows; every output
/// is still the same sum in the same order as in [`matmul_forward_naive`].
pub fn matmul_forward<S: Scalar>(
    out: &mut [S],
    inp: &[S],
    weight: &[S],
    bias: Option<&[S]>,
    batch: usize,
    time: usize,
    chan: usize,
    out_chan: usize,
)
    requires
        batch * time * chan <= inp.len(),
        batch * time * out_chan <= old(out).len(),
        out_chan * chan <= weight.len(),
        bias matches Some(bs) ==> out_chan <= bs.len(),
    ensures
        matmul_forward_post(
            old(out)@,
            final(out)@,
            inp@,
            weight@,
            bias,
            batch * time,
            chan as int,
            out_chan as int,
        ),
{
    if out_chan == 0 {
        return ;
    }
    proof {
        assert(batch * time <= batch * time * out_chan) by (nonlinear_arith)
            requires
                out_chan >= 1,
                batch * time >= 0,
        ;
    }
    let rows = batch * time;
    if rows % LOOP_UNROLL != 0 {
        forward_rows(out, inp, weight, &bias, 0, rows, rows, chan, out_chan);
        proof {
            assert(0 * out_chan == 0);
        }
        return ;
    }
    let mut r: usize = 0;
    while r < rows
        invariant
            r <= rows,
            r % LOOP_UNROLL == 0,
            rows % LOOP_UNROLL == 0,
            out_chan > 0,
            out.len() == old(out).len(),
            rows * chan <= inp.len(),
            rows * out_chan <= out.len(),
            out_chan * chan <= weight.len(),
            bias matches Some(bs) ==> out_chan <= bs.len(),
            forall|r2: int, o: int|
                0 <= r2 < r && 0 <= o < out_chan ==> matmul_cell(
                    inp@,
                    weight@,
                    bias,
                    r2,
                    o,
                    chan as int,
                    #[trigger] out[at2(r2, o, out_chan as int)],
                ),
            forall|j: int| r * out_chan <= j < out.len() ==> out[j] == old(out)[j],
        decreases rows - r,
    {
        let ghost before = out@;
        forward_block(out, inp, weight, &bias, r, rows, chan, out_chan);
        proof {
            assert(r * out_chan <= (r + LOOP_UNROLL) * out_chan) by (nonlinear_arith)
                requires
                    out_chan >= 0,
                    r >= 0,
            ;
            assert forall|r2: int, o: int|
                0 <= r2 < r + LOOP_UNROLL && 0 <= o < out_chan implies matmul_cell(
                inp@,
                weight@,
                bias,
                r2,
                o,
                chan as int,
                #[trigger] out[at2(r2, o, out_chan as int)],
            ) by {
                lemma_at2_in_table(r2, o, rows as int, out_chan as int);
                if r2 < r {
                    lemma_at2_in_table(r2, o, r as int, out_chan as int);
                    assert(out[at2(r2, o, out_chan as int)] == before[at2(r2, o, out_chan as int)]);
                }
            }
        }
        r += LOOP_UNROLL;
    }
}

/// What the backward pass adds to the input gradient: to `dinp[r, i]` the
/// products `weight[o, i] * dout[r, o]` in the order of `o`.
pub open spec fn matmul_dinp_post<S: Scalar>(
    before: Seq<S>,
    after: Seq<S>,
    dout: Seq<S>,
    weight: Seq<S>,
    rows: int,
    chan: int,
    out_chan: int,
) -> bool {
    &&& after.len() == before.len()
    &&& forall|r: int, i: int|
        0 <= r < rows && 0 <= i < chan ==> mac_chain(
            weight,
            i,
            chan,
            dout,
            at2(r, 0, out_chan),
            1,
            out_chan,
            before[at2(r, i, chan)],
            #[trigger] after[at2(r, i, chan)],
        )
    &&& forall|j: int| rows * chan <= j < before.len() ==> after[j] == before[j]
}

/// What the backward pass adds to the weight gradient: to `dweight[o, i]` the
/// products `inp[r, i] * dout[r, o]` in the order of `r`.
pub open spec fn matmul_dweight_post<S: Scalar>(
    before: Seq<S>,
    after: Seq<S>,
    inp: Seq<S>,
    dout: Seq<S>,
    rows: int,
    chan: int,
    out_chan: int,
) -> bool {
    &&& after.len() == before.len()
    &&& forall|o: int, i: int|
        0 <= o < out_chan && 0 <= i < chan ==> mac_chain(
            inp,
            i,
            chan,
            dout,
            o,
            out_chan,
            rows,
            before[at2(o, i, chan)],
            #[trigger] after[at2(o, i, chan)],
        )
    &&& forall|j: int| out_chan * chan <= j < before.len() ==> after[j] == before[j]
}

/// What the backward pass adds to the bias gradient: to `dbias[o]` the entries
/// `dout[r, o]` in the order of `r`.
pub open spec fn matmul_dbias_post<S: Scalar>(
    before: Seq<S>,
    after: Seq<S>,
    dout: Seq<S>,
    rows: int,
    out_chan: int,
) -> bool {
    &&& after.len() == before.len()
    &&& forall|o: int|
        0 <= o < out_chan ==> sum_chain(dout, o, out_chan, rows, before[o], #[trigger] after[o])
    &&& forall|j: int| out_chan <= j < before.len() ==> after[j] == before[j]
}

/// The first phase of the backward pass: the gradient of the input. Each row
/// of `dinp` depends on the same row of `dout` alone, so rows may be handled
/// in any order or side by side.
pub fn matmul_backward_input<S: Scalar>(
    dinp: &mut [S],
    dout: &[S],
    weight: &[S],
    rows: usize,
    chan: usize,
    out_chan: usize,
)
    requires
        rows * chan <= old(dinp).len(),
        rows * out_chan <= dout.len(),
        out_chan * chan <= weight.len(),
    ensures
        matmul_dinp_post(
            old(dinp)@,
            final(dinp)@,
            dout@,
            weight@,
            rows as int,
            chan as int,
            out_chan as int,
        ),
{
    if chan == 0 {
        return ;
    }
    let mut r: usize = 0;
    while r < rows
        invariant
            r <= rows,
            chan > 0,
            dinp.len() == old(dinp).len(),
            rows * chan <= dinp.len(),
            rows * out_chan <= dout.len(),
            out_chan * chan <= weight.len(),
            forall|r2: int, i: int|
                0 <= r2 < r && 0 <= i < chan ==> mac_chain(
                    weight@,
                    i,
                    chan as int,
                    dout@,
                    at2(r2, 0, out_chan as int),
                    1,
                    out_chan as int,
                    old(dinp)[at2(r2, i, chan as int)],
                    #[trigger] dinp[at2(r2, i, chan as int)],
                ),
            forall|j: int| r * chan <= j < dinp.len() ==> dinp[j] == old(dinp)[j],
        decreases rows - r,
    {
        proof {
            lemma_at2_in_table(r as int, 0, rows as int, chan as int);
            lemma_row_span(r as int, rows as int, out_chan as int);
        }
        let ibase = r * chan;
        let dbase = r * out_chan;
        let ghost before = dinp@;
        let mut o: usize = 0;
        while o < out_chan
            invariant
                o <= out_chan,
                chan > 0,
                dinp.len() == before.len(),
                ibase + chan <= dinp.len(),
                dbase + out_chan <= dout.len(),
                out_chan * chan <= weight.len(),
                forall|j: int|
                    ibase <= j < ibase + chan ==> mac_chain(
                        weight@,
                        j - ibase,
                        chan as int,
                        dout@,
                        dbase as int,
                        1,
                        o as int,
                        before[j],
                        #[trigger] dinp[j],
                    ),
                forall|j: int|
                    0 <= j < dinp.len() && !(ibase <= j < ibase + chan) ==> dinp[j] == before[j],
            decreases out_chan - o,
        {
            proof {
                lemma_at2_in_table(o as int, 0, out_chan as int, chan as int);
            }
            let d = dout[dbase + o];
            let wbase = o * chan;
            let ghost mid = dinp@;
            accumulate_scaled(dinp, ibase, weight, wbase, d, chan);
            proof {
                assert forall|j: int| ibase <= j < ibase + chan implies mac_chain(
                    weight@,
                    j - ibase,
                    chan as int,
                    dout@,
                    dbase as int,
                    1,
                    o + 1,
                    before[j],
                    #[trigger] dinp[j],
                ) by {
                    assert(is_mul_add(mid[j], weight@[wbase + (j - ibase)], d, dinp[j]));
                    assert(weight@[(j - ibase) + ((o + 1) - 1) * chan] == weight@[wbase + (j
                        - ibase)]);
                    assert(dout@[dbase + ((o + 1) - 1) * 1] == d);
                    assert(mac_chain(
                        weight@,
                        j - ibase,
                        chan as int,
                        dout@,
                        dbase as int,
                        1,
                        o as int,
                        before[j],
                        mid[j],
                    ));
                }
            }
            o += 1;
        }
        proof {
            assert((r + 1) * chan == r * chan + chan) by (nonlinear_arith);
            assert forall|r2: int, i: int| 0 <= r2 < r + 1 && 0 <= i < chan implies mac_chain(
                weight@,
                i,
                chan as int,
                dout@,
                at2(r2, 0, out_chan as int),
                1,
                out_chan as int,
                old(dinp)[at2(r2, i, chan as int)],
                #[trigger] dinp[at2(r2, i, chan as int)],
            ) by {
                let k = at2(r2, i, chan as int);
                lemma_at2_in_table(r2, i, rows as int, chan as int);
                if r2 == r {
                    assert(k == ibase + i);
                } else {
                    lemma_at2_in_table(r2, i, r as int, chan as int);
                    assert(dinp[k] == before[k]);
                }
            }
        }
        r += 1;
    }
}

/// The second phase of the backward pass for one output channel `o`: the
/// gradient of the weight row of that channel, held in
/// `dweight[wbase..wbase + chan]`. Channels are independent of each other.
pub fn matmul_backward_channel<S: Scalar>(
    dweight: &mut [S],
    wbase: usize,
    dout: &[S],
    inp: &[S],
    o: usize,
    rows: usize,
    chan: usize,
    out_chan: usize,
)
    requires
        wbase + chan <= old(dweight).len(),
        o < out_chan,
        rows * chan <= inp.len(),
        rows * out_chan <= dout.len(),
    ensures
        final(dweight).len() == old(dweight).len(),
        forall|j: int|
            wbase <= j < wbase + chan ==> mac_chain(
                inp@,
                j - wbase,
                chan as int,
                dout@,
                o as int,
                out_chan as int,
                rows as int,
                old(dweight)[j],
                #[trigger] final(dweight)[j],
            ),
        forall|j: int|
            0 <= j < old(dweight).len() && !(wbase <= j < wbase + chan) ==> final(dweight)[j]
                == old(dweight)[j],
{
    proof {
        assert(rows <= rows * out_chan) by (nonlinear_arith)
            requires
                out_chan >= 1,
                rows >= 0,
        ;
    }
    let mut r: usize = 0;
    while r < rows
        invariant
            r <= rows,
            o < out_chan,
            dweight.len() == old(dweight).len(),
            wbase + chan <= dweight.len(),
            rows * chan <= inp.len(),
            rows * out_chan <= dout.len(),
            forall|j: int|
                wbase <= j < wbase + chan ==> mac_chain(
                    inp@,
                    j - wbase,
                    chan as int,
                    dout@,
                    o as int,
                    out_chan as int,
                    r as int,
                    old(dweight)[j],
                    #[trigger] dweight[j],
                ),
            forall|j: int|
                0 <= j < dweight.len() && !(wbase <= j < wbase + chan)
                    ==> dweight[j] == old(dweight)[j],
        decreases rows - r,
    {
        proof {
            lemma_at2_in_table(r as int, o as int, rows as int, out_chan as int);
            lemma_row_span(r as int, rows as int, chan as int);
        }
        let d = dout[r * out_chan + o];
        let ibase = r * chan;
        let ghost mid = dweight@;
        accumulate_scaled(dweight, wbase, inp, ibase, d, chan);
        proof {
            assert forall|j: int| wbase <= j < wbase + chan implies mac_chain(
                inp@,
                j - wbase,
                chan as int,
                dout@,
                o as int,
                out_chan as int,
                r + 1,
                old(dweight)[j],
                #[trigger] dweight[j],
            ) by {
                assert(is_mul_add(mid[j], inp@[ibase + (j - wbase)], d, dweight[j]));
                assert(inp@[(j - wbase) + ((r + 1) - 1) * chan] == inp@[ibase + (j - wbase)]);
                assert(dout@[o + ((r + 1) - 1) * out_chan] == d);
                assert(mac_chain(
                    inp@,
                    j - wbase,
                    chan as int,
                    dout@,
                    o as int,
                    out_chan as int,
                    r as int,
                    old(dweight)[j],
                    mid[j],
                ));
            }
        }
        r += 1;
    }
}

/// Adds to `dinp`, `dweight` and, where it is present, `dbias` the gradients
/// that `dout` induces.
///
/// The input gradient and the parameter gradients are computed in two
/// separate phases, so that each phase writes a cell from one place only.
pub fn matmul_backward<S: Scalar>(
    dinp: &mut [S],
    dweight: &mut [S],
    dbias: Option<&mut [S]>,
    dout: &[S],
    inp: &[S],
    weight: &[S],
    batch: usize,
    time: usize,
    chan: usize,
    out_chan: usize,
)
    requires
        batch * time * chan <= old(dinp).len(),
        out_chan * chan <= old(dweight).len(),
        dbias matches Some(db) ==> out_chan <= db.len(),
        batch * time * out_chan <= dout.len(),
        batch * time * chan <= inp.len(),
        out_chan * chan <= weight.len(),
    ensures
        matmul_dinp_post(
            old(dinp)@,
            final(dinp)@,
            dout@,
            weight@,
            batch * time,
            chan as int,
            out_chan as int,
        ),
        matmul_dweight_post(
            old(dweight)@,
            final(dweight)@,
            inp@,
            dout@,
            batch * time,
            chan as int,
            out_chan as int,
        ),
        dbias matches Some(db) ==> matmul_dbias_post(
            db@,
            final(db)@,
            dout@,
            batch * time,
            out_chan as int,
        ),
{
    if out_chan == 0 {
        return ;
    }
    proof {
        assert(batch * time <= batch * time * out_chan) by (nonlinear_arith)
            requires
                out_chan >= 1,
                batch * time >= 0,
        ;
    }
    let rows = batch * time;
    matmul_backward_input(dinp, dout, weight, rows, chan, out_chan);
    let mut o: usize = 0;
    while o < out_chan
        invariant
            o <= out_chan,
            dweight.len() == old(dweight).len(),
            out_chan * chan <= dweight.len(),
            rows * out_chan <= dout.len(),
            rows * chan <= inp.len(),
            forall|o2: int, i: int|
                0 <= o2 < o && 0 <= i < chan ==> mac_chain(
                    inp@,
                    i,
                    chan as int,
                    dout@,
                    o2,
                    out_chan as int,
                    rows as int,
                    old(dweight)[at2(o2, i, chan as int)],
                    #[trigger] dweight[at2(o2, i, chan as int)],
                ),
            forall|j: int| o * chan <= j < dweight.len() ==> dweight[j] == old(dweight)[j],
        decreases out_chan - o,
    {
        proof {
            lemma_row_span(o as int, out_chan as int, chan as int);
        }
        let wbase = o * chan;
        let ghost before = dweight@;
        matmul_backward_channel(dweight, wbase, dout, inp, o, rows, chan, out_chan);
        proof {
            assert((o + 1) * chan == o * chan + chan) by (nonlinear_arith);
            assert forall|o2: int, i: int| 0 <= o2 < o + 1 && 0 <= i < chan implies mac_chain(
                inp@,
                i,
                chan as int,
                dout@,
                o2,
                out_chan as int,
                rows as int,
                old(dweight)[at2(o2, i, chan as int)],
                #[trigger] dweight[at2(o2, i, chan as int)],
            ) by {
                let k = at2(o2, i, chan as int);
                lemma_at2_in_table(o2, i, out_chan as int, chan as int);
                if o2 == o {
                    assert(k == wbase + i);
                } else {
                    lemma_at2_in_table(o2, i, o as int, chan as int);
                    assert(dweight[k] == before[k]);
                }
            }
        }
        o += 1;
    }
    match dbias {
        Some(db) => {
            let ghost before = db@;
            let mut o: usize = 0;
            while o < out_chan
                invariant
                    o <= out_chan,
                    out_chan > 0,
                    db.len() == before.len(),
                    out_chan <= db.len(),
                    rows * out_chan <= dout.len(),
                    forall|o2: int|
                        0 <= o2 < o ==> sum_chain(
                            dout@,
                            o2,
                            out_chan as int,
                            rows as int,
                            before[o2],
                            #[trigger] db[o2],
                        ),
                    forall|j: int| o <= j < db.len() ==> db[j] == before[j],
                decreases out_chan - o,
            {
                proof {
                    if rows > 0 {
                        lemma_at2_in_table(rows - 1, o as int, rows as int, out_chan as int);
                    }
                }
                let v = sum_strided(dout, o, out_chan, rows, db[o]);
                db[o] = v;
                o += 1;
            }
        },
        None => {},
    }
}

/// The forward pass overwrites its output, and the blocked and the row-wise
/// walk agree: with an arithmetic that is a function, any two runs on the same
/// inputs leave the same outputs, whatever the output buffers held before.
pub proof fn lemma_matmul_forward_determined<S: Scalar>(
    before1: Seq<S>,
    after1: Seq<S>,
    before2: Seq<S>,
    after2: Seq<S>,
    inp: Seq<S>,
    weight: Seq<S>,
    bias: Option<&[S]>,
    rows: int,
    chan: int,
    out_chan: int,
)
    requires
        functional::<S>(),
        matmul_forward_post(before1, after1, inp, weight, bias, rows, chan, out_chan),
        matmul_forward_post(before2, after2, inp, weight, bias, rows, chan, out_chan),
    ensures
        forall|r: int, o: int|
            0 <= r < rows && 0 <= o < out_chan ==> #[trigger] after1[at2(r, o, out_chan)]
                == after2[at2(r, o, out_chan)],
{
    assert forall|r: int, o: int| 0 <= r < rows && 0 <= o < out_chan implies #[trigger] after1[at2(
        r,
        o,
        out_chan,
    )] == after2[at2(r, o, out_chan)] by {
        let k = at2(r, o, out_chan);
        let i1 = choose|init: S| #[trigger]
            bias_start(bias, o, init) && mac_chain(
                inp,
                at2(r, 0, chan),
                1,
                weight,
                at2(o, 0, chan),
                1,
                chan,
                init,
                after1[k],
            );
        let i2 = choose|init: S| #[trigger]
            bias_start(bias, o, init) && mac_chain(
                inp,
                at2(r, 0, chan),
                1,
                weight,
                at2(o, 0, chan),
                1,
                chan,
                init,
                after2[k],
            );
        assert(i1 == i2);
        lemma_mac_chain_unique(
            inp,
            at2(r, 0, chan),
            1,
            weight,
            at2(o, 0, chan),
            1,
            chan,
            i1,
            after1[k],
            after2[k],
        );
    }
}

/// With an arithmetic that is a function, two runs of the backward pass from
/// the same state add the same to every entry of the three gradients.
pub proof fn lemma_matmul_backward_determined<S: Scalar>(
    dinp0: Seq<S>,
    dinp1: Seq<S>,
    dinp2: Seq<S>,
    dweight0: Seq<S>,
    dweight1: Seq<S>,
    dweight2: Seq<S>,
    dbias0: Seq<S>,
    dbias1: Seq<S>,
    dbias2: Seq<S>,
    dout: Seq<S>,
    inp: Seq<S>,
    weight: Seq<S>,
    rows: int,
    chan: int,
    out_chan: int,
)
    requires
        functional::<S>(),
        matmul_dinp_post(dinp0, dinp1, dout, weight, rows, chan, out_chan),
        matmul_dinp_post(dinp0, dinp2, dout, weight, rows, chan, out_chan),
        matmul_dweight_post(dweight0, dweight1, inp, dout, rows, chan, out_chan),
        matmul_dweight_post(dweight0, dweight2, inp, dout, rows, chan, out_chan),
        matmul_dbias_post(dbias0, dbias1, dout, rows, out_chan),
        matmul_dbias_post(dbias0, dbias2, dout, rows, out_chan),
    ensures
        forall|r: int, i: int|
            0 <= r < rows && 0 <= i < chan ==> #[trigger] dinp1[at2(r, i, chan)] == dinp2[at2(
                r,
                i,
                chan,
            )],
        forall|o: int, i: int|
            0 <= o < out_chan && 0 <= i < chan ==> #[trigger] dweight1[at2(o, i, chan)]
                == dweight2[at2(o, i, chan)],
        forall|o: int| 0 <= o < out_chan ==> #[trigger] dbias1[o] == dbias2[o],
{
    assert forall|r: int, i: int| 0 <= r < rows && 0 <= i < chan implies #[trigger] dinp1[at2(
        r,
        i,
        chan,
    )] == dinp2[at2(r, i, chan)] by {
        let k = at2(r, i, chan);
        lemma_mac_chain_unique(
            weight,
            i,
            chan,
            dout,
            at2(r, 0, out_chan),
            1,
            out_chan,
            dinp0[k],
            dinp1[k],
            dinp2[k],
        );
    }
    assert forall|o: int, i: int|
        0 <= o < out_chan && 0 <= i < chan implies #[trigger] dweight1[at2(o, i, chan)]
        == dweight2[at2(o, i, chan)] by {
        let k = at2(o, i, chan);
        lemma_mac_chain_unique(
            inp,
            i,
            chan,
            dout,
            o,
            out_chan,
            rows,
            dweight0[k],
            dweight1[k],
            dweight2[k],
        );
    }
    assert forall|o: int| 0 <= o < out_chan implies #[trigger] dbias1[o] == dbias2[o] by {
        lemma_sum_chain_unique(dout, o, out_chan, rows, dbias0[o], dbias1[o], dbias2[o]);
    }
}

/// The backward pass only adds: with exact additions, two passes with the same
/// inputs add to every entry of the three gradients twice what one pass adds.
pub proof fn lemma_matmul_backward_twice<S: Scalar>(
    dinp0: Seq<S>,
    dinp1: Seq<S>,
    dinp2: Seq<S>,
    dweight0: Seq<S>,
    dweight1: Seq<S>,
    dweight2: Seq<S>,
    dbias0: Seq<S>,
    dbias1: Seq<S>,
    dbias2: Seq<S>,
    dout: Seq<S>,
    inp: Seq<S>,
    weight: Seq<S>,
    rows: int,
    chan: int,
    out_chan: int,
)
    requires
        exact_sums::<S>(),
        matmul_dinp_post(dinp0, dinp1, dout, weight, rows, chan, out_chan),
        matmul_dinp_post(dinp1, dinp2, dout, weight, rows, chan, out_chan),
        matmul_dweight_post(dweight0, dweight1, inp, dout, rows, chan, out_chan),
        matmul_dweight_post(dweight1, dweight2, inp, dout, rows, chan, out_chan),
        matmul_dbias_post(dbias0, dbias1, dout, rows, out_chan),
        matmul_dbias_post(dbias1, dbias2, dout, rows, out_chan),
    ensures
        forall|r: int, i: int|
            0 <= r < rows && 0 <= i < chan ==> grew_twice(
                dinp0[at2(r, i, chan)],
                dinp1[at2(r, i, chan)],
                #[trigger] dinp2[at2(r, i, chan)],
            ),
        forall|o: int, i: int|
            0 <= o < out_chan && 0 <= i < chan ==> grew_twice(
                dweight0[at2(o, i, chan)],
                dweight1[at2(o, i, chan)],
                #[trigger] dweight2[at2(o, i, chan)],
            ),
        forall|o: int| 0 <= o < out_chan ==> grew_twice(dbias0[o], dbias1[o], #[trigger] dbias2[o]),
{
    assert forall|r: int, i: int| 0 <= r < rows && 0 <= i < chan implies grew_twice(
        dinp0[at2(r, i, chan)],
        dinp1[at2(r, i, chan)],
        #[trigger] dinp2[at2(r, i, chan)],
    ) by {
        let k = at2(r, i, chan);
        let yo = at2(r, 0, out_chan);
        let delta = lemma_mac_chain_additive(weight, i, chan, dout, yo, 1, out_chan);
        assert(mac_chain(weight, i, chan, dout, yo, 1, out_chan, dinp0[k], dinp1[k]));
        assert(mac_chain(weight, i, chan, dout, yo, 1, out_chan, dinp1[k], dinp2[k]));
        lemma_added_twice(dinp0[k], delta, dinp1[k], dinp2[k]);
    }
    assert forall|o: int, i: int| 0 <= o < out_chan && 0 <= i < chan implies grew_twice(
        dweight0[at2(o, i, chan)],
        dweight1[at2(o, i, chan)],
        #[trigger] dweight2[at2(o, i, chan)],
    ) by {
        let k = at2(o, i, chan);
        let delta = lemma_mac_chain_additive(inp, i, chan, dout, o, out_chan, rows);
        assert(mac_chain(inp, i, chan, dout, o, out_chan, rows, dweight0[k], dweight1[k]));
        assert(mac_chain(inp, i, chan, dout, o, out_chan, rows, dweight1[k], dweight2[k]));
        lemma_added_twice(dweight0[k], delta, dweight1[k], dweight2[k]);
    }
    assert forall|o: int| 0 <= o < out_chan implies grew_twice(
        dbias0[o],
        dbias1[o],
        #[trigger] dbias2[o],
    ) by {
        let delta = lemma_sum_chain_additive(dout, o, out_chan, rows);
        assert(sum_chain(dout, o, out_chan, rows, dbias0[o], dbias1[o]));
        assert(sum_chain(dout, o, out_chan, rows, dbias1[o], dbias2[o]));
        lemma_added_twice(dbias0[o], delta, dbias1[o], dbias2[o]);
    }
}

} // verus!
