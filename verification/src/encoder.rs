//! The embedding layer: the sum of a token embedding and a position embedding,
//! and the scatter of its gradient.
use crate::fold::{accumulate, lemma_sum_chain_additive, lemma_sum_chain_unique, sum_chain};
use crate::layout::{
    at2, at3, lemma_at2_in_table, lemma_at2_unique, lemma_at3_block, lemma_at3_in_table,
    lemma_at3_unique,
};
use crate::scalar::{
    exact_sums, functional, grew_twice, has_sum, is_add, lemma_add_then_add, lemma_added_twice,
    neutral, Scalar,
};
use vstd::prelude::*;

verus! {

/// The token ids of a `batch x time` input name rows of a table of embeddings
/// with rows of `chan` entries and `table_len` entries in all.
pub open spec fn tokens_in_table(
    inp: Seq<i32>,
    batch: int,
    time: int,
    chan: int,
    table_len: int,
) -> bool {
    forall|p: int|
        0 <= p < batch * time ==> 0 <= #[trigger] inp[p] && (inp[p] + 1) * chan <= table_len
}

/// What the forward pass leaves in `out`.
pub open spec fn encoder_forward_post<S: Scalar>(
    before: Seq<S>,
    after: Seq<S>,
    inp: Seq<i32>,
    wte: Seq<S>,
    wpe: Seq<S>,
    batch: int,
    time: int,
    chan: int,
) -> bool {
    &&& after.len() == before.len()
    &&& forall|b: int, t: int, i: int|
        0 <= b < batch && 0 <= t < time && 0 <= i < chan ==> is_add(
            wte[at2(inp[at2(b, t, time)] as int, i, chan)],
            wpe[at2(t, i, chan)],
            #[trigger] after[at3(b, t, i, time, chan)],
        )
    &&& forall|j: int| batch * time * chan <= j < before.len() ==> after[j] == before[j]
}

/// Writes to `out[b, t, :]` the sum of the token embedding `wte[inp[b, t], :]`
/// and the position embedding `wpe[t, :]`.
///
/// `out` is `[batch, time, chan]`, `inp` is `[batch, time]`, `wte` has rows of
/// `chan` entries, and `wpe` is `[time, chan]`.
pub fn encoder_forward<S: Scalar>(
    out: &mut [S],
    inp: &[i32],
    wte: &[S],
    wpe: &[S],
    batch: usize,
    time: usize,
    chan: usize,
)
    requires
        batch * time * chan <= old(out).len(),
        batch * time <= inp.len(),
        time * chan <= wpe.len(),
        tokens_in_table(inp@, batch as int, time as int, chan as int, wte.len() as int),
    ensures
        encoder_forward_post(
            old(out)@,
            final(out)@,
            inp@,
            wte@,
            wpe@,
            batch as int,
            time as int,
            chan as int,
        ),
{
    let mut b: usize = 0;
    while b < batch
        invariant
            b <= batch,
            out.len() == old(out).len(),
            batch * time * chan <= out.len(),
            batch * time <= inp.len(),
            time * chan <= wpe.len(),
            tokens_in_table(inp@, batch as int, time as int, chan as int, wte.len() as int),
            forall|b2: int, t2: int, i2: int|
                0 <= b2 < b && 0 <= t2 < time && 0 <= i2 < chan ==> is_add(
                    wte[at2(inp[at2(b2, t2, time as int)] as int, i2, chan as int)],
                    wpe[at2(t2, i2, chan as int)],
                    #[trigger] out[at3(b2, t2, i2, time as int, chan as int)],
                ),
            forall|j: int| batch * time * chan <= j < out.len() ==> out[j] == old(out)[j],
        decreases batch - b,
    {
        let mut t: usize = 0;
        while t < time
            invariant
                b < batch,
                t <= time,
                out.len() == old(out).len(),
                batch * time * chan <= out.len(),
                batch * time <= inp.len(),
                time * chan <= wpe.len(),
                tokens_in_table(inp@, batch as int, time as int, chan as int, wte.len() as int),
                forall|b2: int, t2: int, i2: int|
                    (0 <= b2 < b || (b2 == b && t2 < t)) && 0 <= t2 < time && 0 <= i2 < chan
                        ==> is_add(
                        wte[at2(inp[at2(b2, t2, time as int)] as int, i2, chan as int)],
                        wpe[at2(t2, i2, chan as int)],
                        #[trigger] out[at3(b2, t2, i2, time as int, chan as int)],
                    ),
                forall|j: int| batch * time * chan <= j < out.len() ==> out[j] == old(out)[j],
            decreases time - t,
        {
            if chan > 0 {
                proof {
                    lemma_at3_in_table(
                        b as int,
                        t as int,
                        0,
                        batch as int,
                        time as int,
                        chan as int,
                    );
                    lemma_at2_in_table(t as int, 0, time as int, chan as int);
                    assert(batch * time <= batch * time * chan) by (nonlinear_arith)
                        requires
                            chan >= 1,
                            batch * time >= 0,
                    ;
                }
                let row = b * time + t;
                let base = row * chan;
                let tok = inp[row] as usize;
                proof {
                    assert(tok * chan + chan == (tok + 1) * chan) by (nonlinear_arith);
                    assert(0 <= tok * chan) by (nonlinear_arith)
                        requires
                            tok >= 0,
                            chan >= 0,
                    ;
                }
                let wbase = tok * chan;
                let pbase = t * chan;
                let ghost before = out@;
                let mut i: usize = 0;
                while i < chan
                    invariant
                        i <= chan,
                        out.len() == before.len(),
                        base + chan <= out.len(),
                        wbase + chan <= wte.len(),
                        pbase + chan <= wpe.len(),
                        forall|j: int|
                            base <= j < base + i ==> is_add(
                                wte[wbase + (j - base)],
                                wpe[pbase + (j - base)],
                                #[trigger] out[j],
                            ),
                        forall|j: int|
                            0 <= j < out.len() && !(base <= j < base + i) ==> out[j] == before[j],
                    decreases chan - i,
                {
                    out[base + i] = wte[wbase + i].add(wpe[pbase + i]);
                    i += 1;
                }
                proof {
                    assert forall|b2: int, t2: int, i2: int|
                        (0 <= b2 < b || (b2 == b && t2 < t + 1)) && 0 <= t2 < time && 0 <= i2
                            < chan implies is_add(
                        wte[at2(inp[at2(b2, t2, time as int)] as int, i2, chan as int)],
                        wpe[at2(t2, i2, chan as int)],
                        #[trigger] out[at3(b2, t2, i2, time as int, chan as int)],
                    ) by {
                        let k = at3(b2, t2, i2, time as int, chan as int);
                        lemma_at3_in_table(b2, t2, i2, batch as int, time as int, chan as int);
                        if b2 == b && t2 == t {
                            assert(k == base + i2);
                        } else {
                            if base <= k < base + chan {
                                lemma_at3_unique(
                                    b2,
                                    t2,
                                    i2,
                                    b as int,
                                    t as int,
                                    k - base,
                                    time as int,
                                    chan as int,
                                );
                            }
                            assert(out[k] == before[k]);
                        }
                    }
                }
            }
            t += 1;
        }
        b += 1;
    }
}

/// `r` results from `init` by adding, in order of position, the entries
/// `dout[p, i]` of the first `n` positions `p` whose token is `tok`.
pub open spec fn token_chain<S: Scalar>(
    inp: Seq<i32>,
    dout: Seq<S>,
    chan: int,
    tok: int,
    i: int,
    n: int,
    init: S,
    r: S,
) -> bool
    decreases n,
{
    if n <= 0 {
        r == init
    } else if inp[n - 1] == tok {
        let term = dout[at2(n - 1, i, chan)];
        exists|p: S| token_chain(inp, dout, chan, tok, i, n - 1, init, p) && #[trigger] is_add(
            p,
            term,
            r,
        )
    } else {
        token_chain(inp, dout, chan, tok, i, n - 1, init, r)
    }
}

/// What the backward pass adds to the token embedding gradient: to each row
/// the gradients of the positions that hold its token.
pub open spec fn encoder_dwte_post<S: Scalar>(
    before: Seq<S>,
    after: Seq<S>,
    dout: Seq<S>,
    inp: Seq<i32>,
    batch: int,
    time: int,
    chan: int,
) -> bool {
    &&& after.len() == before.len()
    &&& forall|tok: int, i: int|
        0 <= tok && 0 <= i < chan && at2(tok, i, chan) < before.len() ==> token_chain(
            inp,
            dout,
            chan,
            tok,
            i,
            batch * time,
            before[at2(tok, i, chan)],
            #[trigger] after[at2(tok, i, chan)],
        )
    &&& chan == 0 ==> after == before
}

/// What the backward pass adds to the position embedding gradient: to each row
/// the gradient of its position in every sequence.
pub open spec fn encoder_dwpe_post<S: Scalar>(
    before: Seq<S>,
    after: Seq<S>,
    dout: Seq<S>,
    batch: int,
    time: int,
    chan: int,
) -> bool {
    &&& after.len() == before.len()
    &&& forall|t: int, i: int|
        0 <= t < time && 0 <= i < chan ==> sum_chain(
            dout,
            at2(t, i, chan),
            time * chan,
            batch,
            before[at2(t, i, chan)],
            #[trigger] after[at2(t, i, chan)],
        )
    &&& forall|j: int| time * chan <= j < before.len() ==> after[j] == before[j]
}

/// Adds the gradient `dout[b, t, :]` to the row `dwte[inp[b, t], :]` of the
/// token embedding gradient and to the row `dwpe[t, :]` of the position
/// embedding gradient, for every position in the order of `b`, then `t`.
///
/// A row of `dwte` collects the gradients of all the positions that hold its
/// token; a row of `dwpe` collects one gradient from each sequence.
pub fn encoder_backward<S: Scalar>(
    dwte: &mut [S],
    dwpe: &mut [S],
    dout: &[S],
    inp: &[i32],
    batch: usize,
    time: usize,
    chan: usize,
)
    requires
        batch * time * chan <= dout.len(),
        batch * time <= inp.len(),
        time * chan <= old(dwpe).len(),
        tokens_in_table(inp@, batch as int, time as int, chan as int, old(dwte).len() as int),
    ensures
        encoder_dwte_post(
            old(dwte)@,
            final(dwte)@,
            dout@,
            inp@,
            batch as int,
            time as int,
            chan as int,
        ),
        encoder_dwpe_post(
            old(dwpe)@,
            final(dwpe)@,
            dout@,
            batch as int,
            time as int,
            chan as int,
        ),
{
    if chan == 0 {
        return ;
    }
    let mut b: usize = 0;
    while b < batch
        invariant
            chan > 0,
            b <= batch,
            dwte.len() == old(dwte).len(),
            dwpe.len() == old(dwpe).len(),
            batch * time * chan <= dout.len(),
            batch * time <= inp.len(),
            time * chan <= dwpe.len(),
            tokens_in_table(inp@, batch as int, time as int, chan as int, dwte.len() as int),
            forall|tok: int, i: int|
                0 <= tok && 0 <= i < chan && at2(tok, i, chan as int) < dwte.len()
                    ==> token_chain(
                    inp@,
                    dout@,
                    chan as int,
                    tok,
                    i,
                    b * time,
                    old(dwte)[at2(tok, i, chan as int)],
                    #[trigger] dwte[at2(tok, i, chan as int)],
                ),
            forall|t2: int, i: int|
                0 <= t2 < time && 0 <= i < chan ==> sum_chain(
                    dout@,
                    at2(t2, i, chan as int),
                    time * chan,
                    b as int,
                    old(dwpe)[at2(t2, i, chan as int)],
                    #[trigger] dwpe[at2(t2, i, chan as int)],
                ),
            forall|j: int| time * chan <= j < dwpe.len() ==> dwpe[j] == old(dwpe)[j],
        decreases batch - b,
    {
        let mut t: usize = 0;
        while t < time
            invariant
                chan > 0,
                b < batch,
                t <= time,
                dwte.len() == old(dwte).len(),
                dwpe.len() == old(dwpe).len(),
                batch * time * chan <= dout.len(),
                batch * time <= inp.len(),
                time * chan <= dwpe.len(),
                tokens_in_table(inp@, batch as int, time as int, chan as int, dwte.len() as int),
                forall|tok: int, i: int|
                    0 <= tok && 0 <= i < chan && at2(tok, i, chan as int) < dwte.len()
                        ==> token_chain(
                        inp@,
                        dout@,
                        chan as int,
                        tok,
                        i,
                        b * time + t,
                        old(dwte)[at2(tok, i, chan as int)],
                        #[trigger] dwte[at2(tok, i, chan as int)],
                    ),
                forall|t2: int, i: int|
                    0 <= t2 < time && 0 <= i < chan ==> sum_chain(
                        dout@,
                        at2(t2, i, chan as int),
                        time * chan,
                        if t2 < t {
                            b + 1
                        } else {
                            b as int
                        },
                        old(dwpe)[at2(t2, i, chan as int)],
                        #[trigger] dwpe[at2(t2, i, chan as int)],
                    ),
                forall|j: int| time * chan <= j < dwpe.len() ==> dwpe[j] == old(dwpe)[j],
            decreases time - t,
        {
            proof {
                lemma_at3_in_table(b as int, t as int, 0, batch as int, time as int, chan as int);
                lemma_at2_in_table(t as int, 0, time as int, chan as int);
                assert(batch * time <= batch * time * chan) by (nonlinear_arith)
                    requires
                        chan >= 1,
                        batch * time >= 0,
                ;
            }
            let row = b * time + t;
            let base = row * chan;
            let tok = inp[row] as usize;
            proof {
                assert(tok * chan + chan == (tok + 1) * chan) by (nonlinear_arith);
                assert(0 <= tok * chan) by (nonlinear_arith)
                    requires
                        tok >= 0,
                        chan >= 0,
                ;
            }
            let wbase = tok * chan;
            let pbase = t * chan;
            let ghost te_before = dwte@;
            let ghost pe_before = dwpe@;
            accumulate(dwte, wbase, dout, base, chan);
            accumulate(dwpe, pbase, dout, base, chan);
            proof {
                assert forall|tk: int, i: int|
                    0 <= tk && 0 <= i < chan && at2(tk, i, chan as int)
                        < dwte.len() implies token_chain(
                    inp@,
                    dout@,
                    chan as int,
                    tk,
                    i,
                    b * time + t + 1,
                    old(dwte)[at2(tk, i, chan as int)],
                    #[trigger] dwte[at2(tk, i, chan as int)],
                ) by {
                    let k = at2(tk, i, chan as int);
                    assert(token_chain(
                        inp@,
                        dout@,
                        chan as int,
                        tk,
                        i,
                        b * time + t,
                        old(dwte)[k],
                        te_before[k],
                    ));
                    if tk == tok {
                        assert(k == wbase + i);
                        assert(dout@[at2(row as int, i, chan as int)] == dout@[base + (k - wbase)]);
                        assert(is_add(te_before[k], dout@[at2(row as int, i, chan as int)], dwte[k]));
                    } else {
                        if wbase <= k < wbase + chan {
                            lemma_at2_unique(tk, i, tok as int, k - wbase, chan as int);
                        }
                        assert(dwte[k] == te_before[k]);
                    }
                }
                assert forall|t2: int, i: int| 0 <= t2 < time && 0 <= i < chan implies sum_chain(
                    dout@,
                    at2(t2, i, chan as int),
                    time * chan,
                    if t2 < t + 1 {
                        b + 1
                    } else {
                        b as int
                    },
                    old(dwpe)[at2(t2, i, chan as int)],
                    #[trigger] dwpe[at2(t2, i, chan as int)],
                ) by {
                    let k = at2(t2, i, chan as int);
                    lemma_at2_in_table(t2, i, time as int, chan as int);
                    assert(sum_chain(
                        dout@,
                        k,
                        time * chan,
                        if t2 < t {
                            b + 1
                        } else {
                            b as int
                        },
                        old(dwpe)[k],
                        pe_before[k],
                    ));
                    if t2 == t {
                        assert(k == pbase + i);
                        lemma_at3_block(b as int, t as int, i, time as int, chan as int);
                        assert(k + ((b + 1) - 1) * (time * chan) == base + (k - pbase));
                        assert(is_add(
                            pe_before[k],
                            dout@[k + ((b + 1) - 1) * (time * chan)],
                            dwpe[k],
                        ));
                    } else {
                        if pbase <= k < pbase + chan {
                            lemma_at2_unique(t2, i, t as int, k - pbase, chan as int);
                        }
                        assert(dwpe[k] == pe_before[k]);
                    }
                }
            }
            t += 1;
        }
        proof {
            assert(b * time + time == (b + 1) * time) by (nonlinear_arith);
        }
        b += 1;
    }
}

/// With an arithmetic that is a function, the gradients collected for a token
/// have one sum.
pub proof fn lemma_token_chain_unique<S: Scalar>(
    inp: Seq<i32>,
    dout: Seq<S>,
    chan: int,
    tok: int,
    i: int,
    n: int,
    init: S,
    r1: S,
    r2: S,
)
    requires
        functional::<S>(),
        token_chain(inp, dout, chan, tok, i, n, init, r1),
        token_chain(inp, dout, chan, tok, i, n, init, r2),
    ensures
        r1 == r2,
    decreases n,
{
    if n > 0 {
        if inp[n - 1] == tok {
            let term = dout[at2(n - 1, i, chan)];
            let p1 = choose|p: S|
                token_chain(inp, dout, chan, tok, i, n - 1, init, p) && #[trigger] is_add(p, term, r1);
            let p2 = choose|p: S|
                token_chain(inp, dout, chan, tok, i, n - 1, init, p) && #[trigger] is_add(p, term, r2);
            lemma_token_chain_unique(inp, dout, chan, tok, i, n - 1, init, p1, p2);
        } else {
            lemma_token_chain_unique(inp, dout, chan, tok, i, n - 1, init, r1, r2);
        }
    }
}

/// The forward pass overwrites its output: with an arithmetic that is a
/// function, two runs on the same inputs leave the same embeddings, whatever
/// the output buffers held before.
pub proof fn lemma_encoder_forward_determined<S: Scalar>(
    before1: Seq<S>,
    after1: Seq<S>,
    before2: Seq<S>,
    after2: Seq<S>,
    inp: Seq<i32>,
    wte: Seq<S>,
    wpe: Seq<S>,
    batch: int,
    time: int,
    chan: int,
)
    requires
        functional::<S>(),
        encoder_forward_post(before1, after1, inp, wte, wpe, batch, time, chan),
        encoder_forward_post(before2, after2, inp, wte, wpe, batch, time, chan),
    ensures
        forall|b: int, t: int, i: int|
            0 <= b < batch && 0 <= t < time && 0 <= i < chan ==> #[trigger] after1[at3(
                b,
                t,
                i,
                time,
                chan,
            )] == after2[at3(b, t, i, time, chan)],
{
    assert forall|b: int, t: int, i: int|
        0 <= b < batch && 0 <= t < time && 0 <= i < chan implies #[trigger] after1[at3(
        b,
        t,
        i,
        time,
        chan,
    )] == after2[at3(b, t, i, time, chan)] by {
        let k = at3(b, t, i, time, chan);
        let w = wte[at2(inp[at2(b, t, time)] as int, i, chan)];
        assert(is_add(w, wpe[at2(t, i, chan)], after1[k]));
        assert(is_add(w, wpe[at2(t, i, chan)], after2[k]));
    }
}

/// With an arithmetic that is a function, two runs of the backward pass from
/// the same state add the same to every entry of both gradients.
pub proof fn lemma_encoder_backward_determined<S: Scalar>(
    dwte0: Seq<S>,
    dwte1: Seq<S>,
    dwte2: Seq<S>,
    dwpe0: Seq<S>,
    dwpe1: Seq<S>,
    dwpe2: Seq<S>,
    dout: Seq<S>,
    inp: Seq<i32>,
    batch: int,
    time: int,
    chan: int,
)
    requires
        functional::<S>(),
        encoder_dwte_post(dwte0, dwte1, dout, inp, batch, time, chan),
        encoder_dwte_post(dwte0, dwte2, dout, inp, batch, time, chan),
        encoder_dwpe_post(dwpe0, dwpe1, dout, batch, time, chan),
        encoder_dwpe_post(dwpe0, dwpe2, dout, batch, time, chan),
    ensures
        forall|tok: int, i: int|
            0 <= tok && 0 <= i < chan && at2(tok, i, chan) < dwte0.len() ==> #[trigger] dwte1[at2(
                tok,
                i,
                chan,
            )] == dwte2[at2(tok, i, chan)],
        forall|t: int, i: int|
            0 <= t < time && 0 <= i < chan ==> #[trigger] dwpe1[at2(t, i, chan)] == dwpe2[at2(
                t,
                i,
                chan,
            )],
{
    assert forall|tok: int, i: int|
        0 <= tok && 0 <= i < chan && at2(tok, i, chan) < dwte0.len() implies #[trigger] dwte1[at2(
        tok,
        i,
        chan,
    )] == dwte2[at2(tok, i, chan)] by {
        let k = at2(tok, i, chan);
        lemma_token_chain_unique(inp, dout, chan, tok, i, batch * time, dwte0[k], dwte1[k], dwte2[k]);
    }
    assert forall|t: int, i: int| 0 <= t < time && 0 <= i < chan implies #[trigger] dwpe1[at2(
        t,
        i,
        chan,
    )] == dwpe2[at2(t, i, chan)] by {
        let k = at2(t, i, chan);
        lemma_sum_chain_unique(dout, k, time * chan, batch, dwpe0[k], dwpe1[k], dwpe2[k]);
    }
}

/// The gradients collected for a token add one number to what the entry held:
/// with exact additions there is a `delta`, the same for every start, such
/// that the result is the start plus `delta`.
pub proof fn lemma_token_chain_additive<S: Scalar>(
    inp: Seq<i32>,
    dout: Seq<S>,
    chan: int,
    tok: int,
    i: int,
    n: int,
) -> (delta: S)
    requires
        exact_sums::<S>(),
    ensures
        forall|init: S, r: S| #[trigger]
            token_chain(inp, dout, chan, tok, i, n, init, r) ==> is_add(init, delta, r),
    decreases n,
{
    if n <= 0 {
        let z = choose|z: S| neutral(z);
        assert forall|init: S, r: S| #[trigger]
            token_chain(inp, dout, chan, tok, i, n, init, r) implies is_add(init, z, r) by {
            assert(is_add(init, z, init));
        }
        z
    } else {
        let prev = lemma_token_chain_additive(inp, dout, chan, tok, i, n - 1);
        if inp[n - 1] == tok {
            let term = dout[at2(n - 1, i, chan)];
            assert(has_sum(prev, term));
            let delta = choose|d: S| is_add(prev, term, d);
            assert forall|init: S, r: S| #[trigger]
                token_chain(inp, dout, chan, tok, i, n, init, r) implies is_add(init, delta, r) by {
                let p = choose|p: S|
                    token_chain(inp, dout, chan, tok, i, n - 1, init, p) && #[trigger] is_add(
                        p,
                        term,
                        r,
                    );
                assert(is_add(init, prev, p));
                let s = lemma_add_then_add(init, prev, p, term, r);
            }
            delta
        } else {
            assert forall|init: S, r: S| #[trigger]
                token_chain(inp, dout, chan, tok, i, n, init, r) implies is_add(init, prev, r) by {
                assert(token_chain(inp, dout, chan, tok, i, n - 1, init, r));
            }
            prev
        }
    }
}

/// The backward pass only adds: with exact additions, two passes with the same
/// inputs add to every entry of both gradients twice what one pass adds.
pub proof fn lemma_encoder_backward_twice<S: Scalar>(
    dwte0: Seq<S>,
    dwte1: Seq<S>,
    dwte2: Seq<S>,
    dwpe0: Seq<S>,
    dwpe1: Seq<S>,
    dwpe2: Seq<S>,
    dout: Seq<S>,
    inp: Seq<i32>,
    batch: int,
    time: int,
    chan: int,
)
    requires
        exact_sums::<S>(),
        encoder_dwte_post(dwte0, dwte1, dout, inp, batch, time, chan),
        encoder_dwte_post(dwte1, dwte2, dout, inp, batch, time, chan),
        encoder_dwpe_post(dwpe0, dwpe1, dout, batch, time, chan),
        encoder_dwpe_post(dwpe1, dwpe2, dout, batch, time, chan),
    ensures
        forall|tok: int, i: int|
            0 <= tok && 0 <= i < chan && at2(tok, i, chan) < dwte0.len() ==> grew_twice(
                dwte0[at2(tok, i, chan)],
                dwte1[at2(tok, i, chan)],
                #[trigger] dwte2[at2(tok, i, chan)],
            ),
        forall|t: int, i: int|
            0 <= t < time && 0 <= i < chan ==> grew_twice(
                dwpe0[at2(t, i, chan)],
                dwpe1[at2(t, i, chan)],
                #[trigger] dwpe2[at2(t, i, chan)],
            ),
{
    assert forall|tok: int, i: int|
        0 <= tok && 0 <= i < chan && at2(tok, i, chan) < dwte0.len() implies grew_twice(
        dwte0[at2(tok, i, chan)],
        dwte1[at2(tok, i, chan)],
        #[trigger] dwte2[at2(tok, i, chan)],
    ) by {
        let k = at2(tok, i, chan);
        let delta = lemma_token_chain_additive(inp, dout, chan, tok, i, batch * time);
        assert(token_chain(inp, dout, chan, tok, i, batch * time, dwte0[k], dwte1[k]));
        assert(token_chain(inp, dout, chan, tok, i, batch * time, dwte1[k], dwte2[k]));
        lemma_added_twice(dwte0[k], delta, dwte1[k], dwte2[k]);
    }
    assert forall|t: int, i: int| 0 <= t < time && 0 <= i < chan implies grew_twice(
        dwpe0[at2(t, i, chan)],
        dwpe1[at2(t, i, chan)],
        #[trigger] dwpe2[at2(t, i, chan)],
    ) by {
        let k = at2(t, i, chan);
        let delta = lemma_sum_chain_additive(dout, k, time * chan, batch);
        assert(sum_chain(dout, k, time * chan, batch, dwpe0[k], dwpe1[k]));
        assert(sum_chain(dout, k, time * chan, batch, dwpe1[k], dwpe2[k]));
        lemma_added_twice(dwpe0[k], delta, dwpe1[k], dwpe2[k]);
    }
}

} // verus!
