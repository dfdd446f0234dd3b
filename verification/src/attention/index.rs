//! Where the entries of the attention tensors lie in their buffers, the
//! order in which heads and positions are walked, and the scores of later
//! positions, which no pass touches.
use crate::layout::{
    at2, at3, lemma_at2_in_table, lemma_at2_ordered, lemma_at2_unique, lemma_at3_in_table,
    lemma_at3_unique,
};
use crate::scalar::Scalar;
use vstd::prelude::*;

verus! {

/// The flat position in the fused input of entry `i` of the query of head `h`
/// at position `(b, t)`.
pub open spec fn q_at(b: int, t: int, h: int, i: int, time: int, chan: int, hs: int) -> int {
    at2(at2(b, t, time), h * hs + i, 3 * chan)
}

/// The flat position in the fused input of entry `i` of the key of head `h` at
/// position `(b, t)`.
pub open spec fn k_at(b: int, t: int, h: int, i: int, time: int, chan: int, hs: int) -> int {
    at2(at2(b, t, time), chan + h * hs + i, 3 * chan)
}

/// The flat position in the fused input of entry `i` of the value of head `h`
/// at position `(b, t)`.
pub open spec fn v_at(b: int, t: int, h: int, i: int, time: int, chan: int, hs: int) -> int {
    at2(at2(b, t, time), 2 * chan + h * hs + i, 3 * chan)
}

/// The flat position in the fused input of entry `i` of head `h` at position
/// `(b, t)`, in the query (`part` 0), the key (1) or the value (2).
pub open spec fn qkv_at(
    b: int,
    t: int,
    part: int,
    h: int,
    i: int,
    time: int,
    chan: int,
    hs: int,
) -> int {
    at2(at2(b, t, time), part * chan + h * hs + i, 3 * chan)
}

/// The flat position in the output of entry `i` of head `h` at position
/// `(b, t)`.
pub open spec fn o_at(b: int, t: int, h: int, i: int, time: int, chan: int, hs: int) -> int {
    at2(at2(b, t, time), h * hs + i, chan)
}

/// The flat position of the score of position `t` against position `t2` in
/// head `h` of sequence `b`.
pub open spec fn att_at(b: int, h: int, t: int, t2: int, heads: int, time: int) -> int {
    at2(at3(b, h, t, heads, time), t2, time)
}

/// Where head `h` at position `(b, t)` finds its rows and segments, and that
/// they lie inside the tensors.
pub proof fn lemma_head_offsets(
    b: int,
    t: int,
    h: int,
    batch: int,
    time: int,
    chan: int,
    heads: int,
    hs: int,
)
    requires
        0 <= b < batch,
        0 <= t < time,
        0 <= h < heads,
        0 <= hs,
        chan == heads * hs,
    ensures
        0 <= at2(b, t, time) < batch * time,
        0 <= b * time,
        0 <= h * hs,
        h * hs + hs <= chan,
        0 <= at2(b, t, time) * (3 * chan),
        at2(b, t, time) * (3 * chan) + 3 * chan <= batch * time * (3 * chan),
        (b * time) * (3 * chan) + t * (3 * chan) == at2(b, t, time) * (3 * chan),
        0 <= (b * time) * (3 * chan),
        0 <= b * heads + h,
        0 <= at3(b, h, t, heads, time) < batch * heads * time,
        0 <= at3(b, h, t, heads, time) * time,
        at3(b, h, t, heads, time) * time + time <= batch * heads * time * time,
        0 <= at3(b, t, h, time, heads) < batch * time * heads,
        0 <= at3(b, t, h, time, heads) * hs,
        at3(b, t, h, time, heads) * hs + hs <= batch * time * chan,
        batch * time * heads <= batch * heads * time * time,
        batch * time <= batch * time * heads,
        0 <= at2(b, h, heads) < batch * heads,
        0 <= at2(b, h, heads) * time,
        batch * heads <= batch * heads * time,
        batch * heads * time <= batch * heads * time * time,
{
    lemma_at2_in_table(b, t, batch, time);
    lemma_at2_in_table(b, h, batch, heads);
    lemma_at2_in_table(at2(b, h, heads), t, batch * heads, time);
    lemma_at3_in_table(b, h, t, batch, heads, time);
    lemma_at2_in_table(at3(b, h, t, heads, time), 0, batch * heads * time, time);
    assert(batch * heads <= batch * heads * time) by (nonlinear_arith)
        requires
            batch * heads >= 0,
            time >= 1,
    ;
    assert(batch * heads * time <= batch * heads * time * time) by (nonlinear_arith)
        requires
            batch * heads * time >= 0,
            time >= 1,
    ;
    assert(0 <= h * hs && h * hs + hs <= heads * hs) by (nonlinear_arith)
        requires
            0 <= h < heads,
            0 <= hs,
    ;
    let r = at2(b, t, time);
    assert(0 <= r * (3 * chan) && r * (3 * chan) + 3 * chan <= batch * time * (3 * chan))
        by (nonlinear_arith)
        requires
            0 <= r < batch * time,
            0 <= chan,
    ;
    assert((b * time) * (3 * chan) + t * (3 * chan) == (b * time + t) * (3 * chan))
        by (nonlinear_arith);
    assert(0 <= (b * time) * (3 * chan)) by (nonlinear_arith)
        requires
            0 <= b * time,
            0 <= chan,
    ;
    lemma_at3_in_table(b, h, t, batch, heads, time);
    lemma_at3_in_table(b, t, h, batch, time, heads);
    let g = at3(b, t, h, time, heads);
    assert(0 <= g * hs && g * hs + hs <= (batch * time * heads) * hs) by (nonlinear_arith)
        requires
            0 <= g < batch * time * heads,
            0 <= hs,
    ;
    assert((batch * time * heads) * hs == (batch * time) * (heads * hs)) by (nonlinear_arith);
    assert(batch * time * heads <= batch * heads * time * time) by (nonlinear_arith)
        requires
            batch >= 1,
            time >= 1,
            heads >= 1,
    ;
    assert(batch * time <= batch * time * heads) by (nonlinear_arith)
        requires
            batch >= 1,
            time >= 1,
            heads >= 1,
    ;
    assert(0 <= b * heads + h) by (nonlinear_arith)
        requires
            0 <= b,
            0 <= h,
            0 <= heads,
    ;
}

/// The runs that the second phase reads from position `t` to the end of the
/// sequence lie inside the tensors.
pub proof fn lemma_tail_offsets(
    b: int,
    t: int,
    h: int,
    batch: int,
    time: int,
    chan: int,
    heads: int,
    hs: int,
)
    requires
        0 <= b < batch,
        0 <= t < time,
        0 <= h < heads,
        0 <= hs,
        chan == heads * hs,
    ensures
        at2(b, t, time) * (3 * chan) + (time - 1 - t) * (3 * chan) + 3 * chan <= batch * time * (3
            * chan),
        at2(b, t, time) * chan + (time - 1 - t) * chan + chan <= batch * time * chan,
        0 <= at2(b, t, time) * chan,
        at3(b, h, t, heads, time) * time + (time - 1 - t) * time + time <= batch * heads * time
            * time,
{
    lemma_head_offsets(b, time - 1, h, batch, time, chan, heads, hs);
    assert(at2(b, t, time) * (3 * chan) + (time - 1 - t) * (3 * chan) == at2(b, time - 1, time)
        * (3 * chan)) by (nonlinear_arith);
    assert(at2(b, t, time) * chan + (time - 1 - t) * chan == at2(b, time - 1, time) * chan)
        by (nonlinear_arith);
    lemma_at2_in_table(b, time - 1, batch, time);
    lemma_at2_in_table(b, t, batch, time);
    assert(at2(b, time - 1, time) * chan + chan <= batch * time * chan) by (nonlinear_arith)
        requires
            0 <= at2(b, time - 1, time) < batch * time,
            0 <= chan,
    ;
    assert(0 <= at2(b, t, time) * chan) by (nonlinear_arith)
        requires
            0 <= at2(b, t, time),
            0 <= chan,
    ;
    assert(at3(b, h, t, heads, time) * time + (time - 1 - t) * time == at3(
        b,
        h,
        time - 1,
        heads,
        time,
    ) * time) by (nonlinear_arith);
}

/// An entry of the fused input lies inside it.
pub proof fn lemma_qkv_in_table(
    b: int,
    t: int,
    part: int,
    h: int,
    i: int,
    batch: int,
    time: int,
    chan: int,
    heads: int,
    hs: int,
)
    requires
        0 <= b < batch,
        0 <= t < time,
        0 <= part < 3,
        0 <= h < heads,
        0 <= i < hs,
        chan == heads * hs,
    ensures
        0 <= h * hs + i < chan,
        0 <= part * chan + h * hs + i < 3 * chan,
        0 <= qkv_at(b, t, part, h, i, time, chan, hs) < batch * time * (3 * chan),
        qkv_at(b, t, part, h, i, time, chan, hs) == at2(b, t, time) * (3 * chan) + part * chan + h
            * hs + i,
{
    assert(0 <= h * hs && h * hs + hs <= heads * hs) by (nonlinear_arith)
        requires
            0 <= h < heads,
            0 <= hs,
    ;
    assert(0 <= part * chan && part * chan + chan <= 3 * chan) by (nonlinear_arith)
        requires
            0 <= part < 3,
            0 <= chan,
    ;
    lemma_at2_in_table(b, t, batch, time);
    lemma_at2_in_table(at2(b, t, time), part * chan + h * hs + i, batch * time, 3 * chan);
}

/// Two entries of the fused input with the same flat position are the same
/// entry.
pub proof fn lemma_qkv_unique(
    b1: int,
    t1: int,
    p1: int,
    h1: int,
    i1: int,
    b2: int,
    t2: int,
    p2: int,
    h2: int,
    i2: int,
    time: int,
    chan: int,
    heads: int,
    hs: int,
)
    requires
        0 <= t1 < time,
        0 <= t2 < time,
        0 <= p1 < 3,
        0 <= p2 < 3,
        0 <= h1 < heads,
        0 <= h2 < heads,
        0 <= i1 < hs,
        0 <= i2 < hs,
        chan == heads * hs,
        qkv_at(b1, t1, p1, h1, i1, time, chan, hs) == qkv_at(b2, t2, p2, h2, i2, time, chan, hs),
    ensures
        b1 == b2,
        t1 == t2,
        p1 == p2,
        h1 == h2,
        i1 == i2,
{
    assert(0 <= h1 * hs && h1 * hs + hs <= heads * hs) by (nonlinear_arith)
        requires
            0 <= h1 < heads,
            0 <= hs,
    ;
    assert(0 <= h2 * hs && h2 * hs + hs <= heads * hs) by (nonlinear_arith)
        requires
            0 <= h2 < heads,
            0 <= hs,
    ;
    assert(0 <= p1 * chan && p1 * chan + chan <= 3 * chan) by (nonlinear_arith)
        requires
            0 <= p1 < 3,
            0 <= chan,
    ;
    assert(0 <= p2 * chan && p2 * chan + chan <= 3 * chan) by (nonlinear_arith)
        requires
            0 <= p2 < 3,
            0 <= chan,
    ;
    lemma_at2_unique(
        at2(b1, t1, time),
        p1 * chan + h1 * hs + i1,
        at2(b2, t2, time),
        p2 * chan + h2 * hs + i2,
        3 * chan,
    );
    lemma_at2_unique(b1, t1, b2, t2, time);
    assert(at2(p1, h1 * hs + i1, chan) == at2(p2, h2 * hs + i2, chan));
    lemma_at2_unique(p1, h1 * hs + i1, p2, h2 * hs + i2, chan);
    assert(at2(h1, i1, hs) == at2(h2, i2, hs));
    lemma_at2_unique(h1, i1, h2, i2, hs);
}

/// Whether head `h2` at position `(b2, t2)` comes before head `h` at position
/// `(b, t)` in the order of `b`, then `t`, then `h`.
pub open spec fn head_before(b2: int, t2: int, h2: int, b: int, t: int, h: int) -> bool {
    b2 < b || (b2 == b && (t2 < t || (t2 == t && h2 < h)))
}

/// The heads before the end of position `t` are the heads before the start of
/// position `t + 1`.
pub proof fn lemma_order_next_position(b: int, t: int, heads: int)
    ensures
        forall|b2: int, t2: int, h2: int|
            0 <= h2 < heads ==> (#[trigger] head_before(b2, t2, h2, b, t, heads) <==> head_before(
                b2,
                t2,
                h2,
                b,
                t + 1,
                0,
            )),
{
}

/// The heads before the end of sequence `b` are the heads before the start of
/// sequence `b + 1`.
pub proof fn lemma_order_next_sequence(b: int, time: int)
    ensures
        forall|b2: int, t2: int, h2: int|
            0 <= t2 < time && 0 <= h2 ==> (#[trigger] head_before(b2, t2, h2, b, time, 0)
                <==> head_before(b2, t2, h2, b + 1, 0, 0)),
{
}

/// The entries of `preatt` that the forward pass never writes are as before:
/// the scores of a position against later positions, and what lies behind the
/// tensor.
pub open spec fn future_scores_kept<S: Scalar>(
    before: Seq<S>,
    after: Seq<S>,
    batch: int,
    time: int,
    heads: int,
) -> bool {
    &&& forall|b: int, h: int, t: int, t2: int|
        0 <= b < batch && 0 <= h < heads && 0 <= t < t2 < time ==> #[trigger] after[att_at(
            b,
            h,
            t,
            t2,
            heads,
            time,
        )] == before[att_at(b, h, t, t2, heads, time)]
    &&& forall|j: int| batch * heads * time * time <= j < before.len() ==> after[j] == before[j]
}

/// One more head done: the scores against later positions are still
/// untouched.
pub proof fn lemma_future_step<S: Scalar>(
    pre0: Seq<S>,
    pre1: Seq<S>,
    pre2: Seq<S>,
    b: int,
    t: int,
    h: int,
    batch: int,
    time: int,
    heads: int,
)
    requires
        0 <= b < batch,
        0 <= t < time,
        0 <= h < heads,
        pre2.len() == pre1.len(),
        pre1.len() == pre0.len(),
        batch * heads * time * time <= pre1.len(),
        future_scores_kept(pre0, pre1, batch, time, heads),
        forall|j: int|
            0 <= j < pre1.len() && !(at3(b, h, t, heads, time) * time <= j <= at3(
                b,
                h,
                t,
                heads,
                time,
            ) * time + t) ==> pre2[j] == pre1[j],
    ensures
        future_scores_kept(pre0, pre2, batch, time, heads),
{
    let rr = at3(b, h, t, heads, time);
    lemma_at3_in_table(b, h, t, batch, heads, time);
    lemma_at2_in_table(rr, 0, batch * heads * time, time);
    assert forall|b2: int, h2: int, t2: int, t3: int|
        0 <= b2 < batch && 0 <= h2 < heads && 0 <= t2 < t3 < time implies #[trigger] pre2[att_at(
        b2,
        h2,
        t2,
        t3,
        heads,
        time,
    )] == pre0[att_at(b2, h2, t2, t3, heads, time)] by {
        let r2 = at3(b2, h2, t2, heads, time);
        let k = att_at(b2, h2, t2, t3, heads, time);
        lemma_at3_in_table(b2, h2, t2, batch, heads, time);
        lemma_at2_in_table(r2, t3, batch * heads * time, time);
        if r2 == rr {
            lemma_at3_unique(b2, h2, t2, b, h, t, heads, time);
        } else if r2 < rr {
            lemma_at2_ordered(r2, rr, time);
        } else {
            lemma_at2_ordered(rr, r2, time);
        }
        assert(pre2[k] == pre1[k]);
    }
}

} // verus!
