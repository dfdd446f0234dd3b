//! Running sums over strided runs of a buffer.
//!
//! A rounded sum depends on the order of its additions, so the kernels fix that
//! order: a run is folded from its first entry to its last, each step adding one
//! term to the value accumulated so far.
use crate::scalar::{
    exact_sums, functional, has_sum, is_add, is_mul, lemma_add_then_add, neutral, Scalar,
};
use vstd::prelude::*;

verus! {

/// `r` results from `init` by adding, in order, the `n` entries
/// `x[xo], x[xo + xs], ..., x[xo + (n - 1) * xs]`.
pub open spec fn sum_chain<S: Scalar>(x: Seq<S>, xo: int, xs: int, n: int, init: S, r: S) -> bool
    decreases n,
{
    if n <= 0 {
        r == init
    } else {
        let last = x[xo + (n - 1) * xs];
        exists|p: S| sum_chain(x, xo, xs, n - 1, init, p) && #[trigger] is_add(p, last, r)
    }
}

/// `r` results from `init` by adding, in order, the `n` products
/// `x[xo + k * xs] * y[yo + k * ys]` for `k` from `0` to `n - 1`.
pub open spec fn mac_chain<S: Scalar>(
    x: Seq<S>,
    xo: int,
    xs: int,
    y: Seq<S>,
    yo: int,
    ys: int,
    n: int,
    init: S,
    r: S,
) -> bool
    decreases n,
{
    if n <= 0 {
        r == init
    } else {
        exists|p: S, m: S|
            mac_chain(x, xo, xs, y, yo, ys, n - 1, init, p) && is_mul(
                x[xo + (n - 1) * xs],
                y[yo + (n - 1) * ys],
                m,
            ) && is_add(p, m, r)
    }
}

/// The `k`-th entry of the run of `x` that starts at `xo` with stride `xs`.
pub open spec fn entry<S>(x: Seq<S>, xo: int, xs: int, k: int) -> S {
    x[xo + k * xs]
}

/// A sum over a run is a sum over any other run that holds the same entries.
pub proof fn lemma_sum_chain_moved<S: Scalar>(
    x: Seq<S>,
    xo: int,
    xs: int,
    y: Seq<S>,
    yo: int,
    ys: int,
    n: int,
    init: S,
    r: S,
)
    requires
        sum_chain(x, xo, xs, n, init, r),
        forall|k: int| 0 <= k < n ==> #[trigger] entry(x, xo, xs, k) == entry(y, yo, ys, k),
    ensures
        sum_chain(y, yo, ys, n, init, r),
    decreases n,
{
    if n > 0 {
        let last = x[xo + (n - 1) * xs];
        let p = choose|p: S| sum_chain(x, xo, xs, n - 1, init, p) && #[trigger] is_add(p, last, r);
        lemma_sum_chain_moved(x, xo, xs, y, yo, ys, n - 1, init, p);
        assert(entry(x, xo, xs, n - 1) == entry(y, yo, ys, n - 1));
        assert(is_add(p, y[yo + (n - 1) * ys], r));
    }
}

/// A sum of products over two runs is the same sum over any other two runs
/// that hold the same entries.
pub proof fn lemma_mac_chain_moved<S: Scalar>(
    x: Seq<S>,
    xo: int,
    xs: int,
    y: Seq<S>,
    yo: int,
    ys: int,
    x2: Seq<S>,
    xo2: int,
    xs2: int,
    y2: Seq<S>,
    yo2: int,
    ys2: int,
    n: int,
    init: S,
    r: S,
)
    requires
        mac_chain(x, xo, xs, y, yo, ys, n, init, r),
        forall|k: int| 0 <= k < n ==> #[trigger] entry(x, xo, xs, k) == entry(x2, xo2, xs2, k),
        forall|k: int| 0 <= k < n ==> #[trigger] entry(y, yo, ys, k) == entry(y2, yo2, ys2, k),
    ensures
        mac_chain(x2, xo2, xs2, y2, yo2, ys2, n, init, r),
    decreases n,
{
    if n > 0 {
        let (p, m) = choose|p: S, m: S|
            mac_chain(x, xo, xs, y, yo, ys, n - 1, init, p) && is_mul(
                x[xo + (n - 1) * xs],
                y[yo + (n - 1) * ys],
                m,
            ) && is_add(p, m, r);
        lemma_mac_chain_moved(x, xo, xs, y, yo, ys, x2, xo2, xs2, y2, yo2, ys2, n - 1, init, p);
        assert(entry(x, xo, xs, n - 1) == entry(x2, xo2, xs2, n - 1));
        assert(entry(y, yo, ys, n - 1) == entry(y2, yo2, ys2, n - 1));
        assert(is_mul(x2[xo2 + (n - 1) * xs2], y2[yo2 + (n - 1) * ys2], m));
    }
}

/// The `k`-th entry of a strided run lies at or before its last entry.
pub proof fn lemma_stride_in_run(k: int, n: int, stride: int)
    requires
        0 <= k < n,
        0 <= stride,
    ensures
        0 <= k * stride <= (n - 1) * stride,
{
    assert(0 <= k * stride) by (nonlinear_arith)
        requires
            0 <= k,
            0 <= stride,
    ;
    assert(k * stride <= (n - 1) * stride) by (nonlinear_arith)
        requires
            k <= n - 1,
            0 <= stride,
    ;
}

/// Folds the run of `n` entries of `x` that starts at `xo` with stride `xs`
/// into `init`.
pub fn sum_strided<S: Scalar>(x: &[S], xo: usize, xs: usize, n: usize, init: S) -> (r: S)
    requires
        n > 0 ==> xo + (n - 1) * xs < x.len(),
    ensures
        sum_chain(x@, xo as int, xs as int, n as int, init, r),
{
    let mut acc = init;
    let mut k: usize = 0;
    while k < n
        invariant
            k <= n,
            n > 0 ==> xo + (n - 1) * xs < x.len(),
            sum_chain(x@, xo as int, xs as int, k as int, init, acc),
        decreases n - k,
    {
        proof {
            lemma_stride_in_run(k as int, n as int, xs as int);
        }
        let v = x[xo + k * xs];
        assert(v == x@[xo as int + ((k as int + 1) - 1) * xs as int]);
        acc = acc.add(v);
        k += 1;
    }
    acc
}

/// Folds the products of two strided runs of `n` entries into `init`.
pub fn mac_strided<S: Scalar>(
    x: &[S],
    xo: usize,
    xs: usize,
    y: &[S],
    yo: usize,
    ys: usize,
    n: usize,
    init: S,
) -> (r: S)
    requires
        n > 0 ==> xo + (n - 1) * xs < x.len(),
        n > 0 ==> yo + (n - 1) * ys < y.len(),
    ensures
        mac_chain(x@, xo as int, xs as int, y@, yo as int, ys as int, n as int, init, r),
{
    let mut acc = init;
    let mut k: usize = 0;
    while k < n
        invariant
            k <= n,
            n > 0 ==> xo + (n - 1) * xs < x.len(),
            n > 0 ==> yo + (n - 1) * ys < y.len(),
            mac_chain(x@, xo as int, xs as int, y@, yo as int, ys as int, k as int, init, acc),
        decreases n - k,
    {
        proof {
            lemma_stride_in_run(k as int, n as int, xs as int);
            lemma_stride_in_run(k as int, n as int, ys as int);
        }
        let m = x[xo + k * xs].mul(y[yo + k * ys]);
        acc = acc.add(m);
        k += 1;
    }
    acc
}

/// `r` results from `init` by adding, in order, the `n` scaled products
/// `(x[xo + k * xs] * y[yo + k * ys]) * scale` for `k` from `0` to `n - 1`.
pub open spec fn mac_scaled_chain<S: Scalar>(
    x: Seq<S>,
    xo: int,
    xs: int,
    y: Seq<S>,
    yo: int,
    ys: int,
    scale: S,
    n: int,
    init: S,
    r: S,
) -> bool
    decreases n,
{
    if n <= 0 {
        r == init
    } else {
        exists|p: S, m: S, g: S|
            mac_scaled_chain(x, xo, xs, y, yo, ys, scale, n - 1, init, p) && is_mul(
                x[xo + (n - 1) * xs],
                y[yo + (n - 1) * ys],
                m,
            ) && is_mul(m, scale, g) && is_add(p, g, r)
    }
}

/// Folds the products of two strided runs of `n` entries, each product scaled
/// by `scale`, into `init`.
pub fn mac_scaled_strided<S: Scalar>(
    x: &[S],
    xo: usize,
    xs: usize,
    y: &[S],
    yo: usize,
    ys: usize,
    scale: S,
    n: usize,
    init: S,
) -> (r: S)
    requires
        n > 0 ==> xo + (n - 1) * xs < x.len(),
        n > 0 ==> yo + (n - 1) * ys < y.len(),
    ensures
        mac_scaled_chain(
            x@,
            xo as int,
            xs as int,
            y@,
            yo as int,
            ys as int,
            scale,
            n as int,
            init,
            r,
        ),
{
    let mut acc = init;
    let mut k: usize = 0;
    while k < n
        invariant
            k <= n,
            n > 0 ==> xo + (n - 1) * xs < x.len(),
            n > 0 ==> yo + (n - 1) * ys < y.len(),
            mac_scaled_chain(
                x@,
                xo as int,
                xs as int,
                y@,
                yo as int,
                ys as int,
                scale,
                k as int,
                init,
                acc,
            ),
        decreases n - k,
    {
        proof {
            lemma_stride_in_run(k as int, n as int, xs as int);
            lemma_stride_in_run(k as int, n as int, ys as int);
        }
        let m = x[xo + k * xs].mul(y[yo + k * ys]);
        let g = m.mul(scale);
        acc = acc.add(g);
        k += 1;
    }
    acc
}

/// Folds the products of the runs `x[xo..xo + n]` and `y[yo..yo + n]` into
/// `init`.
pub fn dot<S: Scalar>(x: &[S], xo: usize, y: &[S], yo: usize, n: usize, init: S) -> (r: S)
    requires
        xo + n <= x.len(),
        yo + n <= y.len(),
    ensures
        mac_chain(x@, xo as int, 1, y@, yo as int, 1, n as int, init, r),
{
    let mut acc = init;
    let mut k: usize = 0;
    while k < n
        invariant
            k <= n,
            xo + n <= x.len(),
            yo + n <= y.len(),
            mac_chain(x@, xo as int, 1, y@, yo as int, 1, k as int, init, acc),
        decreases n - k,
    {
        let m = x[xo + k].mul(y[yo + k]);
        acc = acc.add(m);
        k += 1;
    }
    acc
}

/// `new` is `old` plus the product `a * b`.
pub open spec fn is_mul_add<S: Scalar>(old: S, a: S, b: S, new: S) -> bool {
    exists|m: S| is_mul(a, b, m) && is_add(old, m, new)
}

/// Adds the run `x[xo..xo + n]`, each entry multiplied by `d` on its right, to
/// the run `acc[ao..ao + n]`.
pub fn accumulate_scaled<S: Scalar>(
    acc: &mut [S],
    ao: usize,
    x: &[S],
    xo: usize,
    d: S,
    n: usize,
)
    requires
        ao + n <= old(acc).len(),
        xo + n <= x.len(),
    ensures
        final(acc).len() == old(acc).len(),
        forall|j: int|
            ao <= j < ao + n ==> is_mul_add(
                old(acc)[j],
                x[xo + (j - ao)],
                d,
                #[trigger] final(acc)[j],
            ),
        forall|j: int|
            0 <= j < old(acc).len() && !(ao <= j < ao + n) ==> final(acc)[j] == old(acc)[j],
{
    let mut i: usize = 0;
    while i < n
        invariant
            i <= n,
            acc.len() == old(acc).len(),
            ao + n <= acc.len(),
            xo + n <= x.len(),
            forall|j: int|
                ao <= j < ao + i ==> is_mul_add(old(acc)[j], x[xo + (j - ao)], d, #[trigger] acc[j]),
            forall|j: int| 0 <= j < acc.len() && !(ao <= j < ao + i) ==> acc[j] == old(acc)[j],
        decreases n - i,
    {
        let m = x[xo + i].mul(d);
        acc[ao + i] = acc[ao + i].add(m);
        i += 1;
    }
}

/// Adds the run `x[xo..xo + n]`, each entry multiplied by `d` on its left, to
/// the run `acc[ao..ao + n]`.
pub fn accumulate_weighted<S: Scalar>(
    acc: &mut [S],
    ao: usize,
    d: S,
    x: &[S],
    xo: usize,
    n: usize,
)
    requires
        ao + n <= old(acc).len(),
        xo + n <= x.len(),
    ensures
        final(acc).len() == old(acc).len(),
        forall|j: int|
            ao <= j < ao + n ==> is_mul_add(
                old(acc)[j],
                d,
                x[xo + (j - ao)],
                #[trigger] final(acc)[j],
            ),
        forall|j: int|
            0 <= j < old(acc).len() && !(ao <= j < ao + n) ==> final(acc)[j] == old(acc)[j],
{
    let mut i: usize = 0;
    while i < n
        invariant
            i <= n,
            acc.len() == old(acc).len(),
            ao + n <= acc.len(),
            xo + n <= x.len(),
            forall|j: int|
                ao <= j < ao + i ==> is_mul_add(old(acc)[j], d, x[xo + (j - ao)], #[trigger] acc[j]),
            forall|j: int| 0 <= j < acc.len() && !(ao <= j < ao + i) ==> acc[j] == old(acc)[j],
        decreases n - i,
    {
        let m = d.mul(x[xo + i]);
        acc[ao + i] = acc[ao + i].add(m);
        i += 1;
    }
}

/// Adds the run `x[xo..xo + n]` entry by entry to the run `acc[ao..ao + n]`.
pub fn accumulate<S: Scalar>(acc: &mut [S], ao: usize, x: &[S], xo: usize, n: usize)
    requires
        ao + n <= old(acc).len(),
        xo + n <= x.len(),
    ensures
        final(acc).len() == old(acc).len(),
        forall|j: int|
            ao <= j < ao + n ==> is_add(old(acc)[j], x[xo + (j - ao)], #[trigger] final(acc)[j]),
        forall|j: int|
            0 <= j < old(acc).len() && !(ao <= j < ao + n) ==> final(acc)[j] == old(acc)[j],
{
    let mut i: usize = 0;
    while i < n
        invariant
            i <= n,
            acc.len() == old(acc).len(),
            ao + n <= acc.len(),
            xo + n <= x.len(),
            forall|j: int|
                ao <= j < ao + i ==> is_add(old(acc)[j], x[xo + (j - ao)], #[trigger] acc[j]),
            forall|j: int| 0 <= j < acc.len() && !(ao <= j < ao + i) ==> acc[j] == old(acc)[j],
        decreases n - i,
    {
        acc[ao + i] = acc[ao + i].add(x[xo + i]);
        i += 1;
    }
}

/// With an arithmetic that is a function, a sum over a run has one result.
pub proof fn lemma_sum_chain_unique<S: Scalar>(
    x: Seq<S>,
    xo: int,
    xs: int,
    n: int,
    init: S,
    r1: S,
    r2: S,
)
    requires
        functional::<S>(),
        sum_chain(x, xo, xs, n, init, r1),
        sum_chain(x, xo, xs, n, init, r2),
    ensures
        r1 == r2,
    decreases n,
{
    if n > 0 {
        let last = x[xo + (n - 1) * xs];
        let p1 = choose|p: S| sum_chain(x, xo, xs, n - 1, init, p) && #[trigger] is_add(p, last, r1);
        let p2 = choose|p: S| sum_chain(x, xo, xs, n - 1, init, p) && #[trigger] is_add(p, last, r2);
        lemma_sum_chain_unique(x, xo, xs, n - 1, init, p1, p2);
    }
}

/// With an arithmetic that is a function, a sum of products over two runs has
/// one result.
pub proof fn lemma_mac_chain_unique<S: Scalar>(
    x: Seq<S>,
    xo: int,
    xs: int,
    y: Seq<S>,
    yo: int,
    ys: int,
    n: int,
    init: S,
    r1: S,
    r2: S,
)
    requires
        functional::<S>(),
        mac_chain(x, xo, xs, y, yo, ys, n, init, r1),
        mac_chain(x, xo, xs, y, yo, ys, n, init, r2),
    ensures
        r1 == r2,
    decreases n,
{
    if n > 0 {
        let a = x[xo + (n - 1) * xs];
        let b = y[yo + (n - 1) * ys];
        let (p1, m1) = choose|p: S, m: S|
            mac_chain(x, xo, xs, y, yo, ys, n - 1, init, p) && is_mul(a, b, m) && is_add(p, m, r1);
        let (p2, m2) = choose|p: S, m: S|
            mac_chain(x, xo, xs, y, yo, ys, n - 1, init, p) && is_mul(a, b, m) && is_add(p, m, r2);
        lemma_mac_chain_unique(x, xo, xs, y, yo, ys, n - 1, init, p1, p2);
        assert(m1 == m2);
    }
}

/// With an arithmetic that is a function, a sum of scaled products has one
/// result even where the second run is read from two buffers, as long as
/// these hold the same entries.
pub proof fn lemma_mac_scaled_chain_agree<S: Scalar>(
    x: Seq<S>,
    xo: int,
    xs: int,
    y1: Seq<S>,
    y2: Seq<S>,
    yo: int,
    ys: int,
    scale: S,
    n: int,
    init: S,
    r1: S,
    r2: S,
)
    requires
        functional::<S>(),
        mac_scaled_chain(x, xo, xs, y1, yo, ys, scale, n, init, r1),
        mac_scaled_chain(x, xo, xs, y2, yo, ys, scale, n, init, r2),
        forall|k: int| 0 <= k < n ==> #[trigger] entry(y1, yo, ys, k) == entry(y2, yo, ys, k),
    ensures
        r1 == r2,
    decreases n,
{
    if n > 0 {
        let a = x[xo + (n - 1) * xs];
        let b1 = y1[yo + (n - 1) * ys];
        let b2 = y2[yo + (n - 1) * ys];
        let (p1, m1, g1) = choose|p: S, m: S, g: S|
            mac_scaled_chain(x, xo, xs, y1, yo, ys, scale, n - 1, init, p) && is_mul(a, b1, m)
                && is_mul(m, scale, g) && is_add(p, g, r1);
        let (p2, m2, g2) = choose|p: S, m: S, g: S|
            mac_scaled_chain(x, xo, xs, y2, yo, ys, scale, n - 1, init, p) && is_mul(a, b2, m)
                && is_mul(m, scale, g) && is_add(p, g, r2);
        lemma_mac_scaled_chain_agree(x, xo, xs, y1, y2, yo, ys, scale, n - 1, init, p1, p2);
        assert(entry(y1, yo, ys, n - 1) == entry(y2, yo, ys, n - 1));
        assert(m1 == m2);
        assert(g1 == g2);
    }
}

/// A sum over a run adds one number to what it starts from: with exact
/// additions there is a `delta`, the same for every start, such that the
/// result is the start plus `delta`.
pub proof fn lemma_sum_chain_additive<S: Scalar>(x: Seq<S>, xo: int, xs: int, n: int) -> (delta: S)
    requires
        exact_sums::<S>(),
    ensures
        forall|init: S, r: S| #[trigger] sum_chain(x, xo, xs, n, init, r) ==> is_add(init, delta, r),
    decreases n,
{
    if n <= 0 {
        let z = choose|z: S| neutral(z);
        assert forall|init: S, r: S| #[trigger]
            sum_chain(x, xo, xs, n, init, r) implies is_add(init, z, r) by {
            assert(is_add(init, z, init));
        }
        z
    } else {
        let prev = lemma_sum_chain_additive(x, xo, xs, n - 1);
        let last = x[xo + (n - 1) * xs];
        assert(has_sum(prev, last));
        let delta = choose|d: S| is_add(prev, last, d);
        assert forall|init: S, r: S| #[trigger]
            sum_chain(x, xo, xs, n, init, r) implies is_add(init, delta, r) by {
            let p = choose|p: S|
                sum_chain(x, xo, xs, n - 1, init, p) && #[trigger] is_add(p, last, r);
            assert(is_add(init, prev, p));
            let s = lemma_add_then_add(init, prev, p, last, r);
        }
        delta
    }
}

/// A sum of products over two runs adds one number to what it starts from:
/// with exact additions there is a `delta`, the same for every start, such
/// that the result is the start plus `delta`.
pub proof fn lemma_mac_chain_additive<S: Scalar>(
    x: Seq<S>,
    xo: int,
    xs: int,
    y: Seq<S>,
    yo: int,
    ys: int,
    n: int,
) -> (delta: S)
    requires
        exact_sums::<S>(),
    ensures
        forall|init: S, r: S| #[trigger]
            mac_chain(x, xo, xs, y, yo, ys, n, init, r) ==> is_add(init, delta, r),
    decreases n,
{
    if n <= 0 {
        let z = choose|z: S| neutral(z);
        assert forall|init: S, r: S| #[trigger]
            mac_chain(x, xo, xs, y, yo, ys, n, init, r) implies is_add(init, z, r) by {
            assert(is_add(init, z, init));
        }
        z
    } else {
        let prev = lemma_mac_chain_additive(x, xo, xs, y, yo, ys, n - 1);
        let a = x[xo + (n - 1) * xs];
        let b = y[yo + (n - 1) * ys];
        if exists|m: S| is_mul(a, b, m) {
            let term = choose|m: S| is_mul(a, b, m);
            assert(has_sum(prev, term));
            let delta = choose|d: S| is_add(prev, term, d);
            assert forall|init: S, r: S| #[trigger]
                mac_chain(x, xo, xs, y, yo, ys, n, init, r) implies is_add(init, delta, r) by {
                let (p, m) = choose|p: S, m: S|
                    mac_chain(x, xo, xs, y, yo, ys, n - 1, init, p) && is_mul(a, b, m) && is_add(
                        p,
                        m,
                        r,
                    );
                assert(m == term);
                assert(is_add(init, prev, p));
                let s = lemma_add_then_add(init, prev, p, term, r);
            }
            delta
        } else {
            prev
        }
    }
}

/// A sum of scaled products over two runs adds one number to what it starts
/// from: with exact additions there is a `delta`, the same for every start,
/// such that the result is the start plus `delta`.
pub proof fn lemma_mac_scaled_chain_additive<S: Scalar>(
    x: Seq<S>,
    xo: int,
    xs: int,
    y: Seq<S>,
    yo: int,
    ys: int,
    scale: S,
    n: int,
) -> (delta: S)
    requires
        exact_sums::<S>(),
    ensures
        forall|init: S, r: S| #[trigger]
            mac_scaled_chain(x, xo, xs, y, yo, ys, scale, n, init, r) ==> is_add(init, delta, r),
    decreases n,
{
    if n <= 0 {
        let z = choose|z: S| neutral(z);
        assert forall|init: S, r: S| #[trigger]
            mac_scaled_chain(x, xo, xs, y, yo, ys, scale, n, init, r) implies is_add(
            init,
            z,
            r,
        ) by {
            assert(is_add(init, z, init));
        }
        z
    } else {
        let prev = lemma_mac_scaled_chain_additive(x, xo, xs, y, yo, ys, scale, n - 1);
        let a = x[xo + (n - 1) * xs];
        let b = y[yo + (n - 1) * ys];
        if exists|m: S, g: S| is_mul(a, b, m) && is_mul(m, scale, g) {
            let (m0, term) = choose|m: S, g: S| is_mul(a, b, m) && is_mul(m, scale, g);
            assert(has_sum(prev, term));
            let delta = choose|d: S| is_add(prev, term, d);
            assert forall|init: S, r: S| #[trigger]
                mac_scaled_chain(x, xo, xs, y, yo, ys, scale, n, init, r) implies is_add(
                init,
                delta,
                r,
            ) by {
                let (p, m, g) = choose|p: S, m: S, g: S|
                    mac_scaled_chain(x, xo, xs, y, yo, ys, scale, n - 1, init, p) && is_mul(
                        a,
                        b,
                        m,
                    ) && is_mul(m, scale, g) && is_add(p, g, r);
                assert(m == m0);
                assert(g == term);
                assert(is_add(init, prev, p));
                let s = lemma_add_then_add(init, prev, p, term, r);
            }
            delta
        } else {
            prev
        }
    }
}

} // verus!
