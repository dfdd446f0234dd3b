//! The GELU activation in its tanh approximation, and its gradient.
//!
//! `gelu(x) = 0.5 * x * (1 + tanh(k * (x + c * x^3)))` with `k = sqrt(2 / pi)`
//! and `c = 0.044715`.
use crate::scalar::{
    exact_sums, functional, grew_twice, is_add, is_cosh, is_div, is_mul, is_num, is_pi, is_ratio,
    is_sqrt, is_tanh, lemma_added_twice, lemma_ratio_unique, ratio, Scalar,
};
use vstd::prelude::*;

verus! {

/// `k` is the scaling factor `sqrt(2 / pi)`.
pub open spec fn gelu_scale<S: Scalar>(k: S) -> bool {
    exists|two: S, pi: S, q: S| is_num(2, two) && is_pi(pi) && is_div(two, pi, q) && is_sqrt(q, k)
}

/// `r` is the cubic term `((c * x) * x) * x` with `c = 44715 / 1000000`.
pub open spec fn gelu_cube<S: Scalar>(x: S, r: S) -> bool {
    exists|c: S, a: S, b: S|
        is_ratio(44715, 1000000, c) && is_mul(c, x, a) && is_mul(a, x, b) && is_mul(b, x, r)
}

/// `u` is the argument of the hyperbolic functions, `k * (x + cube(x))`.
pub open spec fn gelu_arg<S: Scalar>(k: S, x: S, u: S) -> bool {
    exists|cube: S, s: S| gelu_cube(x, cube) && is_add(x, cube, s) && is_mul(k, s, u)
}

/// `r` is the activation of `x`: `(0.5 * x) * (1 + tanh(u))`.
pub open spec fn gelu_value<S: Scalar>(x: S, r: S) -> bool {
    exists|k: S, u: S, th: S, half: S, hx: S, one: S, g: S|
        gelu_scale(k) && gelu_arg(k, x, u) && is_tanh(u, th) && is_ratio(1, 2, half) && is_mul(
            half,
            x,
            hx,
        ) && is_num(1, one) && is_add(one, th, g) && is_mul(hx, g, r)
}

/// `r` is the squared hyperbolic secant of `u`, `1 / (cosh(u) * cosh(u))`.
pub open spec fn gelu_sech2<S: Scalar>(u: S, r: S) -> bool {
    exists|ch: S, cc: S, one: S|
        is_cosh(u, ch) && is_mul(ch, ch, cc) && is_num(1, one) && is_div(one, cc, r)
}

/// `r` is the inner derivative without its scale, `1 + ((3 * c) * x) * x`.
pub open spec fn gelu_poly<S: Scalar>(x: S, r: S) -> bool {
    exists|three: S, c: S, c3: S, a: S, b: S, one: S|
        is_num(3, three) && is_ratio(44715, 1000000, c) && is_mul(three, c, c3) && is_mul(
            c3,
            x,
            a,
        ) && is_mul(a, x, b) && is_num(1, one) && is_add(one, b, r)
}

/// `g` is the derivative of the activation at `x`:
/// `0.5 * (1 + tanh(u)) + (((x * 0.5) * sech2(u)) * k) * poly(x)`.
pub open spec fn gelu_slope<S: Scalar>(x: S, g: S) -> bool {
    exists|k: S, u: S, th: S, one: S, half: S, s1: S, t1: S, sech: S, xh: S, xs: S, xk: S, poly: S, t2: S|
        gelu_scale(k) && gelu_arg(k, x, u) && is_tanh(u, th) && is_num(1, one) && is_ratio(
            1,
            2,
            half,
        ) && is_add(one, th, s1) && is_mul(half, s1, t1) && gelu_sech2(u, sech) && is_mul(
            x,
            half,
            xh,
        ) && is_mul(xh, sech, xs) && is_mul(xs, k, xk) && gelu_poly(x, poly) && is_mul(
            xk,
            poly,
            t2,
        ) && is_add(t1, t2, g)
}

/// `new` is `old` plus the gradient that flows back through the activation at
/// `x`: `old + slope(x) * dout`.
pub open spec fn gelu_pull<S: Scalar>(x: S, dout: S, old: S, new: S) -> bool {
    exists|g: S, d: S| gelu_slope(x, g) && is_mul(g, dout, d) && is_add(old, d, new)
}

/// What the forward pass leaves in `out`: the activations in the first `n`
/// entries, the rest as before.
pub open spec fn gelu_forward_post<S: Scalar>(
    before: Seq<S>,
    after: Seq<S>,
    inp: Seq<S>,
    n: int,
) -> bool {
    &&& after.len() == before.len()
    &&& forall|i: int| 0 <= i < n ==> gelu_value(inp[i], #[trigger] after[i])
    &&& forall|i: int| n <= i < before.len() ==> after[i] == before[i]
}

/// What the backward pass adds to the input gradient.
pub open spec fn gelu_backward_post<S: Scalar>(
    before: Seq<S>,
    after: Seq<S>,
    inp: Seq<S>,
    dout: Seq<S>,
    n: int,
) -> bool {
    &&& after.len() == before.len()
    &&& forall|i: int| 0 <= i < n ==> gelu_pull(inp[i], dout[i], before[i], #[trigger] after[i])
    &&& forall|i: int| n <= i < before.len() ==> after[i] == before[i]
}

fn scale<S: Scalar>() -> (k: S)
    ensures
        gelu_scale(k),
{
    let two = S::from_usize(2);
    let pi = S::pi();
    two.div(pi).sqrt()
}

fn arg<S: Scalar>(k: S, x: S) -> (u: S)
    ensures
        gelu_arg(k, x, u),
{
    let c: S = ratio(44715, 1000000);
    let cube = c.mul(x).mul(x).mul(x);
    assert(gelu_cube(x, cube));
    k.mul(x.add(cube))
}

/// The activation of one number.
pub fn gelu<S: Scalar>(x: S) -> (r: S)
    ensures
        gelu_value(x, r),
{
    let k: S = scale();
    let u = arg(k, x);
    let th = u.tanh();
    let half: S = ratio(1, 2);
    let one = S::from_usize(1);
    half.mul(x).mul(one.add(th))
}

/// The derivative of the activation at one number.
pub fn gelu_derivative<S: Scalar>(x: S) -> (g: S)
    ensures
        gelu_slope(x, g),
{
    let k: S = scale();
    let u = arg(k, x);
    let th = u.tanh();
    let ch = u.cosh();
    let one = S::from_usize(1);
    let sech = one.div(ch.mul(ch));
    assert(gelu_sech2(u, sech));
    let half: S = ratio(1, 2);
    let t1 = half.mul(one.add(th));
    let c: S = ratio(44715, 1000000);
    let three = S::from_usize(3);
    let poly = one.add(three.mul(c).mul(x).mul(x));
    assert(gelu_poly(x, poly));
    let t2 = x.mul(half).mul(sech).mul(k).mul(poly);
    t1.add(t2)
}

/// Writes the activation of `inp[i]` to `out[i]` for each of the first `n`
/// entries.
pub fn gelu_forward<S: Scalar>(out: &mut [S], inp: &[S], n: usize)
    requires
        n <= old(out).len(),
        n <= inp.len(),
    ensures
        gelu_forward_post(old(out)@, final(out)@, inp@, n as int),
{
    let mut i: usize = 0;
    while i < n
        invariant
            i <= n,
            n <= inp.len(),
            out.len() == old(out).len(),
            n <= out.len(),
            forall|j: int| 0 <= j < i ==> gelu_value(inp[j], #[trigger] out[j]),
            forall|j: int| i <= j < out.len() ==> out[j] == old(out)[j],
        decreases n - i,
    {
        out[i] = gelu(inp[i]);
        i += 1;
    }
}

/// Adds to `dinp[i]` the gradient `slope(inp[i]) * dout[i]` for each of the
/// first `n` entries.
pub fn gelu_backward<S: Scalar>(dinp: &mut [S], inp: &[S], dout: &[S], n: usize)
    requires
        n <= old(dinp).len(),
        n <= inp.len(),
        n <= dout.len(),
    ensures
        gelu_backward_post(old(dinp)@, final(dinp)@, inp@, dout@, n as int),
{
    let mut i: usize = 0;
    while i < n
        invariant
            i <= n,
            n <= inp.len(),
            n <= dout.len(),
            dinp.len() == old(dinp).len(),
            n <= dinp.len(),
            forall|j: int|
                0 <= j < i ==> gelu_pull(inp[j], dout[j], old(dinp)[j], #[trigger] dinp[j]),
            forall|j: int| i <= j < dinp.len() ==> dinp[j] == old(dinp)[j],
        decreases n - i,
    {
        let g = gelu_derivative(inp[i]);
        let d = g.mul(dout[i]);
        dinp[i] = dinp[i].add(d);
        i += 1;
    }
}

/// With an arithmetic that is a function, a number has one activation.
pub proof fn lemma_gelu_value_unique<S: Scalar>(x: S, r1: S, r2: S)
    requires
        functional::<S>(),
        gelu_value(x, r1),
        gelu_value(x, r2),
    ensures
        r1 == r2,
{
    let (k1, u1, th1, half1, hx1, one1, g1) = choose|
        k: S,
        u: S,
        th: S,
        half: S,
        hx: S,
        one: S,
        g: S,
    |
        gelu_scale(k) && gelu_arg(k, x, u) && is_tanh(u, th) && is_ratio(1, 2, half) && is_mul(
            half,
            x,
            hx,
        ) && is_num(1, one) && is_add(one, th, g) && is_mul(hx, g, r1);
    let (k2, u2, th2, half2, hx2, one2, g2) = choose|
        k: S,
        u: S,
        th: S,
        half: S,
        hx: S,
        one: S,
        g: S,
    |
        gelu_scale(k) && gelu_arg(k, x, u) && is_tanh(u, th) && is_ratio(1, 2, half) && is_mul(
            half,
            x,
            hx,
        ) && is_num(1, one) && is_add(one, th, g) && is_mul(hx, g, r2);
    lemma_gelu_scale_unique(k1, k2);
    lemma_gelu_arg_unique(k1, x, u1, u2);
    lemma_ratio_unique(1, 2, half1, half2);
}

/// With an arithmetic that is a function, the scaling factor is one number.
pub proof fn lemma_gelu_scale_unique<S: Scalar>(k1: S, k2: S)
    requires
        functional::<S>(),
        gelu_scale(k1),
        gelu_scale(k2),
    ensures
        k1 == k2,
{
}

/// With an arithmetic that is a function, the argument of the hyperbolic
/// functions is one number.
pub proof fn lemma_gelu_arg_unique<S: Scalar>(k: S, x: S, u1: S, u2: S)
    requires
        functional::<S>(),
        gelu_arg(k, x, u1),
        gelu_arg(k, x, u2),
    ensures
        u1 == u2,
{
    let (c1, s1) = choose|cube: S, s: S| gelu_cube(x, cube) && is_add(x, cube, s) && is_mul(k, s, u1);
    let (c2, s2) = choose|cube: S, s: S| gelu_cube(x, cube) && is_add(x, cube, s) && is_mul(k, s, u2);
    assert(c1 == c2) by {
        let (c, a, b) = choose|c: S, a: S, b: S|
            is_ratio(44715, 1000000, c) && is_mul(c, x, a) && is_mul(a, x, b) && is_mul(b, x, c1);
        let (d, e, f) = choose|c: S, a: S, b: S|
            is_ratio(44715, 1000000, c) && is_mul(c, x, a) && is_mul(a, x, b) && is_mul(b, x, c2);
        lemma_ratio_unique(44715, 1000000, c, d);
    }
}

/// With an arithmetic that is a function, the activation has one derivative
/// at a number.
pub proof fn lemma_gelu_slope_unique<S: Scalar>(x: S, g1: S, g2: S)
    requires
        functional::<S>(),
        gelu_slope(x, g1),
        gelu_slope(x, g2),
    ensures
        g1 == g2,
{
    let (k1, u1, th1, one1, half1, s11, t11, sech1, xh1, xs1, xk1, poly1, t21) = choose|
        k: S,
        u: S,
        th: S,
        one: S,
        half: S,
        s1: S,
        t1: S,
        sech: S,
        xh: S,
        xs: S,
        xk: S,
        poly: S,
        t2: S,
    |
        gelu_scale(k) && gelu_arg(k, x, u) && is_tanh(u, th) && is_num(1, one) && is_ratio(
            1,
            2,
            half,
        ) && is_add(one, th, s1) && is_mul(half, s1, t1) && gelu_sech2(u, sech) && is_mul(
            x,
            half,
            xh,
        ) && is_mul(xh, sech, xs) && is_mul(xs, k, xk) && gelu_poly(x, poly) && is_mul(
            xk,
            poly,
            t2,
        ) && is_add(t1, t2, g1);
    let (k2, u2, th2, one2, half2, s12, t12, sech2, xh2, xs2, xk2, poly2, t22) = choose|
        k: S,
        u: S,
        th: S,
        one: S,
        half: S,
        s1: S,
        t1: S,
        sech: S,
        xh: S,
        xs: S,
        xk: S,
        poly: S,
        t2: S,
    |
        gelu_scale(k) && gelu_arg(k, x, u) && is_tanh(u, th) && is_num(1, one) && is_ratio(
            1,
            2,
            half,
        ) && is_add(one, th, s1) && is_mul(half, s1, t1) && gelu_sech2(u, sech) && is_mul(
            x,
            half,
            xh,
        ) && is_mul(xh, sech, xs) && is_mul(xs, k, xk) && gelu_poly(x, poly) && is_mul(
            xk,
            poly,
            t2,
        ) && is_add(t1, t2, g2);
    lemma_gelu_scale_unique(k1, k2);
    lemma_gelu_arg_unique(k1, x, u1, u2);
    lemma_ratio_unique(1, 2, half1, half2);
    assert(sech1 == sech2);
    assert(poly1 == poly2) by {
        let (a3, ac, ac3, aa, ab, aone) = choose|three: S, c: S, c3: S, a: S, b: S, one: S|
            is_num(3, three) && is_ratio(44715, 1000000, c) && is_mul(three, c, c3) && is_mul(
                c3,
                x,
                a,
            ) && is_mul(a, x, b) && is_num(1, one) && is_add(one, b, poly1);
        let (b3, bc, bc3, ba, bb, bone) = choose|three: S, c: S, c3: S, a: S, b: S, one: S|
            is_num(3, three) && is_ratio(44715, 1000000, c) && is_mul(three, c, c3) && is_mul(
                c3,
                x,
                a,
            ) && is_mul(a, x, b) && is_num(1, one) && is_add(one, b, poly2);
        lemma_ratio_unique(44715, 1000000, ac, bc);
    }
}

/// The forward pass overwrites its output: with an arithmetic that is a
/// function, two runs on the same input leave the same activations, whatever
/// the output buffers held before.
pub proof fn lemma_gelu_forward_determined<S: Scalar>(
    before1: Seq<S>,
    after1: Seq<S>,
    before2: Seq<S>,
    after2: Seq<S>,
    inp: Seq<S>,
    n: int,
)
    requires
        functional::<S>(),
        gelu_forward_post(before1, after1, inp, n),
        gelu_forward_post(before2, after2, inp, n),
    ensures
        forall|i: int| 0 <= i < n ==> #[trigger] after1[i] == after2[i],
{
    assert forall|i: int| 0 <= i < n implies #[trigger] after1[i] == after2[i] by {
        lemma_gelu_value_unique(inp[i], after1[i], after2[i]);
    }
}

/// With an arithmetic that is a function, two runs of the backward pass from
/// the same state end in the same state.
pub proof fn lemma_gelu_backward_determined<S: Scalar>(
    before: Seq<S>,
    after1: Seq<S>,
    after2: Seq<S>,
    inp: Seq<S>,
    dout: Seq<S>,
    n: int,
)
    requires
        functional::<S>(),
        gelu_backward_post(before, after1, inp, dout, n),
        gelu_backward_post(before, after2, inp, dout, n),
    ensures
        after1 =~= after2,
{
    assert forall|i: int| 0 <= i < after1.len() implies after1[i] == after2[i] by {
        if i < n {
            let (g1, d1) = choose|g: S, d: S|
                gelu_slope(inp[i], g) && is_mul(g, dout[i], d) && is_add(before[i], d, after1[i]);
            let (g2, d2) = choose|g: S, d: S|
                gelu_slope(inp[i], g) && is_mul(g, dout[i], d) && is_add(before[i], d, after2[i]);
            lemma_gelu_slope_unique(inp[i], g1, g2);
        }
    }
}

/// The backward pass only adds: with exact additions, two passes with the same
/// inputs add to every entry twice what one pass adds.
pub proof fn lemma_gelu_backward_twice<S: Scalar>(
    before: Seq<S>,
    mid: Seq<S>,
    after: Seq<S>,
    inp: Seq<S>,
    dout: Seq<S>,
    n: int,
)
    requires
        exact_sums::<S>(),
        gelu_backward_post(before, mid, inp, dout, n),
        gelu_backward_post(mid, after, inp, dout, n),
    ensures
        forall|i: int| 0 <= i < n ==> grew_twice(before[i], mid[i], #[trigger] after[i]),
{
    assert forall|i: int| 0 <= i < n implies grew_twice(before[i], mid[i], #[trigger] after[i]) by {
        assert(gelu_pull(inp[i], dout[i], before[i], mid[i]));
        assert(gelu_pull(inp[i], dout[i], mid[i], after[i]));
        let (g1, d1) = choose|g: S, d: S|
            gelu_slope(inp[i], g) && is_mul(g, dout[i], d) && is_add(before[i], d, mid[i]);
        let (g2, d2) = choose|g: S, d: S|
            gelu_slope(inp[i], g) && is_mul(g, dout[i], d) && is_add(mid[i], d, after[i]);
        lemma_gelu_slope_unique(inp[i], g1, g2);
        assert(d1 == d2);
        lemma_added_twice(before[i], d1, mid[i], after[i]);
    }
}

} // verus!
