use llm_rs::encoder::{encoder_backward, encoder_forward};
use llm_rs::fold::{
    accumulate, accumulate_scaled, accumulate_weighted, dot, mac_scaled_strided, mac_strided,
    sum_strided,
};
use llm_rs::gelu::{gelu, gelu_backward, gelu_derivative, gelu_forward};
use llm_rs::residual::{residual_backward, residual_forward};
use llm_rs::scalar::{ratio, Scalar};

#[derive(Clone, Copy, Debug, PartialEq)]
struct F(f32);

impl Scalar for F {
    fn from_usize(n: usize) -> Self {
        F(n as f32)
    }
    fn pi() -> Self {
        F(std::f32::consts::PI)
    }
    fn neg_infinity() -> Self {
        F(f32::NEG_INFINITY)
    }
    fn add(self, rhs: Self) -> Self {
        F(self.0 + rhs.0)
    }
    fn sub(self, rhs: Self) -> Self {
        F(self.0 - rhs.0)
    }
    fn mul(self, rhs: Self) -> Self {
        F(self.0 * rhs.0)
    }
    fn div(self, rhs: Self) -> Self {
        F(self.0 / rhs.0)
    }
    fn neg(self) -> Self {
        F(-self.0)
    }
    fn sqrt(self) -> Self {
        F(self.0.sqrt())
    }
    fn exp(self) -> Self {
        F(self.0.exp())
    }
    fn ln(self) -> Self {
        F(self.0.ln())
    }
    fn tanh(self) -> Self {
        F(self.0.tanh())
    }
    fn cosh(self) -> Self {
        F(self.0.cosh())
    }
    fn gt(self, rhs: Self) -> bool {
        self.0 > rhs.0
    }
    fn same(self, rhs: Self) -> bool {
        self.0 == rhs.0
    }
}

fn fs(v: &[f32]) -> Vec<F> {
    v.iter().map(|x| F(*x)).collect()
}

fn raw(v: &[F]) -> Vec<f32> {
    v.iter().map(|x| x.0).collect()
}

fn bits(v: &[F]) -> Vec<u32> {
    v.iter().map(|x| x.0.to_bits()).collect()
}

fn noise(n: usize, seed: u32) -> Vec<f32> {
    let mut state = seed.wrapping_mul(2654435761).wrapping_add(12345);
    let mut v = Vec::with_capacity(n);
    for _ in 0..n {
        state = state.wrapping_mul(1664525).wrapping_add(1013904223);
        v.push(((state >> 8) as f32) / 8388608.0 - 1.0);
    }
    v
}

fn close(a: f32, b: f32, tol: f32) -> bool {
    (a - b).abs() <= tol
}

#[test]
fn ratio_rounds_once_to_the_literal() {
    let eps: F = ratio(1, 100000);
    assert_eq!(eps.0.to_bits(), 1e-5f32.to_bits());
    let c: F = ratio(44715, 1000000);
    assert_eq!(c.0.to_bits(), 0.044715f32.to_bits());
    let half: F = ratio(1, 2);
    assert_eq!(half.0, 0.5);
}

#[test]
fn residual_forward_adds_elementwise() {
    let a = fs(&[1.0, 2.0, 3.0]);
    let b = fs(&[10.0, 20.0, 30.0]);
    let mut out = fs(&[7.0, 7.0, 7.0, 7.0]);
    residual_forward(&mut out, &a, &b, 3);
    assert_eq!(raw(&out), vec![11.0, 22.0, 33.0, 7.0]);
}

#[test]
fn residual_forward_overwrites_whatever_was_there() {
    let a = fs(&noise(16, 1));
    let b = fs(&noise(16, 2));
    let mut out1 = fs(&noise(16, 3));
    let mut out2 = fs(&[f32::NAN; 16]);
    residual_forward(&mut out1, &a, &b, 16);
    residual_forward(&mut out2, &a, &b, 16);
    assert_eq!(bits(&out1), bits(&out2));
    residual_forward(&mut out1, &a, &b, 16);
    assert_eq!(bits(&out1), bits(&out2));
}

#[test]
fn residual_forward_of_nothing_changes_nothing() {
    let mut out = fs(&[4.0]);
    residual_forward(&mut out, &[], &[], 0);
    assert_eq!(raw(&out), vec![4.0]);
}

#[test]
fn residual_backward_feeds_both_branches() {
    let dout = fs(&[0.5, -1.0, 2.0]);
    let mut d1 = fs(&[1.0, 1.0, 1.0]);
    let mut d2 = fs(&[1.0, 1.0, 1.0]);
    residual_backward(&mut d1, &mut d2, &dout, 3);
    assert_eq!(raw(&d1), vec![1.5, 0.0, 3.0]);
    assert_eq!(raw(&d1), raw(&d2));
}

#[test]
fn residual_backward_branches_agree_from_zero() {
    let dout = fs(&noise(32, 9));
    let mut d1 = fs(&[0.0; 32]);
    let mut d2 = fs(&[0.0; 32]);
    residual_backward(&mut d1, &mut d2, &dout, 32);
    assert_eq!(bits(&d1), bits(&d2));
    assert_eq!(bits(&d1), bits(&dout));
}

#[test]
fn residual_backward_twice_doubles_the_delta() {
    let dout = fs(&[0.25, -3.0, 8.0]);
    let mut d1 = fs(&[1.0, 2.0, 3.0]);
    let mut d2 = fs(&[0.0, 0.0, 0.0]);
    residual_backward(&mut d1, &mut d2, &dout, 3);
    residual_backward(&mut d1, &mut d2, &dout, 3);
    assert_eq!(raw(&d1), vec![1.5, -4.0, 19.0]);
    assert_eq!(raw(&d2), vec![0.5, -6.0, 16.0]);
}

#[test]
fn residual_backward_leaves_the_tail() {
    let dout = fs(&[1.0, 1.0]);
    let mut d1 = fs(&[0.0, 0.0, 5.0]);
    let mut d2 = fs(&[0.0, 0.0, 6.0]);
    residual_backward(&mut d1, &mut d2, &dout, 2);
    assert_eq!(raw(&d1), vec![1.0, 1.0, 5.0]);
    assert_eq!(raw(&d2), vec![1.0, 1.0, 6.0]);
}

fn gelu_by_hand(x: f32) -> f32 {
    let cube = 0.044715 * x * x * x;
    0.5 * x * (1.0 + ((2.0 / std::f32::consts::PI).sqrt() * (x + cube)).tanh())
}

fn gelu_slope_by_hand(x: f32) -> f32 {
    let k = (2.0 / std::f32::consts::PI).sqrt();
    let cube = 0.044715 * x * x * x;
    let arg = k * (x + cube);
    let th = arg.tanh();
    let ch = arg.cosh();
    let sech = 1.0 / (ch * ch);
    0.5 * (1.0 + th) + x * 0.5 * sech * k * (1.0 + 3.0 * 0.044715 * x * x)
}

#[test]
fn gelu_at_zero_is_zero() {
    let mut out = fs(&[9.0]);
    gelu_forward(&mut out, &fs(&[0.0]), 1);
    assert_eq!(raw(&out), vec![0.0]);
    assert_eq!(gelu(F(0.0)).0, 0.0);
}

#[test]
fn gelu_slope_at_zero_is_one_half() {
    assert_eq!(gelu_derivative(F(0.0)).0, 0.5);
    let mut dinp = fs(&[0.0]);
    gelu_backward(&mut dinp, &fs(&[0.0]), &fs(&[1.0]), 1);
    assert_eq!(raw(&dinp), vec![0.5]);
}

#[test]
fn gelu_forward_matches_the_formula() {
    let x = noise(64, 4).iter().map(|v| v * 4.0).collect::<Vec<f32>>();
    let mut out = fs(&[0.0; 64]);
    gelu_forward(&mut out, &fs(&x), 64);
    for i in 0..64 {
        assert_eq!(out[i].0.to_bits(), gelu_by_hand(x[i]).to_bits());
    }
    assert!(close(gelu(F(1.0)).0, 0.841192, 1e-5));
    assert!(close(gelu(F(-1.0)).0, -0.158808, 1e-5));
}

#[test]
fn gelu_backward_accumulates_the_slope() {
    let x = noise(64, 5).iter().map(|v| v * 4.0).collect::<Vec<f32>>();
    let dout = noise(64, 6);
    let start = noise(64, 7);
    let mut dinp = fs(&start);
    gelu_backward(&mut dinp, &fs(&x), &fs(&dout), 64);
    for i in 0..64 {
        let want = start[i] + gelu_slope_by_hand(x[i]) * dout[i];
        assert_eq!(dinp[i].0.to_bits(), want.to_bits());
    }
}

#[test]
fn gelu_backward_agrees_with_central_differences() {
    let h = 1e-3f32;
    for x in [-2.0f32, -0.7, 0.0, 0.3, 1.5, 3.0] {
        let numeric = (gelu(F(x + h)).0 - gelu(F(x - h)).0) / (2.0 * h);
        let analytic = gelu_derivative(F(x)).0;
        assert!((numeric - analytic).abs() <= 1e-2 * analytic.abs().max(1.0));
    }
}

#[test]
fn encoder_forward_sums_token_and_position() {
    let mut wte = vec![0.0f32; 6 * 3];
    wte[15] = 1.0;
    wte[16] = 2.0;
    wte[17] = 3.0;
    let wpe = fs(&[10.0, 20.0, 30.0, 40.0, 50.0, 60.0]);
    let mut out = fs(&[0.0; 6]);
    encoder_forward(&mut out, &[5, 5], &fs(&wte), &wpe, 1, 2, 3);
    assert_eq!(raw(&out), vec![11.0, 22.0, 33.0, 41.0, 52.0, 63.0]);
}

#[test]
fn encoder_forward_reads_each_sequence_of_the_batch() {
    let wte = fs(&[1.0, 2.0, 3.0, 4.0, 5.0, 6.0]);
    let wpe = fs(&[100.0, 200.0, 300.0, 400.0]);
    let mut out = fs(&[-1.0; 9]);
    encoder_forward(&mut out, &[0, 2, 1, 1], &wte, &wpe, 2, 2, 2);
    assert_eq!(
        raw(&out),
        vec![101.0, 202.0, 305.0, 406.0, 103.0, 204.0, 303.0, 404.0, -1.0]
    );
}

#[test]
fn encoder_backward_gathers_repeated_tokens() {
    let dout = fs(&[1.0, 2.0, 3.0, 10.0, 20.0, 30.0]);
    let mut dwte = fs(&[0.0; 18]);
    let mut dwpe = fs(&[0.5; 6]);
    encoder_backward(&mut dwte, &mut dwpe, &dout, &[5, 5], 1, 2, 3);
    let mut want = vec![0.0f32; 18];
    want[15] = 11.0;
    want[16] = 22.0;
    want[17] = 33.0;
    assert_eq!(raw(&dwte), want);
    assert_eq!(raw(&dwpe), vec![1.5, 2.5, 3.5, 10.5, 20.5, 30.5]);
}

#[test]
fn encoder_backward_adds_in_the_order_of_the_positions() {
    let batch = 3;
    let time = 4;
    let chan = 5;
    let inp: Vec<i32> = vec![0, 1, 1, 2, 2, 2, 0, 1, 1, 1, 1, 0];
    let dout = noise(batch * time * chan, 11);
    let w0 = noise(3 * chan, 12);
    let p0 = noise(time * chan, 13);
    let mut dwte = fs(&w0);
    let mut dwpe = fs(&p0);
    encoder_backward(&mut dwte, &mut dwpe, &fs(&dout), &inp, batch, time, chan);
    let mut ew = w0.clone();
    let mut ep = p0.clone();
    for b in 0..batch {
        for t in 0..time {
            let ix = inp[b * time + t] as usize;
            for i in 0..chan {
                let d = dout[(b * time + t) * chan + i];
                ew[ix * chan + i] += d;
                ep[t * chan + i] += d;
            }
        }
    }
    assert_eq!(bits(&dwte), ew.iter().map(|x| x.to_bits()).collect::<Vec<u32>>());
    assert_eq!(bits(&dwpe), ep.iter().map(|x| x.to_bits()).collect::<Vec<u32>>());
}

#[test]
fn encoder_backward_without_channels_changes_nothing() {
    let mut dwte = fs(&[1.0, 2.0]);
    let mut dwpe = fs(&[3.0]);
    encoder_backward(&mut dwte, &mut dwpe, &[], &[0, 0], 1, 2, 0);
    assert_eq!(raw(&dwte), vec![1.0, 2.0]);
    assert_eq!(raw(&dwpe), vec![3.0]);
}

#[test]
fn sums_run_from_the_first_entry_to_the_last() {
    let x = fs(&[1.0, 100.0, 2.0, 100.0, 4.0, 100.0]);
    assert_eq!(sum_strided(&x, 0, 2, 3, F(0.5)).0, 7.5);
    assert_eq!(sum_strided(&x, 1, 2, 3, F(0.0)).0, 300.0);
    assert_eq!(sum_strided(&x, 5, 7, 1, F(1.0)).0, 101.0);
    assert_eq!(sum_strided(&x, 9, 9, 0, F(3.0)).0, 3.0);
    let big = fs(&[1.0e8, 1.0, -1.0e8]);
    assert_eq!(sum_strided(&big, 0, 1, 3, F(0.0)).0, (1.0e8f32 + 1.0) - 1.0e8);
}

#[test]
fn products_are_added_in_order() {
    let x = fs(&[1.0, 2.0, 3.0, 4.0]);
    let y = fs(&[10.0, 20.0, 30.0, 40.0]);
    assert_eq!(dot(&x, 0, &y, 0, 4, F(1.0)).0, 301.0);
    assert_eq!(dot(&x, 1, &y, 2, 2, F(0.0)).0, 180.0);
    assert_eq!(mac_strided(&x, 0, 2, &y, 1, 2, 2, F(0.0)).0, 140.0);
    assert_eq!(mac_scaled_strided(&x, 0, 2, &y, 1, 2, F(0.5), 2, F(1.0)).0, 71.0);
    assert_eq!(dot(&x, 4, &y, 4, 0, F(9.0)).0, 9.0);
}

#[test]
fn runs_are_added_into_runs() {
    let x = fs(&[1.0, 2.0, 3.0]);
    let mut acc = fs(&[10.0, 20.0, 30.0, 40.0]);
    accumulate(&mut acc, 1, &x, 0, 3);
    assert_eq!(raw(&acc), vec![10.0, 21.0, 32.0, 43.0]);
    accumulate_scaled(&mut acc, 0, &x, 1, F(10.0), 2);
    assert_eq!(raw(&acc), vec![30.0, 51.0, 32.0, 43.0]);
    accumulate_weighted(&mut acc, 2, F(-1.0), &x, 0, 2);
    assert_eq!(raw(&acc), vec![30.0, 51.0, 31.0, 41.0]);
}
