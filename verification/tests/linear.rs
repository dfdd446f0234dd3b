use llm_rs::layernorm::{layernorm_backward, layernorm_forward, row_mean, row_rstd};
use llm_rs::matmul::{
    matmul_backward, matmul_backward_channel, matmul_backward_input, matmul_forward,
    matmul_forward_naive, LOOP_UNROLL,
};
use llm_rs::scalar::Scalar;

#[derive(Clone, Copy, Debug, PartialEq)]
struct F(f32);

impl Scalar for F {
    fn from_usize(n: usize) -> Self {
        F(n as f32)
    }
    fn pi() -> Self {
        F(std::f32::consts::PI)
    }
    fn neg_infinity() -> Self {
        F(f32::NEG_INFINITY)
    }
    fn add(self, rhs: Self) -> Self {
        F(self.0 + rhs.0)
    }
    fn sub(self, rhs: Self) -> Self {
        F(self.0 - rhs.0)
    }
    fn mul(self, rhs: Self) -> Self {
        F(self.0 * rhs.0)
    }
    fn div(self, rhs: Self) -> Self {
        F(self.0 / rhs.0)
    }
    fn neg(self) -> Self {
        F(-self.0)
    }
    fn sqrt(self) -> Self {
        F(self.0.sqrt())
    }
    fn exp(self) -> Self {
        F(self.0.exp())
    }
    fn ln(self) -> Self {
        F(self.0.ln())
    }
    fn tanh(self) -> Self {
        F(self.0.tanh())
    }
    fn cosh(self) -> Self {
        F(self.0.cosh())
    }
    fn gt(self, rhs: Self) -> bool {
        self.0 > rhs.0
    }
    fn same(self, rhs: Self) -> bool {
        self.0 == rhs.0
    }
}

fn fs(v: &[f32]) -> Vec<F> {
    v.iter().map(|x| F(*x)).collect()
}

fn raw(v: &[F]) -> Vec<f32> {
    v.iter().map(|x| x.0).collect()
}

fn bits(v: &[F]) -> Vec<u32> {
    v.iter().map(|x| x.0.to_bits()).collect()
}

fn noise(n: usize, seed: u32) -> Vec<f32> {
    let mut state = seed.wrapping_mul(2654435761).wrapping_add(12345);
    let mut v = Vec::with_capacity(n);
    for _ in 0..n {
        state = state.wrapping_mul(1664525).wrapping_add(1013904223);
        v.push(((state >> 8) as f32) / 8388608.0 - 1.0);
    }
    v
}

fn close(a: f32, b: f32, tol: f32) -> bool {
    (a - b).abs() <= tol
}

fn to_bits(v: &[f32]) -> Vec<u32> {
    v.iter().map(|x| x.to_bits()).collect()
}

fn matmul_by_hand(
    inp: &[f32],
    weight: &[f32],
    bias: Option<&[f32]>,
    rows: usize,
    chan: usize,
    out_chan: usize,
) -> Vec<f32> {
    let mut out = vec![0.0f32; rows * out_chan];
    for r in 0..rows {
        for o in 0..out_chan {
            let mut val = match bias {
                Some(b) => b[o],
                None => 0.0,
            };
            for i in 0..chan {
                val += inp[r * chan + i] * weight[o * chan + i];
            }
            out[r * out_chan + o] = val;
        }
    }
    out
}

#[test]
fn matmul_forward_small_projection() {
    let inp = fs(&[1.0, 2.0]);
    let weight = fs(&[1.0, 0.0, 0.0, 1.0, 1.0, 1.0]);
    let bias = fs(&[0.0, 0.0, 0.0]);
    let mut out = fs(&[9.0; 3]);
    matmul_forward(&mut out, &inp, &weight, Some(&bias), 1, 1, 2, 3);
    assert_eq!(raw(&out), vec![1.0, 2.0, 3.0]);
    let mut naive = fs(&[9.0; 3]);
    matmul_forward_naive(&mut naive, &inp, &weight, Some(&bias), 1, 1, 2, 3);
    assert_eq!(raw(&naive), vec![1.0, 2.0, 3.0]);
}

#[test]
fn matmul_forward_blocked_rows_match_the_naive_rows_bit_for_bit() {
    assert_eq!(LOOP_UNROLL, 8);
    let inp = fs(&[1.0, 2.0].repeat(8));
    let weight = fs(&[1.0, 0.0, 0.0, 1.0, 1.0, 1.0]);
    let bias = fs(&[0.0, 0.0, 0.0]);
    let mut out = fs(&[9.0; 24]);
    matmul_forward(&mut out, &inp, &weight, Some(&bias), 4, 2, 2, 3);
    assert_eq!(raw(&out), [1.0f32, 2.0, 3.0].repeat(8));

    let batch = 2;
    let time = 8;
    let chan = 7;
    let out_chan = 5;
    let x = noise(batch * time * chan, 21);
    let w = noise(out_chan * chan, 22);
    let b = noise(out_chan, 23);
    let mut blocked = fs(&vec![0.0; batch * time * out_chan]);
    let mut naive = fs(&vec![1.0; batch * time * out_chan]);
    matmul_forward(&mut blocked, &fs(&x), &fs(&w), Some(&fs(&b)), batch, time, chan, out_chan);
    matmul_forward_naive(&mut naive, &fs(&x), &fs(&w), Some(&fs(&b)), batch, time, chan, out_chan);
    assert_eq!(bits(&blocked), bits(&naive));
    let want = matmul_by_hand(&x, &w, Some(&b), batch * time, chan, out_chan);
    assert_eq!(bits(&blocked), to_bits(&want));
}

#[test]
fn matmul_forward_falls_back_on_other_row_counts() {
    let batch = 3;
    let time = 3;
    let chan = 4;
    let out_chan = 6;
    let x = noise(batch * time * chan, 24);
    let w = noise(out_chan * chan, 25);
    let b = noise(out_chan, 26);
    let mut out = fs(&vec![0.0; batch * time * out_chan + 2]);
    matmul_forward(&mut out, &fs(&x), &fs(&w), Some(&fs(&b)), batch, time, chan, out_chan);
    let want = matmul_by_hand(&x, &w, Some(&b), batch * time, chan, out_chan);
    assert_eq!(bits(&out[..want.len()]), to_bits(&want));
    assert_eq!(raw(&out[want.len()..]), vec![0.0, 0.0]);
}

#[test]
fn matmul_forward_without_bias_starts_from_zero() {
    let x = noise(8 * 3, 27);
    let w = noise(2 * 3, 28);
    let mut blocked = fs(&vec![5.0; 16]);
    let mut naive = fs(&vec![6.0; 16]);
    matmul_forward(&mut blocked, &fs(&x), &fs(&w), None, 1, 8, 3, 2);
    matmul_forward_naive(&mut naive, &fs(&x), &fs(&w), None, 1, 8, 3, 2);
    let want = matmul_by_hand(&x, &w, None, 8, 3, 2);
    assert_eq!(bits(&blocked), to_bits(&want));
    assert_eq!(bits(&naive), to_bits(&want));
}

#[test]
fn matmul_forward_with_no_output_channel_writes_nothing() {
    let mut out = fs(&[3.0]);
    matmul_forward(&mut out, &fs(&[1.0, 2.0]), &[], None, 1, 1, 2, 0);
    assert_eq!(raw(&out), vec![3.0]);
}

fn matmul_backward_by_hand(
    dinp: &mut [f32],
    dweight: &mut [f32],
    dbias: Option<&mut [f32]>,
    dout: &[f32],
    inp: &[f32],
    weight: &[f32],
    rows: usize,
    chan: usize,
    out_chan: usize,
) {
    for r in 0..rows {
        for o in 0..out_chan {
            let d = dout[r * out_chan + o];
            for i in 0..chan {
                dinp[r * chan + i] += weight[o * chan + i] * d;
            }
        }
    }
    let mut db = dbias;
    for o in 0..out_chan {
        for r in 0..rows {
            let d = dout[r * out_chan + o];
            if let Some(db) = db.as_deref_mut() {
                db[o] += d;
            }
            for i in 0..chan {
                dweight[o * chan + i] += inp[r * chan + i] * d;
            }
        }
    }
}

#[test]
fn matmul_backward_adds_all_three_gradients() {
    let batch = 2;
    let time = 3;
    let chan = 4;
    let out_chan = 5;
    let rows = batch * time;
    let dout = noise(rows * out_chan, 31);
    let inp = noise(rows * chan, 32);
    let weight = noise(out_chan * chan, 33);
    let di0 = noise(rows * chan, 34);
    let dw0 = noise(out_chan * chan, 35);
    let db0 = noise(out_chan, 36);
    let mut dinp = fs(&di0);
    let mut dweight = fs(&dw0);
    let mut dbias = fs(&db0);
    matmul_backward(
        &mut dinp,
        &mut dweight,
        Some(&mut dbias),
        &fs(&dout),
        &fs(&inp),
        &fs(&weight),
        batch,
        time,
        chan,
        out_chan,
    );
    let mut ei = di0.clone();
    let mut ew = dw0.clone();
    let mut eb = db0.clone();
    matmul_backward_by_hand(&mut ei, &mut ew, Some(&mut eb), &dout, &inp, &weight, rows, chan, out_chan);
    assert_eq!(bits(&dinp), to_bits(&ei));
    assert_eq!(bits(&dweight), to_bits(&ew));
    assert_eq!(bits(&dbias), to_bits(&eb));
}

#[test]
fn matmul_backward_small_exact_values() {
    let inp = fs(&[1.0, 2.0]);
    let weight = fs(&[1.0, 0.0, 0.0, 1.0, 1.0, 1.0]);
    let dout = fs(&[1.0, 10.0, 100.0]);
    let mut dinp = fs(&[0.0, 0.0]);
    let mut dweight = fs(&[0.0; 6]);
    let mut dbias = fs(&[0.0; 3]);
    matmul_backward(&mut dinp, &mut dweight, Some(&mut dbias), &dout, &inp, &weight, 1, 1, 2, 3);
    assert_eq!(raw(&dinp), vec![101.0, 110.0]);
    assert_eq!(raw(&dweight), vec![1.0, 2.0, 10.0, 20.0, 100.0, 200.0]);
    assert_eq!(raw(&dbias), vec![1.0, 10.0, 100.0]);
    matmul_backward(&mut dinp, &mut dweight, Some(&mut dbias), &dout, &inp, &weight, 1, 1, 2, 3);
    assert_eq!(raw(&dinp), vec![202.0, 220.0]);
    assert_eq!(raw(&dweight), vec![2.0, 4.0, 20.0, 40.0, 200.0, 400.0]);
    assert_eq!(raw(&dbias), vec![2.0, 20.0, 200.0]);
}

#[test]
fn matmul_backward_without_bias_gradient() {
    let rows = 4;
    let chan = 3;
    let out_chan = 2;
    let dout = noise(rows * out_chan, 37);
    let inp = noise(rows * chan, 38);
    let weight = noise(out_chan * chan, 39);
    let mut dinp = fs(&vec![0.0; rows * chan]);
    let mut dweight = fs(&vec![0.0; out_chan * chan]);
    matmul_backward(&mut dinp, &mut dweight, None, &fs(&dout), &fs(&inp), &fs(&weight), 2, 2, chan, out_chan);
    let mut ei = vec![0.0; rows * chan];
    let mut ew = vec![0.0; out_chan * chan];
    matmul_backward_by_hand(&mut ei, &mut ew, None, &dout, &inp, &weight, rows, chan, out_chan);
    assert_eq!(bits(&dinp), to_bits(&ei));
    assert_eq!(bits(&dweight), to_bits(&ew));
}

#[test]
fn matmul_backward_phases_can_run_row_by_row_and_channel_by_channel() {
    let rows = 5;
    let chan = 3;
    let out_chan = 4;
    let dout = noise(rows * out_chan, 41);
    let inp = noise(rows * chan, 42);
    let weight = noise(out_chan * chan, 43);
    let mut dinp = fs(&vec![0.0; rows * chan]);
    let mut dweight = fs(&vec![0.0; out_chan * chan]);
    matmul_backward(&mut dinp, &mut dweight, None, &fs(&dout), &fs(&inp), &fs(&weight), 1, rows, chan, out_chan);
    let mut dinp2 = fs(&vec![0.0; rows * chan]);
    for r in 0..rows {
        matmul_backward_input(
            &mut dinp2[r * chan..(r + 1) * chan],
            &fs(&dout[r * out_chan..(r + 1) * out_chan]),
            &fs(&weight),
            1,
            chan,
            out_chan,
        );
    }
    assert_eq!(bits(&dinp), bits(&dinp2));
    let mut dweight2 = fs(&vec![0.0; out_chan * chan]);
    for o in (0..out_chan).rev() {
        matmul_backward_channel(
            &mut dweight2[o * chan..(o + 1) * chan],
            0,
            &fs(&dout),
            &fs(&inp),
            o,
            rows,
            chan,
            out_chan,
        );
    }
    assert_eq!(bits(&dweight), bits(&dweight2));
}

#[test]
fn matmul_backward_agrees_with_central_differences() {
    let rows = 2;
    let chan = 3;
    let out_chan = 2;
    let inp = noise(rows * chan, 44);
    let weight = noise(out_chan * chan, 45);
    let g = noise(rows * out_chan, 46);
    let mut dinp = fs(&vec![0.0; rows * chan]);
    let mut dweight = fs(&vec![0.0; out_chan * chan]);
    matmul_backward(&mut dinp, &mut dweight, None, &fs(&g), &fs(&inp), &fs(&weight), 1, rows, chan, out_chan);
    let loss = |x: &[f32]| -> f32 {
        let mut out = fs(&vec![0.0; rows * out_chan]);
        matmul_forward(&mut out, &fs(x), &fs(&weight), None, 1, rows, chan, out_chan);
        out.iter().zip(g.iter()).map(|(o, g)| o.0 * g).sum()
    };
    let h = 1e-3f32;
    for k in 0..inp.len() {
        let mut up = inp.clone();
        let mut down = inp.clone();
        up[k] += h;
        down[k] -= h;
        let numeric = (loss(&up) - loss(&down)) / (2.0 * h);
        assert!((numeric - dinp[k].0).abs() <= 1e-2 * dinp[k].0.abs().max(1.0));
    }
}

#[test]
fn layernorm_forward_small_row() {
    let x = fs(&[1.0, 2.0, 3.0, 4.0]);
    let weight = fs(&[1.0; 4]);
    let bias = fs(&[0.0; 4]);
    let mut out = fs(&[0.0; 4]);
    let mut mean = fs(&[0.0]);
    let mut rstd = fs(&[0.0]);
    layernorm_forward(&mut out, &mut mean, &mut rstd, &x, &weight, &bias, 1, 1, 4);
    assert_eq!(mean[0].0, 2.5);
    assert!(close(rstd[0].0, 0.8944, 1e-4));
    let want = [-1.3416f32, -0.4472, 0.4472, 1.3416];
    for i in 0..4 {
        assert!(close(out[i].0, want[i], 1e-4));
    }
    let v = 1.25f32;
    assert_eq!(rstd[0].0.to_bits(), (1.0 / (v + 1e-5f32).sqrt()).to_bits());
}

#[test]
fn layernorm_forward_rows_have_zero_mean_and_unit_variance() {
    let rows = 6;
    let chan = 32;
    let x = noise(rows * chan, 51).iter().map(|v| v * 3.0 + 1.0).collect::<Vec<f32>>();
    let weight = fs(&vec![1.0; chan]);
    let bias = fs(&vec![0.0; chan]);
    let mut out = fs(&vec![0.0; rows * chan]);
    let mut mean = fs(&vec![0.0; rows]);
    let mut rstd = fs(&vec![0.0; rows]);
    layernorm_forward(&mut out, &mut mean, &mut rstd, &fs(&x), &weight, &bias, 2, 3, chan);
    for r in 0..rows {
        let row = &out[r * chan..(r + 1) * chan];
        let m: f32 = row.iter().map(|v| v.0).sum::<f32>() / chan as f32;
        let var: f32 = row.iter().map(|v| (v.0 - m) * (v.0 - m)).sum::<f32>() / chan as f32;
        assert!(close(m, 0.0, 1e-4));
        assert!(close(var, 1.0, 1e-4));
        assert_eq!(mean[r].0.to_bits(), row_mean(&fs(&x), r * chan, chan).0.to_bits());
        assert_eq!(
            rstd[r].0.to_bits(),
            row_rstd(&fs(&x), r * chan, chan, mean[r]).0.to_bits()
        );
    }
}

#[test]
fn layernorm_forward_tolerates_a_constant_row() {
    let x = fs(&[3.0; 4]);
    let weight = fs(&[2.0; 4]);
    let bias = fs(&[1.0; 4]);
    let mut out = fs(&[0.0; 4]);
    let mut mean = fs(&[0.0]);
    let mut rstd = fs(&[0.0]);
    layernorm_forward(&mut out, &mut mean, &mut rstd, &x, &weight, &bias, 1, 1, 4);
    assert_eq!(mean[0].0, 3.0);
    assert_eq!(rstd[0].0.to_bits(), (1.0 / (0.0f32 + 1e-5f32).sqrt()).to_bits());
    assert_eq!(raw(&out), vec![1.0; 4]);
}

#[test]
fn layernorm_forward_applies_weight_and_bias() {
    let x = fs(&[1.0, 2.0, 3.0, 4.0]);
    let weight = fs(&[2.0, 2.0, 2.0, 2.0]);
    let bias = fs(&[1.0, 1.0, 1.0, 1.0]);
    let mut out = fs(&[0.0; 4]);
    let mut mean = fs(&[0.0]);
    let mut rstd = fs(&[0.0]);
    layernorm_forward(&mut out, &mut mean, &mut rstd, &x, &weight, &bias, 1, 1, 4);
    let want = [-1.6833f32, 0.1056, 1.8944, 3.6833];
    for i in 0..4 {
        assert!(close(out[i].0, want[i], 1e-3));
    }
}

fn layernorm_backward_by_hand(
    dinp: &mut [f32],
    dweight: &mut [f32],
    dbias: &mut [f32],
    dout: &[f32],
    inp: &[f32],
    weight: &[f32],
    mean: &[f32],
    rstd: &[f32],
    rows: usize,
    chan: usize,
) {
    for r in 0..rows {
        let base = r * chan;
        let mean_bt = mean[r];
        let rstd_bt = rstd[r];
        let mut dnorm_mean: f32 = 0.0;
        let mut dnorm_norm_mean: f32 = 0.0;
        for i in 0..chan {
            let norm_bti = (inp[base + i] - mean_bt) * rstd_bt;
            let dnorm_i = weight[i] * dout[base + i];
            dnorm_mean += dnorm_i;
            dnorm_norm_mean += dnorm_i * norm_bti;
        }
        dnorm_mean /= chan as f32;
        dnorm_norm_mean /= chan as f32;
        for i in 0..chan {
            let norm_bti = (inp[base + i] - mean_bt) * rstd_bt;
            let dnorm_i = weight[i] * dout[base + i];
            dbias[i] += dout[base + i];
            dweight[i] += norm_bti * dout[base + i];
            let mut dval: f32 = 0.0;
            dval += dnorm_i;
            dval -= dnorm_mean;
            dval -= norm_bti * dnorm_norm_mean;
            dval *= rstd_bt;
            dinp[base + i] += dval;
        }
    }
}

#[test]
fn layernorm_backward_adds_all_three_gradients() {
    let batch = 2;
    let time = 3;
    let chan = 8;
    let rows = batch * time;
    let x = noise(rows * chan, 61);
    let weight = noise(chan, 62);
    let bias = noise(chan, 63);
    let dout = noise(rows * chan, 64);
    let mut out = fs(&vec![0.0; rows * chan]);
    let mut mean = fs(&vec![0.0; rows]);
    let mut rstd = fs(&vec![0.0; rows]);
    layernorm_forward(&mut out, &mut mean, &mut rstd, &fs(&x), &fs(&weight), &fs(&bias), batch, time, chan);
    let di0 = noise(rows * chan, 65);
    let dw0 = noise(chan, 66);
    let db0 = noise(chan, 67);
    let mut dinp = fs(&di0);
    let mut dweight = fs(&dw0);
    let mut dbias = fs(&db0);
    layernorm_backward(
        &mut dinp,
        &mut dweight,
        &mut dbias,
        &fs(&dout),
        &fs(&x),
        &fs(&weight),
        &mean,
        &rstd,
        batch,
        time,
        chan,
    );
    let mut ei = di0.clone();
    let mut ew = dw0.clone();
    let mut eb = db0.clone();
    layernorm_backward_by_hand(
        &mut ei, &mut ew, &mut eb, &dout, &x, &weight, &raw(&mean), &raw(&rstd), rows, chan,
    );
    assert_eq!(bits(&dinp), to_bits(&ei));
    assert_eq!(bits(&dweight), to_bits(&ew));
    assert_eq!(bits(&dbias), to_bits(&eb));
}

#[test]
fn layernorm_backward_bias_gradient_is_the_column_sum() {
    let dout = fs(&[1.0, 2.0, 10.0, 20.0, 100.0, 200.0]);
    let x = fs(&[1.0, 3.0, 2.0, 6.0, -1.0, 1.0]);
    let weight = fs(&[1.0, 1.0]);
    let bias = fs(&[0.0, 0.0]);
    let mut out = fs(&[0.0; 6]);
    let mut mean = fs(&[0.0; 3]);
    let mut rstd = fs(&[0.0; 3]);
    layernorm_forward(&mut out, &mut mean, &mut rstd, &x, &weight, &bias, 3, 1, 2);
    let mut dinp = fs(&[0.0; 6]);
    let mut dweight = fs(&[0.0; 2]);
    let mut dbias = fs(&[0.0; 2]);
    layernorm_backward(&mut dinp, &mut dweight, &mut dbias, &dout, &x, &weight, &mean, &rstd, 3, 1, 2);
    assert_eq!(raw(&dbias), vec![111.0, 222.0]);
}

#[test]
fn layernorm_backward_agrees_with_central_differences() {
    let chan = 6;
    let x = noise(chan, 68);
    let weight = noise(chan, 69);
    let bias = noise(chan, 70);
    let g = noise(chan, 71);
    let forward = |x: &[f32]| -> (Vec<F>, Vec<F>, Vec<F>) {
        let mut out = fs(&vec![0.0; chan]);
        let mut mean = fs(&[0.0]);
        let mut rstd = fs(&[0.0]);
        layernorm_forward(&mut out, &mut mean, &mut rstd, &fs(x), &fs(&weight), &fs(&bias), 1, 1, chan);
        (out, mean, rstd)
    };
    let (_, mean, rstd) = forward(&x);
    let mut dinp = fs(&vec![0.0; chan]);
    let mut dweight = fs(&vec![0.0; chan]);
    let mut dbias = fs(&vec![0.0; chan]);
    layernorm_backward(
        &mut dinp, &mut dweight, &mut dbias, &fs(&g), &fs(&x), &fs(&weight), &mean, &rstd, 1, 1, chan,
    );
    let loss = |x: &[f32]| -> f32 { forward(x).0.iter().zip(g.iter()).map(|(o, g)| o.0 * g).sum() };
    let h = 1e-3f32;
    for k in 0..chan {
        let mut up = x.clone();
        let mut down = x.clone();
        up[k] += h;
        down[k] -= h;
        let numeric = (loss(&up) - loss(&down)) / (2.0 * h);
        assert!((numeric - dinp[k].0).abs() <= 1e-2 * dinp[k].0.abs().max(1.0));
    }
}
