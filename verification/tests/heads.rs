use llm_rs::attention::{
    attention_backward, attention_forward, attention_head, attention_head_backward_input,
    attention_head_backward_scores,
};
use llm_rs::scalar::Scalar;
use llm_rs::softmax::{
    crossentropy_forward, crossentropy_softmax_backward, softmax_forward, softmax_one_row,
};

#[derive(Clone, Copy, Debug, PartialEq)]
struct F(f32);

impl Scalar for F {
    fn from_usize(n: usize) -> Self {
        F(n as f32)
    }
    fn pi() -> Self {
        F(std::f32::consts::PI)
    }
    fn neg_infinity() -> Self {
        F(f32::NEG_INFINITY)
    }
    fn add(self, rhs: Self) -> Self {
        F(self.0 + rhs.0)
    }
    fn sub(self, rhs: Self) -> Self {
        F(self.0 - rhs.0)
    }
    fn mul(self, rhs: Self) -> Self {
        F(self.0 * rhs.0)
    }
    fn div(self, rhs: Self) -> Self {
        F(self.0 / rhs.0)
    }
    fn neg(self) -> Self {
        F(-self.0)
    }
    fn sqrt(self) -> Self {
        F(self.0.sqrt())
    }
    fn exp(self) -> Self {
        F(self.0.exp())
    }
    fn ln(self) -> Self {
        F(self.0.ln())
    }
    fn tanh(self) -> Self {
        F(self.0.tanh())
    }
    fn cosh(self) -> Self {
        F(self.0.cosh())
    }
    fn gt(self, rhs: Self) -> bool {
        self.0 > rhs.0
    }
    fn same(self, rhs: Self) -> bool {
        self.0 == rhs.0
    }
}

fn fs(v: &[f32]) -> Vec<F> {
    v.iter().map(|x| F(*x)).collect()
}

fn raw(v: &[F]) -> Vec<f32> {
    v.iter().map(|x| x.0).collect()
}

fn bits(v: &[F]) -> Vec<u32> {
    v.iter().map(|x| x.0.to_bits()).collect()
}

fn noise(n: usize, seed: u32) -> Vec<f32> {
    let mut state = seed.wrapping_mul(2654435761).wrapping_add(12345);
    let mut v = Vec::with_capacity(n);
    for _ in 0..n {
        state = state.wrapping_mul(1664525).wrapping_add(1013904223);
        v.push(((state >> 8) as f32) / 8388608.0 - 1.0);
    }
    v
}

fn close(a: f32, b: f32, tol: f32) -> bool {
    (a - b).abs() <= tol
}

fn to_bits(v: &[f32]) -> Vec<u32> {
    v.iter().map(|x| x.to_bits()).collect()
}

fn attention_forward_by_hand(
    out: &mut [f32],
    preatt: &mut [f32],
    att: &mut [f32],
    inp: &[f32],
    batch: usize,
    time: usize,
    chan: usize,
    heads: usize,
) {
    let c3 = chan * 3;
    let hs = chan / heads;
    let scale = 1.0 / (hs as f32).sqrt();
    for b in 0..batch {
        for t in 0..time {
            for h in 0..heads {
                let q = b * time * c3 + t * c3 + h * hs;
                let row = b * heads * time * time + h * time * time + t * time;
                let mut maxval = f32::NEG_INFINITY;
                for t2 in 0..=t {
                    let k = b * time * c3 + t2 * c3 + h * hs + chan;
                    let mut val = 0.0;
                    for i in 0..hs {
                        val += inp[q + i] * inp[k + i];
                    }
                    val *= scale;
                    if val > maxval {
                        maxval = val;
                    }
                    preatt[row + t2] = val;
                }
                let mut expsum = 0.0;
                for t2 in 0..=t {
                    let expv = (preatt[row + t2] - maxval).exp();
                    expsum += expv;
                    att[row + t2] = expv;
                }
                let expsum_inv = if expsum == 0.0 { 0.0 } else { 1.0 / expsum };
                for t2 in 0..time {
                    if t2 <= t {
                        att[row + t2] *= expsum_inv;
                    } else {
                        att[row + t2] = 0.0;
                    }
                }
                let o = b * time * chan + t * chan + h * hs;
                for i in 0..hs {
                    out[o + i] = 0.0;
                }
                for t2 in 0..=t {
                    let v = b * time * c3 + t2 * c3 + h * hs + 2 * chan;
                    let a = att[row + t2];
                    for i in 0..hs {
                        out[o + i] += a * inp[v + i];
                    }
                }
            }
        }
    }
}

fn attention_backward_by_hand(
    dinp: &mut [f32],
    dpreatt: &mut [f32],
    datt: &mut [f32],
    dout: &[f32],
    inp: &[f32],
    att: &[f32],
    batch: usize,
    time: usize,
    chan: usize,
    heads: usize,
) {
    let c3 = chan * 3;
    let hs = chan / heads;
    let scale = 1.0 / (hs as f32).sqrt();
    for b in 0..batch {
        for t in 0..time {
            for h in 0..heads {
                let row = b * heads * time * time + h * time * time + t * time;
                let q = b * time * c3 + t * c3 + h * hs;
                let o = b * time * chan + t * chan + h * hs;
                for t2 in 0..=t {
                    let v = b * time * c3 + t2 * c3 + h * hs + 2 * chan;
                    for i in 0..hs {
                        datt[row + t2] += inp[v + i] * dout[o + i];
                        dinp[v + i] += att[row + t2] * dout[o + i];
                    }
                }
                for t2 in 0..=t {
                    for t3 in 0..=t {
                        let indicator = if t2 == t3 { 1.0 } else { 0.0 };
                        let local = att[row + t2] * (indicator - att[row + t3]);
                        dpreatt[row + t3] += local * datt[row + t2];
                    }
                }
                for t2 in 0..=t {
                    let k = b * time * c3 + t2 * c3 + h * hs + chan;
                    for i in 0..hs {
                        dinp[q + i] += inp[k + i] * dpreatt[row + t2] * scale;
                        dinp[k + i] += inp[q + i] * dpreatt[row + t2] * scale;
                    }
                }
            }
        }
    }
}

#[test]
fn attention_forward_masks_the_future() {
    let inp = fs(&[1.0, 0.0, 0.5, 0.5, 2.0, 4.0, 0.0, 1.0, 1.0, -1.0, 6.0, 8.0]);
    let mut out = fs(&[9.0; 4]);
    let mut preatt = fs(&[9.0; 4]);
    let mut att = fs(&[9.0; 4]);
    attention_forward(&mut out, &mut preatt, &mut att, &inp, 1, 2, 2, 1);
    assert_eq!(att[0].0, 1.0);
    assert_eq!(att[1].0, 0.0);
    assert_eq!(preatt[1].0, 9.0);
    assert_eq!(raw(&out[0..2]), vec![2.0, 4.0]);
    let scale = 1.0 / 2.0f32.sqrt();
    assert_eq!(preatt[0].0.to_bits(), (0.5f32 * scale).to_bits());
    assert_eq!(preatt[2].0.to_bits(), (0.5f32 * scale).to_bits());
    assert_eq!(preatt[3].0.to_bits(), (-1.0f32 * scale).to_bits());
    assert!(close(att[2].0 + att[3].0, 1.0, 1e-6));
    assert!(att[2].0 > att[3].0);
    assert!(close(att[2].0, 0.742817, 1e-5));
    assert!(close(out[2].0, att[2].0 * 2.0 + att[3].0 * 6.0, 1e-6));
    assert!(close(out[3].0, att[2].0 * 4.0 + att[3].0 * 8.0, 1e-6));
}

#[test]
fn attention_forward_matches_the_loops_bit_for_bit() {
    let batch = 2;
    let time = 5;
    let chan = 6;
    let heads = 3;
    let inp = noise(batch * time * 3 * chan, 81);
    let mut out = fs(&noise(batch * time * chan, 82));
    let mut preatt = fs(&vec![7.0; batch * heads * time * time]);
    let mut att = fs(&vec![7.0; batch * heads * time * time]);
    attention_forward(&mut out, &mut preatt, &mut att, &fs(&inp), batch, time, chan, heads);
    let mut eo = vec![0.0; batch * time * chan];
    let mut ep = vec![7.0; batch * heads * time * time];
    let mut ea = vec![7.0; batch * heads * time * time];
    attention_forward_by_hand(&mut eo, &mut ep, &mut ea, &inp, batch, time, chan, heads);
    assert_eq!(bits(&out), to_bits(&eo));
    assert_eq!(bits(&preatt), to_bits(&ep));
    assert_eq!(bits(&att), to_bits(&ea));
    for b in 0..batch {
        for h in 0..heads {
            for t in 0..time {
                let row = ((b * heads + h) * time + t) * time;
                let sum: f32 = att[row..row + time].iter().map(|v| v.0).sum();
                assert!(close(sum, 1.0, 1e-5));
                for t2 in t + 1..time {
                    assert_eq!(att[row + t2].0, 0.0);
                }
            }
        }
    }
}

#[test]
fn attention_forward_twice_gives_the_same() {
    let inp = fs(&noise(1 * 4 * 3 * 4, 83));
    let mut out1 = fs(&vec![1.0; 16]);
    let mut pre1 = fs(&vec![0.0; 2 * 16]);
    let mut att1 = fs(&vec![1.0; 2 * 16]);
    attention_forward(&mut out1, &mut pre1, &mut att1, &inp, 1, 4, 4, 2);
    let mut out2 = out1.clone();
    let mut pre2 = pre1.clone();
    let mut att2 = att1.clone();
    attention_forward(&mut out2, &mut pre2, &mut att2, &inp, 1, 4, 4, 2);
    assert_eq!(bits(&out1), bits(&out2));
    assert_eq!(bits(&pre1), bits(&pre2));
    assert_eq!(bits(&att1), bits(&att2));
}

#[test]
fn attention_forward_gives_zero_weights_where_the_sum_vanishes() {
    let inp = fs(&[f32::NAN, 1.0, 1.0]);
    let mut out = fs(&[9.0]);
    let mut preatt = fs(&[9.0]);
    let mut att = fs(&[9.0]);
    attention_forward(&mut out, &mut preatt, &mut att, &inp, 1, 1, 1, 1);
    assert!(preatt[0].0.is_nan());
    assert!(att[0].0.is_nan());
    let mut out = fs(&[9.0; 1]);
    let mut preatt = fs(&[9.0; 1]);
    let mut att = fs(&[9.0; 1]);
    attention_head(&mut out, &mut preatt, &mut att, &fs(&[1.0, 1.0, 3.0]), F(f32::NEG_INFINITY), 0, 0, 0, 1, 2, 3, 0, 1, 1);
    assert_eq!(preatt[0].0, f32::NEG_INFINITY);
    assert!(att[0].0.is_nan());
}

#[test]
fn attention_head_computes_one_row_in_place() {
    let batch = 1;
    let time = 3;
    let chan = 4;
    let heads = 2;
    let hs = 2;
    let inp = noise(batch * time * 3 * chan, 84);
    let mut eo = vec![0.0; time * chan];
    let mut ep = vec![0.0; heads * time * time];
    let mut ea = vec![0.0; heads * time * time];
    attention_forward_by_hand(&mut eo, &mut ep, &mut ea, &inp, batch, time, chan, heads);
    let t = 2;
    let h = 1;
    let mut out = fs(&vec![5.0; time * chan]);
    let mut preatt = fs(&vec![5.0; heads * time * time]);
    let mut att = fs(&vec![5.0; heads * time * time]);
    let scale = F(1.0 / (hs as f32).sqrt());
    attention_head(
        &mut out,
        &mut preatt,
        &mut att,
        &fs(&inp),
        scale,
        t * chan + h * hs,
        (h * time + t) * time,
        t * 3 * chan + h * hs,
        chan + h * hs,
        2 * chan + h * hs,
        3 * chan,
        t,
        time,
        hs,
    );
    let row = (h * time + t) * time;
    assert_eq!(bits(&preatt[row..row + time]), to_bits(&ep[row..row + time]));
    assert_eq!(bits(&att[row..row + time]), to_bits(&ea[row..row + time]));
    let o = t * chan + h * hs;
    assert_eq!(bits(&out[o..o + hs]), to_bits(&eo[o..o + hs]));
    assert_eq!(out[0].0, 5.0);
    assert_eq!(att[0].0, 5.0);
}

#[test]
fn attention_backward_matches_the_loops_bit_for_bit() {
    let batch = 2;
    let time = 4;
    let chan = 6;
    let heads = 2;
    let inp = noise(batch * time * 3 * chan, 85);
    let dout = noise(batch * time * chan, 86);
    let mut out = fs(&vec![0.0; batch * time * chan]);
    let mut preatt = fs(&vec![0.0; batch * heads * time * time]);
    let mut att = fs(&vec![0.0; batch * heads * time * time]);
    attention_forward(&mut out, &mut preatt, &mut att, &fs(&inp), batch, time, chan, heads);
    let di0 = noise(batch * time * 3 * chan, 87);
    let dp0 = noise(batch * heads * time * time, 88);
    let da0 = noise(batch * heads * time * time, 89);
    let mut dinp = fs(&di0);
    let mut dpreatt = fs(&dp0);
    let mut datt = fs(&da0);
    attention_backward(
        &mut dinp,
        &mut dpreatt,
        &mut datt,
        &fs(&dout),
        &fs(&inp),
        &att,
        batch,
        time,
        chan,
        heads,
    );
    let mut ei = di0.clone();
    let mut ep = dp0.clone();
    let mut ea = da0.clone();
    attention_backward_by_hand(
        &mut ei, &mut ep, &mut ea, &dout, &inp, &raw(&att), batch, time, chan, heads,
    );
    assert_eq!(bits(&datt), to_bits(&ea));
    assert_eq!(bits(&dpreatt), to_bits(&ep));
    assert_eq!(bits(&dinp), to_bits(&ei));
}

#[test]
fn attention_backward_leaves_the_masked_scores() {
    let batch = 1;
    let time = 3;
    let chan = 2;
    let heads = 1;
    let inp = fs(&noise(time * 3 * chan, 90));
    let dout = fs(&noise(time * chan, 91));
    let mut out = fs(&vec![0.0; time * chan]);
    let mut preatt = fs(&vec![0.0; time * time]);
    let mut att = fs(&vec![0.0; time * time]);
    attention_forward(&mut out, &mut preatt, &mut att, &inp, batch, time, chan, heads);
    let mut dinp = fs(&vec![0.0; time * 3 * chan + 1]);
    let mut dpreatt = fs(&vec![3.0; time * time]);
    let mut datt = fs(&vec![4.0; time * time]);
    attention_backward(&mut dinp, &mut dpreatt, &mut datt, &dout, &inp, &att, batch, time, chan, heads);
    for t in 0..time {
        for t2 in t + 1..time {
            assert_eq!(dpreatt[t * time + t2].0, 3.0);
            assert_eq!(datt[t * time + t2].0, 4.0);
        }
    }
    assert_eq!(dinp[time * 3 * chan].0, 0.0);
}

#[test]
fn attention_backward_kernels_work_head_by_head() {
    let time = 3;
    let chan = 4;
    let heads = 2;
    let hs = 2;
    let inp = noise(time * 3 * chan, 92);
    let dout = noise(time * chan, 93);
    let mut out = fs(&vec![0.0; time * chan]);
    let mut preatt = fs(&vec![0.0; heads * time * time]);
    let mut att = fs(&vec![0.0; heads * time * time]);
    attention_forward(&mut out, &mut preatt, &mut att, &fs(&inp), 1, time, chan, heads);
    let mut dinp = fs(&vec![0.0; time * 3 * chan]);
    let mut dpreatt = fs(&vec![0.0; heads * time * time]);
    let mut datt = fs(&vec![0.0; heads * time * time]);
    attention_backward(&mut dinp, &mut dpreatt, &mut datt, &fs(&dout), &fs(&inp), &att, 1, time, chan, heads);
    let mut dinp2 = fs(&vec![0.0; time * 3 * chan]);
    let mut dpreatt2 = fs(&vec![0.0; heads * time * time]);
    let mut datt2 = fs(&vec![0.0; heads * time * time]);
    let scale = F(1.0 / (hs as f32).sqrt());
    for h in (0..heads).rev() {
        for t in (0..time).rev() {
            attention_head_backward_scores(
                &mut dpreatt2,
                &mut datt2,
                &fs(&dout),
                &fs(&inp),
                &att,
                (h * time + t) * time,
                t * chan + h * hs,
                2 * chan + h * hs,
                3 * chan,
                t,
                time,
                hs,
            );
        }
    }
    for h in (0..heads).rev() {
        for t in (0..time).rev() {
            let qoff = t * 3 * chan + h * hs;
            attention_head_backward_input(
                &mut dinp2,
                &fs(&inp),
                &dpreatt2,
                &att,
                &fs(&dout),
                scale,
                qoff,
                qoff + chan,
                qoff + 2 * chan,
                chan + h * hs,
                t * chan + h * hs,
                (h * time + t) * time,
                3 * chan,
                chan,
                t,
                time,
                hs,
            );
        }
    }
    assert_eq!(bits(&datt), bits(&datt2));
    assert_eq!(bits(&dpreatt), bits(&dpreatt2));
    assert_eq!(bits(&dinp), bits(&dinp2));
}

#[test]
fn attention_backward_agrees_with_central_differences() {
    let time = 3;
    let chan = 4;
    let heads = 2;
    let inp = noise(time * 3 * chan, 94);
    let g = noise(time * chan, 95);
    let forward = |x: &[f32]| -> (Vec<F>, Vec<F>) {
        let mut out = fs(&vec![0.0; time * chan]);
        let mut preatt = fs(&vec![0.0; heads * time * time]);
        let mut att = fs(&vec![0.0; heads * time * time]);
        attention_forward(&mut out, &mut preatt, &mut att, &fs(x), 1, time, chan, heads);
        (out, att)
    };
    let (_, att) = forward(&inp);
    let mut dinp = fs(&vec![0.0; time * 3 * chan]);
    let mut dpreatt = fs(&vec![0.0; heads * time * time]);
    let mut datt = fs(&vec![0.0; heads * time * time]);
    attention_backward(&mut dinp, &mut dpreatt, &mut datt, &fs(&g), &fs(&inp), &att, 1, time, chan, heads);
    let loss = |x: &[f32]| -> f32 { forward(x).0.iter().zip(g.iter()).map(|(o, g)| o.0 * g).sum() };
    let h = 1e-3f32;
    for k in 0..inp.len() {
        let mut up = inp.clone();
        let mut down = inp.clone();
        up[k] += h;
        down[k] -= h;
        let numeric = (loss(&up) - loss(&down)) / (2.0 * h);
        assert!((numeric - dinp[k].0).abs() <= 1e-2 * dinp[k].0.abs().max(1.0));
    }
}

#[test]
fn softmax_forward_rows_sum_to_one_and_padding_is_zero() {
    let batch = 2;
    let time = 3;
    let vocab = 5;
    let padded = 8;
    let logits = noise(batch * time * padded, 101).iter().map(|v| v * 5.0).collect::<Vec<f32>>();
    let mut probs = fs(&vec![9.0; batch * time * padded + 1]);
    softmax_forward(&mut probs, &fs(&logits), batch, time, vocab, padded);
    for r in 0..batch * time {
        let row = &probs[r * padded..(r + 1) * padded];
        let sum: f32 = row[..vocab].iter().map(|v| v.0).sum();
        assert!(close(sum, 1.0, 1e-5));
        for i in vocab..padded {
            assert_eq!(row[i].0.to_bits(), 0.0f32.to_bits());
        }
        let mut maxval = f32::NEG_INFINITY;
        for i in 0..vocab {
            if logits[r * padded + i] > maxval {
                maxval = logits[r * padded + i];
            }
        }
        let mut total = 0.0;
        let mut e = vec![0.0f32; vocab];
        for i in 0..vocab {
            e[i] = (logits[r * padded + i] - maxval).exp();
            total += e[i];
        }
        for i in 0..vocab {
            assert_eq!(row[i].0.to_bits(), (e[i] / total).to_bits());
        }
    }
    assert_eq!(probs[batch * time * padded].0, 9.0);
}

#[test]
fn softmax_forward_small_row() {
    let mut probs = fs(&[9.0; 4]);
    softmax_forward(&mut probs, &fs(&[1.0, 2.0, 3.0, 100.0]), 1, 1, 3, 4);
    assert!(close(probs[0].0, 0.09003, 1e-5));
    assert!(close(probs[1].0, 0.24473, 1e-5));
    assert!(close(probs[2].0, 0.66524, 1e-5));
    assert_eq!(probs[3].0, 0.0);
}

#[test]
fn softmax_forward_of_equal_logits_is_uniform() {
    let mut probs = fs(&[9.0; 4]);
    softmax_forward(&mut probs, &fs(&[2.5; 4]), 1, 1, 4, 4);
    assert_eq!(raw(&probs), vec![0.25; 4]);
    let mut probs = fs(&[9.0; 3]);
    softmax_forward(&mut probs, &fs(&[-7.0; 3]), 1, 1, 3, 3);
    for p in probs {
        assert_eq!(p.0.to_bits(), (1.0f32 / 3.0).to_bits());
    }
}

#[test]
fn softmax_forward_is_stable_for_large_logits() {
    let mut probs = fs(&[9.0; 2]);
    softmax_forward(&mut probs, &fs(&[1000.0, 1000.0]), 1, 1, 2, 2);
    assert_eq!(raw(&probs), vec![0.5, 0.5]);
    let mut probs = fs(&[9.0; 2]);
    softmax_forward(&mut probs, &fs(&[f32::NEG_INFINITY, f32::NEG_INFINITY]), 1, 1, 2, 2);
    assert!(probs[0].0.is_nan());
}

#[test]
fn softmax_one_row_writes_its_row_only() {
    let logits = fs(&[0.0, 0.0, 1.0, 2.0, 3.0, 0.0]);
    let mut probs = fs(&[9.0; 6]);
    softmax_one_row(&mut probs, &logits, 2, 3, 4);
    assert_eq!(probs[0].0, 9.0);
    assert_eq!(probs[1].0, 9.0);
    assert!(close(probs[2].0 + probs[3].0 + probs[4].0, 1.0, 1e-6));
    assert_eq!(probs[5].0, 0.0);
}

#[test]
fn softmax_forward_with_an_empty_vocabulary_only_pads() {
    let mut probs = fs(&[9.0; 2]);
    softmax_forward(&mut probs, &fs(&[1.0, 2.0]), 1, 1, 0, 2);
    assert_eq!(raw(&probs), vec![0.0, 0.0]);
}

#[test]
fn crossentropy_forward_is_the_negative_log_of_the_target() {
    let probs = fs(&[0.25, 0.5, 0.25, 0.0, 0.125, 0.125, 0.75, 0.0]);
    let mut losses = fs(&[9.0; 3]);
    crossentropy_forward(&mut losses, &probs, &[1, 2], 1, 2, 4);
    assert_eq!(losses[0].0.to_bits(), (-(0.5f32.ln())).to_bits());
    assert_eq!(losses[1].0.to_bits(), (-(0.75f32.ln())).to_bits());
    assert!(close(losses[0].0, 0.693147, 1e-6));
    assert_eq!(losses[2].0, 9.0);
}

#[test]
fn crossentropy_forward_does_not_clamp_a_zero_probability() {
    let probs = fs(&[1.0, 0.0]);
    let mut losses = fs(&[9.0]);
    crossentropy_forward(&mut losses, &probs, &[1], 1, 1, 2);
    assert_eq!(losses[0].0, f32::INFINITY);
    crossentropy_forward(&mut losses, &probs, &[0], 1, 1, 2);
    assert_eq!(losses[0].0, 0.0);
}

#[test]
fn crossentropy_softmax_backward_small_row() {
    let mut probs = fs(&[0.0; 4]);
    softmax_forward(&mut probs, &fs(&[1.0, 2.0, 3.0, 0.0]), 1, 1, 3, 4);
    let mut dlogits = fs(&[0.0; 4]);
    crossentropy_softmax_backward(&mut dlogits, &fs(&[1.0]), &probs, &[2], 1, 1, 3, 4);
    assert!(close(dlogits[0].0, 0.09003, 1e-5));
    assert!(close(dlogits[1].0, 0.24473, 1e-5));
    assert!(close(dlogits[2].0, -0.33476, 1e-5));
    assert_eq!(dlogits[3].0, 0.0);
    assert_eq!(dlogits[2].0.to_bits(), ((probs[2].0 - 1.0) * 1.0).to_bits());
}

#[test]
fn crossentropy_softmax_backward_rows_sum_to_zero() {
    let batch = 2;
    let time = 2;
    let vocab = 6;
    let padded = 8;
    let logits = fs(&noise(batch * time * padded, 111));
    let mut probs = fs(&vec![0.0; batch * time * padded]);
    softmax_forward(&mut probs, &logits, batch, time, vocab, padded);
    let mut dlogits = fs(&vec![0.0; batch * time * padded]);
    let dlosses = fs(&[1.0, 0.5, 2.0, 0.25]);
    crossentropy_softmax_backward(&mut dlogits, &dlosses, &probs, &[0, 5, 3, 3], batch, time, vocab, padded);
    for r in 0..batch * time {
        let sum: f32 = dlogits[r * padded..r * padded + vocab].iter().map(|v| v.0).sum();
        assert!(close(sum, 0.0, 1e-5));
        assert_eq!(dlogits[r * padded + 6].0, 0.0);
        assert_eq!(dlogits[r * padded + 7].0, 0.0);
    }
}

#[test]
fn crossentropy_softmax_backward_accumulates_and_skips_the_padding() {
    let probs = fs(&[0.25, 0.75, 0.5, 0.5]);
    let mut dlogits = fs(&[1.0, 1.0, 7.0, 7.0]);
    crossentropy_softmax_backward(&mut dlogits, &fs(&[2.0]), &probs, &[0], 1, 1, 2, 4);
    assert_eq!(raw(&dlogits), vec![-0.5, 2.5, 7.0, 7.0]);
    crossentropy_softmax_backward(&mut dlogits, &fs(&[2.0]), &probs, &[0], 1, 1, 2, 4);
    assert_eq!(raw(&dlogits), vec![-2.0, 4.0, 7.0, 7.0]);
}

#[test]
fn crossentropy_softmax_backward_with_a_target_outside_the_vocabulary() {
    let probs = fs(&[0.25, 0.75, 0.0]);
    let mut dlogits = fs(&[0.0; 3]);
    crossentropy_softmax_backward(&mut dlogits, &fs(&[1.0]), &probs, &[-1], 1, 1, 2, 3);
    assert_eq!(raw(&dlogits), vec![0.25, 0.75, 0.0]);
    let mut dlogits = fs(&[0.0; 3]);
    crossentropy_softmax_backward(&mut dlogits, &fs(&[1.0]), &probs, &[2], 1, 1, 2, 3);
    assert_eq!(raw(&dlogits), vec![0.25, 0.75, 0.0]);
}

#[test]
fn crossentropy_gradient_agrees_with_central_differences() {
    let vocab = 5;
    let logits = noise(vocab, 112);
    let target = [3];
    let loss = |x: &[f32]| -> f32 {
        let mut probs = fs(&vec![0.0; vocab]);
        softmax_forward(&mut probs, &fs(x), 1, 1, vocab, vocab);
        let mut losses = fs(&[0.0]);
        crossentropy_forward(&mut losses, &probs, &target, 1, 1, vocab);
        losses[0].0
    };
    let mut probs = fs(&vec![0.0; vocab]);
    softmax_forward(&mut probs, &fs(&logits), 1, 1, vocab, vocab);
    let mut dlogits = fs(&vec![0.0; vocab]);
    crossentropy_softmax_backward(&mut dlogits, &fs(&[1.0]), &probs, &target, 1, 1, vocab, vocab);
    let h = 1e-3f32;
    for k in 0..vocab {
        let mut up = logits.clone();
        let mut down = logits.clone();
        up[k] += h;
        down[k] -= h;
        let numeric = (loss(&up) - loss(&down)) / (2.0 * h);
        assert!((numeric - dlogits[k].0).abs() <= 1e-2 * dlogits[k].0.abs().max(1.0));
    }
}
