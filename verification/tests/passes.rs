use llm_rs::attention::{attention_backward, attention_forward};
use llm_rs::encoder::{encoder_backward, encoder_forward};
use llm_rs::gelu::{gelu_backward, gelu_forward};
use llm_rs::layernorm::{layernorm_backward, layernorm_forward};
use llm_rs::matmul::{matmul_backward, matmul_forward, matmul_forward_naive};
use llm_rs::scalar::Scalar;
use llm_rs::softmax::{crossentropy_forward, crossentropy_softmax_backward, softmax_forward};

#[derive(Clone, Copy, Debug, PartialEq)]
struct F(f32);

impl Scalar for F {
    fn from_usize(n: usize) -> Self {
        F(n as f32)
    }
    fn pi() -> Self {
        F(std::f32::consts::PI)
    }
    fn neg_infinity() -> Self {
        F(f32::NEG_INFINITY)
    }
    fn add(self, rhs: Self) -> Self {
        F(self.0 + rhs.0)
    }
    fn sub(self, rhs: Self) -> Self {
        F(self.0 - rhs.0)
    }
    fn mul(self, rhs: Self) -> Self {
        F(self.0 * rhs.0)
    }
    fn div(self, rhs: Self) -> Self {
        F(self.0 / rhs.0)
    }
    fn neg(self) -> Self {
        F(-self.0)
    }
    fn sqrt(self) -> Self {
        F(self.0.sqrt())
    }
    fn exp(self) -> Self {
        F(self.0.exp())
    }
    fn ln(self) -> Self {
        F(self.0.ln())
    }
    fn tanh(self) -> Self {
        F(self.0.tanh())
    }
    fn cosh(self) -> Self {
        F(self.0.cosh())
    }
    fn gt(self, rhs: Self) -> bool {
        self.0 > rhs.0
    }
    fn same(self, rhs: Self) -> bool {
        self.0 == rhs.0
    }
}

fn fs(v: &[f32]) -> Vec<F> {
    v.iter().map(|x| F(*x)).collect()
}

fn bits(v: &[F]) -> Vec<u32> {
    v.iter().map(|x| x.0.to_bits()).collect()
}

fn noise(n: usize, seed: u32) -> Vec<f32> {
    let mut state = seed.wrapping_mul(2654435761).wrapping_add(12345);
    let mut v = Vec::with_capacity(n);
    for _ in 0..n {
        state = state.wrapping_mul(1664525).wrapping_add(1013904223);
        v.push(((state >> 8) as f32) / 8388608.0 - 1.0);
    }
    v
}


fn junk(n: usize) -> Vec<F> {
    fs(&vec![f32::NAN; n])
}

#[test]
fn encoder_forward_does_not_read_its_output() {
    let wte = fs(&noise(4 * 3, 201));
    let wpe = fs(&noise(2 * 3, 202));
    let inp = [3, 0, 1, 1];
    let mut a = junk(12);
    let mut b = fs(&noise(12, 203));
    encoder_forward(&mut a, &inp, &wte, &wpe, 2, 2, 3);
    encoder_forward(&mut b, &inp, &wte, &wpe, 2, 2, 3);
    assert_eq!(bits(&a), bits(&b));
    encoder_forward(&mut b, &inp, &wte, &wpe, 2, 2, 3);
    assert_eq!(bits(&a), bits(&b));
}

#[test]
fn gelu_forward_does_not_read_its_output() {
    let x = fs(&noise(10, 204));
    let mut a = junk(10);
    let mut b = fs(&noise(10, 205));
    gelu_forward(&mut a, &x, 10);
    gelu_forward(&mut b, &x, 10);
    assert_eq!(bits(&a), bits(&b));
}

#[test]
fn layernorm_forward_does_not_read_its_outputs() {
    let x = fs(&noise(3 * 5, 206));
    let w = fs(&noise(5, 207));
    let bias = fs(&noise(5, 208));
    let mut out1 = junk(15);
    let mut mean1 = junk(3);
    let mut rstd1 = junk(3);
    let mut out2 = fs(&noise(15, 209));
    let mut mean2 = fs(&noise(3, 210));
    let mut rstd2 = fs(&noise(3, 211));
    layernorm_forward(&mut out1, &mut mean1, &mut rstd1, &x, &w, &bias, 3, 1, 5);
    layernorm_forward(&mut out2, &mut mean2, &mut rstd2, &x, &w, &bias, 3, 1, 5);
    assert_eq!(bits(&out1), bits(&out2));
    assert_eq!(bits(&mean1), bits(&mean2));
    assert_eq!(bits(&rstd1), bits(&rstd2));
}

#[test]
fn matmul_forward_does_not_read_its_output() {
    let x = fs(&noise(16 * 3, 212));
    let w = fs(&noise(4 * 3, 213));
    let bias = fs(&noise(4, 214));
    let mut a = junk(64);
    let mut b = fs(&noise(64, 215));
    let mut c = junk(64);
    matmul_forward(&mut a, &x, &w, Some(&bias), 2, 8, 3, 4);
    matmul_forward(&mut b, &x, &w, Some(&bias), 2, 8, 3, 4);
    matmul_forward_naive(&mut c, &x, &w, Some(&bias), 2, 8, 3, 4);
    assert_eq!(bits(&a), bits(&b));
    assert_eq!(bits(&a), bits(&c));
}

#[test]
fn softmax_forward_does_not_read_its_output() {
    let logits = fs(&noise(2 * 6, 216));
    let mut a = junk(12);
    let mut b = fs(&noise(12, 217));
    softmax_forward(&mut a, &logits, 2, 1, 4, 6);
    softmax_forward(&mut b, &logits, 2, 1, 4, 6);
    assert_eq!(bits(&a), bits(&b));
}

#[test]
fn crossentropy_forward_does_not_read_its_output() {
    let probs = fs(&[0.1, 0.9, 0.5, 0.5]);
    let mut a = junk(2);
    let mut b = fs(&[1.0, 2.0]);
    crossentropy_forward(&mut a, &probs, &[1, 0], 2, 1, 2);
    crossentropy_forward(&mut b, &probs, &[1, 0], 2, 1, 2);
    assert_eq!(bits(&a), bits(&b));
}

#[test]
fn attention_forward_does_not_read_what_it_writes() {
    let inp = fs(&noise(2 * 3 * 3 * 4, 218));
    let mut out1 = junk(2 * 3 * 4);
    let mut pre1 = fs(&vec![0.0; 2 * 2 * 3 * 3]);
    let mut att1 = junk(2 * 2 * 3 * 3);
    let mut out2 = fs(&noise(2 * 3 * 4, 219));
    let mut pre2 = fs(&vec![0.0; 2 * 2 * 3 * 3]);
    let mut att2 = fs(&noise(2 * 2 * 3 * 3, 220));
    attention_forward(&mut out1, &mut pre1, &mut att1, &inp, 2, 3, 4, 2);
    attention_forward(&mut out2, &mut pre2, &mut att2, &inp, 2, 3, 4, 2);
    assert_eq!(bits(&out1), bits(&out2));
    assert_eq!(bits(&pre1), bits(&pre2));
    assert_eq!(bits(&att1), bits(&att2));
}

#[test]
fn backward_passes_from_the_same_state_end_in_the_same_state() {
    let rows = 4;
    let chan = 3;
    let out_chan = 2;
    let dout = fs(&noise(rows * out_chan, 221));
    let inp = fs(&noise(rows * chan, 222));
    let weight = fs(&noise(out_chan * chan, 223));
    let start_i = fs(&noise(rows * chan, 224));
    let start_w = fs(&noise(out_chan * chan, 225));
    let start_b = fs(&noise(out_chan, 226));
    let run = || {
        let mut di = start_i.clone();
        let mut dw = start_w.clone();
        let mut db = start_b.clone();
        matmul_backward(&mut di, &mut dw, Some(&mut db), &dout, &inp, &weight, 2, 2, chan, out_chan);
        (bits(&di), bits(&dw), bits(&db))
    };
    assert_eq!(run(), run());

    let x = fs(&noise(8, 227));
    let g = fs(&noise(8, 228));
    let start = fs(&noise(8, 229));
    let mut a = start.clone();
    let mut b = start.clone();
    gelu_backward(&mut a, &x, &g, 8);
    gelu_backward(&mut b, &x, &g, 8);
    assert_eq!(bits(&a), bits(&b));
}

#[test]
fn backward_passes_on_whole_numbers_add_twice_as_much_when_run_twice() {
    let dout = fs(&[1.0, 2.0, 3.0, 4.0]);
    let mut dwte = fs(&[10.0, 20.0, 30.0, 40.0]);
    let mut dwpe = fs(&[5.0, 6.0, 7.0, 8.0]);
    encoder_backward(&mut dwte, &mut dwpe, &dout, &[1, 1], 1, 2, 2);
    let once_te: Vec<f32> = dwte.iter().map(|v| v.0).collect();
    let once_pe: Vec<f32> = dwpe.iter().map(|v| v.0).collect();
    assert_eq!(once_te, vec![10.0, 20.0, 34.0, 46.0]);
    assert_eq!(once_pe, vec![6.0, 8.0, 10.0, 12.0]);
    encoder_backward(&mut dwte, &mut dwpe, &dout, &[1, 1], 1, 2, 2);
    let twice_te: Vec<f32> = dwte.iter().map(|v| v.0).collect();
    let twice_pe: Vec<f32> = dwpe.iter().map(|v| v.0).collect();
    assert_eq!(twice_te, vec![10.0, 20.0, 38.0, 52.0]);
    assert_eq!(twice_pe, vec![7.0, 10.0, 13.0, 16.0]);
}

#[test]
fn layernorm_backward_twice_doubles_the_delta_within_rounding() {
    let rows = 3;
    let chan = 4;
    let x = fs(&noise(rows * chan, 230));
    let w = fs(&noise(chan, 231));
    let bias = fs(&noise(chan, 232));
    let dout = fs(&noise(rows * chan, 233));
    let mut out = junk(rows * chan);
    let mut mean = junk(rows);
    let mut rstd = junk(rows);
    layernorm_forward(&mut out, &mut mean, &mut rstd, &x, &w, &bias, rows, 1, chan);
    let mut dinp = fs(&vec![0.0; rows * chan]);
    let mut dweight = fs(&vec![0.0; chan]);
    let mut dbias = fs(&vec![0.0; chan]);
    layernorm_backward(&mut dinp, &mut dweight, &mut dbias, &dout, &x, &w, &mean, &rstd, rows, 1, chan);
    let once: Vec<f32> = dinp.iter().chain(dweight.iter()).chain(dbias.iter()).map(|v| v.0).collect();
    layernorm_backward(&mut dinp, &mut dweight, &mut dbias, &dout, &x, &w, &mean, &rstd, rows, 1, chan);
    let twice: Vec<f32> = dinp.iter().chain(dweight.iter()).chain(dbias.iter()).map(|v| v.0).collect();
    for k in 0..once.len() {
        assert!((twice[k] - 2.0 * once[k]).abs() <= 1e-4 * once[k].abs().max(1.0));
    }
}

#[test]
fn attention_backward_doubles_what_it_reads_from_the_inputs_alone() {
    let time = 3;
    let chan = 2;
    let inp = fs(&noise(time * 3 * chan, 234));
    let dout = fs(&noise(time * chan, 235));
    let mut out = junk(time * chan);
    let mut preatt = fs(&vec![0.0; time * time]);
    let mut att = junk(time * time);
    attention_forward(&mut out, &mut preatt, &mut att, &inp, 1, time, chan, 1);
    let mut dinp = fs(&vec![0.0; time * 3 * chan]);
    let mut dpreatt = fs(&vec![0.0; time * time]);
    let mut datt = fs(&vec![0.0; time * time]);
    attention_backward(&mut dinp, &mut dpreatt, &mut datt, &dout, &inp, &att, 1, time, chan, 1);
    let datt_once: Vec<f32> = datt.iter().map(|v| v.0).collect();
    let dinp_once: Vec<f32> = dinp.iter().map(|v| v.0).collect();
    let dpre_once: Vec<f32> = dpreatt.iter().map(|v| v.0).collect();
    attention_backward(&mut dinp, &mut dpreatt, &mut datt, &dout, &inp, &att, 1, time, chan, 1);
    for k in 0..time * time {
        assert!((datt[k].0 - 2.0 * datt_once[k]).abs() <= 1e-5);
    }
    for t in 0..time {
        for i in 0..chan {
            let v = t * 3 * chan + 2 * chan + i;
            assert!((dinp[v].0 - 2.0 * dinp_once[v]).abs() <= 1e-5);
        }
    }
    let drift: f32 = (0..time * time).map(|k| (dpreatt[k].0 - 2.0 * dpre_once[k]).abs()).sum();
    assert!(drift > 1e-4);
}

#[test]
fn crossentropy_softmax_backward_from_the_same_state_is_repeatable() {
    let probs = fs(&[0.2, 0.3, 0.5, 0.0]);
    let start = fs(&[1.0, 2.0, 3.0, 4.0]);
    let mut a = start.clone();
    let mut b = start.clone();
    crossentropy_softmax_backward(&mut a, &fs(&[0.5]), &probs, &[1], 1, 1, 3, 4);
    crossentropy_softmax_backward(&mut b, &fs(&[0.5]), &probs, &[1], 1, 1, 3, 4);
    assert_eq!(bits(&a), bits(&b));
    assert_eq!(a[3].0, 4.0);
}
