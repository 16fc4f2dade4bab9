use shrew_core::backend::{
    Backend, BackendDevice, BackendStorage, BinaryOp, CmpOp, ReduceOp, UnaryOp,
};
use shrew_core::scalar::{Real, Scalar};
use shrew_core::graph::build_topo;
use shrew_core::rules::{expand_grad_for_reduce, reduce_broadcast_grad};
use shrew_core::{
    checkpoint, checkpoint_sequential, is_checkpointing, with_checkpoint_mode, CheckpointMode, DType,
    Error, GradStore, Layout, Result, Shape, Tensor,
};
use std::sync::atomic::AtomicU64;

#[derive(Clone, Copy, Debug, PartialEq, PartialOrd)]
struct Num(f64);

impl Scalar for Num {
    fn zero_val() -> Self {
        Num(0.0)
    }
    fn one_val() -> Self {
        Num(1.0)
    }
    fn plus(self, rhs: Self) -> Self {
        Num(self.0 + rhs.0)
    }
    fn minus(self, rhs: Self) -> Self {
        Num(self.0 - rhs.0)
    }
    fn times(self, rhs: Self) -> Self {
        Num(self.0 * rhs.0)
    }
    fn over(self, rhs: Self) -> Self {
        Num(self.0 / rhs.0)
    }
    fn below(self, rhs: Self) -> bool {
        self.0 < rhs.0
    }
    fn same(self, rhs: Self) -> bool {
        self.0 == rhs.0
    }
    fn of_count(n: usize) -> Self {
        Num(n as f64)
    }
    fn as_count(self) -> usize {
        self.0 as usize
    }
    fn bottom() -> Self {
        Num(f64::NEG_INFINITY)
    }
    fn top() -> Self {
        Num(f64::INFINITY)
    }
    fn zero() -> Self {
        Self::zero_val()
    }
    fn one() -> Self {
        Self::one_val()
    }
    fn add(self, rhs: Self) -> Self {
        self.plus(rhs)
    }
    fn sub(self, rhs: Self) -> Self {
        self.minus(rhs)
    }
    fn mul(self, rhs: Self) -> Self {
        self.times(rhs)
    }
    fn div(self, rhs: Self) -> Self {
        self.over(rhs)
    }
    fn lt(self, rhs: Self) -> bool {
        self.below(rhs)
    }
    fn eq(self, rhs: Self) -> bool {
        self.same(rhs)
    }
    fn from_usize(n: usize) -> Self {
        Self::of_count(n)
    }
    fn to_usize(self) -> usize {
        self.as_count()
    }
    fn lowest() -> Self {
        Self::bottom()
    }
    fn highest() -> Self {
        Self::top()
    }
}

impl Real for Num {
    fn sqrt(self) -> Self {
        Num(self.0.sqrt())
    }
    fn tanh(self) -> Self {
        Num(self.0.tanh())
    }
    fn two_over_pi() -> Self {
        Num(std::f64::consts::FRAC_2_PI)
    }
    fn to_text(self) -> String {
        format!("{:?}", self.0)
    }
    fn to_record_text(self) -> String {
        format!("{}", self.0)
    }
}

/// A device: a sound one, one that cannot store values, and one that reads
/// back one value too few.
#[derive(Clone, Debug, PartialEq)]
enum Dev {
    Sound,
    Broken,
    Short,
}

impl BackendDevice for Dev {
    fn name(&self) -> String {
        "cpu".to_string()
    }
    fn describe(&self) -> String {
        format!("{:?}", self)
    }
}

#[derive(Clone, Debug)]
struct Buf {
    data: Vec<f64>,
    dtype: DType,
    short: bool,
}

impl BackendStorage for Buf {
    fn dtype(&self) -> DType {
        self.dtype
    }
    fn len(&self) -> usize {
        self.data.len()
    }
}

#[derive(Clone, Debug)]
struct Cpu;

type Ten = Tensor<Cpu>;

fn read(s: &Buf, l: &Layout) -> Vec<f64> {
    l.strided_indices().collect().into_iter().map(|i| s.data[i]).collect()
}

fn made(data: Vec<f64>, like: &Buf) -> Result<Buf> {
    Ok(Buf { data, dtype: like.dtype, short: like.short })
}

fn unravel(k: usize, dims: &[usize]) -> Vec<usize> {
    let mut rest = k;
    let mut out = vec![0; dims.len()];
    for i in (0..dims.len()).rev() {
        out[i] = rest % dims[i];
        rest /= dims[i];
    }
    out
}

fn ravel(index: &[usize], dims: &[usize]) -> usize {
    let mut k = 0;
    for i in 0..dims.len() {
        k = k * dims[i] + index[i];
    }
    k
}

fn count(dims: &[usize]) -> usize {
    dims.iter().product()
}

/// The element that broadcasting repeats at an index.
fn repeated(vals: &[f64], dims: &[usize], index: &[usize]) -> f64 {
    let lead = index.len() - dims.len();
    let own: Vec<usize> =
        (0..dims.len()).map(|i| if dims[i] == 1 { 0 } else { index[lead + i] }).collect();
    vals[ravel(&own, dims)]
}

fn zip_with(
    lhs: &Buf,
    ll: &Layout,
    rhs: &Buf,
    rl: &Layout,
    f: &dyn Fn(f64, f64) -> f64,
) -> Result<Vec<f64>> {
    let out = Shape::broadcast_shape(ll.shape(), rl.shape())?;
    let (a, b) = (read(lhs, ll), read(rhs, rl));
    Ok((0..count(out.dims()))
        .map(|k| {
            let i = unravel(k, out.dims());
            f(repeated(&a, ll.dims(), &i), repeated(&b, rl.dims(), &i))
        })
        .collect())
}

fn sigmoid(x: f64) -> f64 {
    1.0 / (1.0 + (-x).exp())
}

fn gelu(x: f64) -> f64 {
    let s = std::f64::consts::FRAC_2_PI.sqrt() * (x + 0.044715 * x * x * x);
    0.5 * x * (1.0 + s.tanh())
}

impl Backend for Cpu {
    type Device = Dev;
    type Storage = Buf;
    type Scalar = Num;

    fn id_counter() -> &'static AtomicU64 {
        static NEXT: AtomicU64 = AtomicU64::new(1);
        &NEXT
    }

    fn zeros(shape: &Shape, dtype: DType, device: &Dev) -> Result<Buf> {
        Self::full(shape, Num(0.0), dtype, device)
    }

    fn ones(shape: &Shape, dtype: DType, device: &Dev) -> Result<Buf> {
        Self::full(shape, Num(1.0), dtype, device)
    }

    fn full(shape: &Shape, val: Num, dtype: DType, device: &Dev) -> Result<Buf> {
        Self::from_f64_slice(&vec![val; shape.elem_count()], dtype, device)
    }

    fn from_f64_slice(data: &[Num], dtype: DType, device: &Dev) -> Result<Buf> {
        if *device == Dev::Broken {
            return Err(Error::Msg("device is broken".to_string()));
        }
        let data = data
            .iter()
            .map(|n| match dtype {
                DType::U8 => n.0 as u8 as f64,
                DType::U32 => n.0 as u32 as f64,
                DType::I64 => n.0 as i64 as f64,
                _ => n.0,
            })
            .collect();
        Ok(Buf { data, dtype, short: *device == Dev::Short })
    }

    fn rand_uniform(shape: &Shape, dtype: DType, device: &Dev) -> Result<Buf> {
        let mut x: u64 = 7;
        let data: Vec<Num> = (0..shape.elem_count())
            .map(|_| {
                x = x.wrapping_mul(6364136223846793005).wrapping_add(1442695040888963407);
                Num((x >> 11) as f64 / (1u64 << 53) as f64)
            })
            .collect();
        Self::from_f64_slice(&data, dtype, device)
    }

    fn rand_normal(shape: &Shape, dtype: DType, device: &Dev) -> Result<Buf> {
        let mut b = Self::rand_uniform(shape, dtype, device)?;
        for v in b.data.iter_mut() {
            *v = 2.0 * *v - 1.0;
        }
        Ok(b)
    }

    fn binary_op(op: BinaryOp, lhs: &Buf, ll: &Layout, rhs: &Buf, rl: &Layout) -> Result<Buf> {
        let out = zip_with(lhs, ll, rhs, rl, &|a, b| match op {
            BinaryOp::Add => a + b,
            BinaryOp::Sub => a - b,
            BinaryOp::Mul => a * b,
            BinaryOp::Div => a / b,
        })?;
        made(out, lhs)
    }

    fn unary_op(op: UnaryOp, input: &Buf, layout: &Layout) -> Result<Buf> {
        let f = |x: f64| match op {
            UnaryOp::Neg => -x,
            UnaryOp::Abs => x.abs(),
            UnaryOp::Exp => x.exp(),
            UnaryOp::Log => x.ln(),
            UnaryOp::Sqrt => x.sqrt(),
            UnaryOp::Relu => x.max(0.0),
            UnaryOp::Sigmoid => sigmoid(x),
            UnaryOp::Tanh => x.tanh(),
            UnaryOp::Gelu => gelu(x),
            UnaryOp::Silu => x * sigmoid(x),
            UnaryOp::Sin => x.sin(),
            UnaryOp::Cos => x.cos(),
            UnaryOp::Square => x * x,
            UnaryOp::Floor => x.floor(),
            UnaryOp::Ceil => x.ceil(),
            UnaryOp::Round => x.round(),
        };
        made(read(input, layout).into_iter().map(f).collect(), input)
    }

    fn reduce_op(
        op: ReduceOp,
        input: &Buf,
        layout: &Layout,
        dims: &[usize],
        _keep_dim: bool,
    ) -> Result<Buf> {
        let vals = read(input, layout);
        let own = layout.dims();
        let gone: Vec<bool> =
            (0..own.len()).map(|i| dims.is_empty() || dims.contains(&i)).collect();
        let kept: Vec<usize> =
            (0..own.len()).filter(|&i| !gone[i]).map(|i| own[i]).collect();
        let mut groups: Vec<Vec<f64>> = vec![Vec::new(); count(&kept)];
        for (k, &v) in vals.iter().enumerate() {
            let i = unravel(k, own);
            let o: Vec<usize> = (0..own.len()).filter(|&d| !gone[d]).map(|d| i[d]).collect();
            groups[ravel(&o, &kept)].push(v);
        }
        let best = |g: &Vec<f64>, largest: bool| {
            let mut at = 0;
            for i in 1..g.len() {
                if (largest && g[i] > g[at]) || (!largest && g[i] < g[at]) {
                    at = i;
                }
            }
            at
        };
        let out: Vec<f64> = groups
            .iter()
            .map(|g| match op {
                ReduceOp::Sum => g.iter().sum(),
                ReduceOp::Mean => g.iter().sum::<f64>() / g.len() as f64,
                ReduceOp::Max => g[best(g, true)],
                ReduceOp::Min => g[best(g, false)],
                ReduceOp::ArgMax => best(g, true) as f64,
                ReduceOp::ArgMin => best(g, false) as f64,
            })
            .collect();
        made(out, input)
    }

    fn matmul(lhs: &Buf, ll: &Layout, rhs: &Buf, rl: &Layout) -> Result<Buf> {
        let (a, b) = (read(lhs, ll), read(rhs, rl));
        let (da, db) = (ll.dims(), rl.dims());
        let (m, k, n) = (da[da.len() - 2], da[da.len() - 1], db[db.len() - 1]);
        let batch = count(&da[..da.len() - 2]);
        let mut out = Vec::new();
        for s in 0..batch {
            for i in 0..m {
                for j in 0..n {
                    let mut sum = 0.0;
                    for p in 0..k {
                        sum += a[(s * m + i) * k + p] * b[(s * k + p) * n + j];
                    }
                    out.push(sum);
                }
            }
        }
        made(out, lhs)
    }

    fn to_contiguous(input: &Buf, layout: &Layout) -> Result<Buf> {
        made(read(input, layout), input)
    }

    fn to_f64_vec(input: &Buf, layout: &Layout) -> Result<Vec<Num>> {
        let mut v: Vec<Num> = read(input, layout).into_iter().map(Num).collect();
        if input.short {
            v.pop();
        }
        Ok(v)
    }

    fn cmp_op(op: CmpOp, lhs: &Buf, ll: &Layout, rhs: &Buf, rl: &Layout) -> Result<Buf> {
        let out = zip_with(lhs, ll, rhs, rl, &|a, b| {
            let yes = match op {
                CmpOp::Eq => a == b,
                CmpOp::Ne => a != b,
                CmpOp::Gt => a > b,
                CmpOp::Ge => a >= b,
                CmpOp::Lt => a < b,
                CmpOp::Le => a <= b,
            };
            if yes {
                1.0
            } else {
                0.0
            }
        })?;
        Ok(Buf { data: out, dtype: DType::U8, short: false })
    }

    fn affine(input: &Buf, layout: &Layout, mul: Num, add: Num) -> Result<Buf> {
        made(read(input, layout).into_iter().map(|x| x * mul.0 + add.0).collect(), input)
    }

    fn index_select(
        input: &Buf,
        il: &Layout,
        indices: &Buf,
        xl: &Layout,
        dim: usize,
    ) -> Result<Buf> {
        let (vals, picks) = (read(input, il), read(indices, xl));
        let mut dims = il.dims().to_vec();
        dims[dim] = picks.len();
        let out = (0..count(&dims))
            .map(|k| {
                let mut i = unravel(k, &dims);
                i[dim] = picks[i[dim]] as usize;
                vals[ravel(&i, il.dims())]
            })
            .collect();
        made(out, input)
    }

    fn powf(input: &Buf, layout: &Layout, exponent: Num) -> Result<Buf> {
        made(read(input, layout).into_iter().map(|x| x.powf(exponent.0)).collect(), input)
    }

    fn clamp(input: &Buf, layout: &Layout, min: Num, max: Num) -> Result<Buf> {
        made(read(input, layout).into_iter().map(|x| x.clamp(min.0, max.0)).collect(), input)
    }

    fn where_cond(
        mask: &Buf,
        ml: &Layout,
        on_true: &Buf,
        tl: &Layout,
        on_false: &Buf,
        fl: &Layout,
    ) -> Result<Buf> {
        let (m, a, b) = (read(mask, ml), read(on_true, tl), read(on_false, fl));
        let out = (0..a.len()).map(|i| if m[i] != 0.0 { a[i] } else { b[i] }).collect();
        made(out, on_true)
    }

    fn gather(input: &Buf, il: &Layout, index: &Buf, xl: &Layout, dim: usize) -> Result<Buf> {
        let (vals, picks) = (read(input, il), read(index, xl));
        let out = (0..picks.len())
            .map(|k| {
                let mut i = unravel(k, xl.dims());
                i[dim] = picks[k] as usize;
                vals[ravel(&i, il.dims())]
            })
            .collect();
        made(out, input)
    }

    fn cat(inputs: &[(&Buf, &Layout)], out_shape: &Shape, dim: usize) -> Result<Buf> {
        let dims = out_shape.dims();
        let parts: Vec<Vec<f64>> = inputs.iter().map(|(s, l)| read(s, l)).collect();
        let out = (0..count(dims))
            .map(|k| {
                let mut i = unravel(k, dims);
                let mut p = 0;
                while i[dim] >= inputs[p].1.dims()[dim] {
                    i[dim] -= inputs[p].1.dims()[dim];
                    p += 1;
                }
                parts[p][ravel(&i, inputs[p].1.dims())]
            })
            .collect();
        made(out, inputs[0].0)
    }
}

fn nums(v: &[f64]) -> Vec<Num> {
    v.iter().map(|&x| Num(x)).collect()
}

fn tensor(v: &[f64], dims: &[usize]) -> Ten {
    Ten::from_f64_slice(&nums(v), Shape::new(dims.to_vec()), DType::F64, &Dev::Sound).unwrap()
}

fn var(v: &[f64], dims: &[usize]) -> Ten {
    tensor(v, dims).set_variable()
}

fn vals(t: &Ten) -> Vec<f64> {
    t.to_f64_vec().unwrap().iter().map(|n| n.0).collect()
}

fn close(a: &[f64], b: &[f64]) {
    assert_eq!(a.len(), b.len(), "{:?} and {:?}", a, b);
    for i in 0..a.len() {
        assert!((a[i] - b[i]).abs() < 1e-4, "{:?} and {:?}", a, b);
    }
}

fn fails<A>(r: Result<A>) -> Error {
    match r {
        Ok(_) => panic!("expected an error"),
        Err(e) => e,
    }
}

fn text<A>(r: Result<A>) -> String {
    fails(r).to_string()
}

fn ramp(n: usize) -> Vec<f64> {
    (0..n).map(|i| 0.35 * i as f64 - 0.8).collect()
}

#[test]
fn creation_fills_the_shape() {
    let d = Dev::Sound;
    let z = Ten::zeros((2, 3), DType::F32, &d).unwrap();
    assert_eq!(vals(&z), vec![0.0; 6]);
    assert_eq!(z.dims(), &[2, 3]);
    assert_eq!(z.rank(), 2);
    assert_eq!(z.elem_count(), 6);
    assert_eq!(z.dtype(), DType::F32);
    assert!(z.is_contiguous());
    assert!(!z.is_variable());
    assert_eq!(vals(&Ten::ones(3, DType::F64, &d).unwrap()), vec![1.0; 3]);
    assert_eq!(vals(&Ten::full(2, Num(4.5), DType::F64, &d).unwrap()), vec![4.5; 2]);
    assert_eq!(Ten::rand((2, 2), DType::F64, &d).unwrap().elem_count(), 4);
    assert_eq!(Ten::randn((2, 2), DType::F64, &d).unwrap().dims(), &[2, 2]);
    let x = tensor(&[1.0, 2.0], &[2]);
    assert_eq!(vals(&Ten::zeros_like(&x).unwrap()), vec![0.0; 2]);
    assert_eq!(vals(&Ten::ones_like(&x).unwrap()), vec![1.0; 2]);
    assert_eq!(vals(&Ten::full_like(&x, Num(7.0)).unwrap()), vec![7.0; 2]);
}

#[test]
fn every_tensor_has_its_own_number() {
    let a = tensor(&[1.0], &[1]);
    let b = tensor(&[1.0], &[1]);
    assert!(a.id() != b.id());
    assert_eq!(a.clone().id(), a.id());
}

#[test]
fn storage_is_read_and_replaced() {
    let a = tensor(&[1.0, 2.0, 3.0, 4.0], &[2, 2]);
    assert_eq!(a.storage().unwrap().data, vec![1.0, 2.0, 3.0, 4.0]);
    let view = a.transpose(0, 1).unwrap();
    a.update_data_inplace(&nums(&[5.0, 6.0, 7.0, 8.0])).unwrap();
    assert_eq!(vals(&a), vec![5.0, 6.0, 7.0, 8.0]);
    assert_eq!(vals(&view), vec![5.0, 7.0, 6.0, 8.0]);
    assert_eq!(
        text(a.update_data_inplace(&nums(&[1.0]))),
        "update_data_inplace: expected 4 elements, got 1"
    );
    assert_eq!(vals(&a), vec![5.0, 6.0, 7.0, 8.0]);
}

#[test]
fn freezing_changes_only_the_mark() {
    let a = var(&[1.0, 2.0], &[2]);
    let b = a.freeze();
    let c = b.unfreeze();
    assert!(a.is_variable() && !b.is_variable() && c.is_variable());
    assert_eq!(a.id(), b.id());
    assert_eq!(a.id(), c.id());
    assert_eq!(vals(&c), vec![1.0, 2.0]);
    c.update_data_inplace(&nums(&[3.0, 4.0])).unwrap();
    assert_eq!(vals(&a), vec![3.0, 4.0]);
}

#[test]
fn detaching_gives_a_leaf_with_a_new_number() {
    let a = var(&[1.0, 2.0], &[2]);
    let b = a.add(&a).unwrap();
    let c = b.detach();
    assert!(c.op().inputs().is_empty());
    assert_eq!(b.op().inputs().len(), 2);
    assert!(c.id() != b.id());
    assert_eq!(vals(&c), vec![2.0, 4.0]);
    assert!(!c.is_variable());
}

#[test]
fn descriptions() {
    let a = tensor(&[1.0, 2.5], &[2]);
    assert_eq!(
        a.to_text(),
        format!("Tensor(id={:?}, shape=[2], dtype=f64, device=Sound)", a.id())
    );
    assert_eq!(
        a.to_string_with_data().unwrap(),
        "Tensor(shape=[2], dtype=f64, data=[1.0, 2.5])"
    );
}

#[test]
fn arithmetic_broadcasts() {
    let a = tensor(&[1.0, 2.0, 3.0, 4.0, 5.0, 6.0], &[2, 3]);
    let b = tensor(&[10.0, 20.0, 30.0], &[3]);
    assert_eq!(vals(&a.add(&b).unwrap()), vec![11.0, 22.0, 33.0, 14.0, 25.0, 36.0]);
    assert_eq!(vals(&b.sub(&a).unwrap()), vec![9.0, 18.0, 27.0, 6.0, 15.0, 24.0]);
    let c = tensor(&[2.0, 3.0], &[2, 1]);
    let p = c.mul(&b).unwrap();
    assert_eq!(p.dims(), &[2, 3]);
    assert_eq!(vals(&p), vec![20.0, 40.0, 60.0, 30.0, 60.0, 90.0]);
    assert_eq!(vals(&b.div(&c).unwrap()), vec![5.0, 10.0, 15.0, 10.0 / 3.0, 20.0 / 3.0, 10.0]);
}

#[test]
fn arithmetic_rejects_what_does_not_fit() {
    let a = tensor(&[1.0, 2.0], &[2]);
    let b = tensor(&[1.0, 2.0, 3.0], &[3]);
    let e = text(a.add(&b));
    assert!(e.contains("not broadcast-compatible"), "{}", e);
    let c = Ten::zeros(2, DType::F32, &Dev::Sound).unwrap();
    match fails(a.mul(&c)) {
        Error::DTypeMismatch { expected, got } => {
            assert_eq!((expected, got), (DType::F64, DType::F32))
        }
        e => panic!("{:?}", e),
    }
}

#[test]
fn comparisons_give_zeros_and_ones() {
    let a = tensor(&[1.0, 2.0, 3.0], &[3]);
    let b = tensor(&[2.0], &[1]);
    assert_eq!(vals(&a.eq(&b).unwrap()), vec![0.0, 1.0, 0.0]);
    assert_eq!(vals(&a.ne(&b).unwrap()), vec![1.0, 0.0, 1.0]);
    assert_eq!(vals(&a.gt(&b).unwrap()), vec![0.0, 0.0, 1.0]);
    assert_eq!(vals(&a.ge(&b).unwrap()), vec![0.0, 1.0, 1.0]);
    assert_eq!(vals(&a.lt(&b).unwrap()), vec![1.0, 0.0, 0.0]);
    let le = a.le(&b).unwrap();
    assert_eq!(vals(&le), vec![1.0, 1.0, 0.0]);
    assert_eq!(le.dtype(), DType::U8);
    assert!(le.op().inputs().is_empty());
}

#[test]
fn unary_operations() {
    let a = tensor(&[-1.5, 0.0, 2.5], &[3]);
    assert_eq!(vals(&a.neg().unwrap()), vec![1.5, 0.0, -2.5]);
    assert_eq!(vals(&a.abs().unwrap()), vec![1.5, 0.0, 2.5]);
    assert_eq!(vals(&a.square().unwrap()), vec![2.25, 0.0, 6.25]);
    assert_eq!(vals(&a.relu().unwrap()), vec![0.0, 0.0, 2.5]);
    assert_eq!(vals(&a.floor().unwrap()), vec![-2.0, 0.0, 2.0]);
    assert_eq!(vals(&a.ceil().unwrap()), vec![-1.0, 0.0, 3.0]);
    assert_eq!(vals(&a.round().unwrap()), vec![-2.0, 0.0, 3.0]);
    assert_eq!(vals(&a.exp().unwrap())[1], 1.0);
    assert_eq!(vals(&a.sin().unwrap())[1], 0.0);
    assert_eq!(vals(&a.cos().unwrap())[1], 1.0);
    assert_eq!(vals(&a.tanh().unwrap())[1], 0.0);
    assert_eq!(vals(&a.sigmoid().unwrap())[1], 0.5);
    assert_eq!(vals(&a.gelu().unwrap())[1], 0.0);
    assert_eq!(vals(&a.silu().unwrap())[1], 0.0);
    let b = tensor(&[1.0, 4.0], &[2]);
    assert_eq!(vals(&b.log().unwrap())[0], 0.0);
    assert_eq!(vals(&b.sqrt().unwrap()), vec![1.0, 2.0]);
    assert_eq!(vals(&b.powf(Num(3.0)).unwrap()), vec![1.0, 64.0]);
    assert_eq!(vals(&b.clamp(Num(2.0), Num(3.0)).unwrap()), vec![2.0, 3.0]);
    assert_eq!(vals(&b.affine(Num(2.0), Num(1.0)).unwrap()), vec![3.0, 9.0]);
    assert_eq!(vals(&b.reciprocal().unwrap()), vec![1.0, 0.25]);
    assert_eq!(vals(&b.rsqrt().unwrap()), vec![1.0, 0.5]);
    assert_eq!(vals(&a.sign().unwrap()), vec![-1.0, 0.0, 1.0]);
    let tiny = tensor(&[1e-12, -1e-300, 0.0, f64::INFINITY], &[4]);
    assert_eq!(vals(&tiny.sign().unwrap()), vec![1.0, -1.0, 0.0, 1.0]);
    assert!(tiny.sign().unwrap().op().inputs().is_empty());
}

#[test]
fn reductions() {
    let a = tensor(&[1.0, 5.0, 3.0, 4.0, 2.0, 6.0], &[2, 3]);
    assert_eq!(vals(&a.sum_all().unwrap()), vec![21.0]);
    assert_eq!(a.sum_all().unwrap().rank(), 0);
    assert_eq!(vals(&a.mean_all().unwrap()), vec![3.5]);
    let s = a.sum(1, true).unwrap();
    assert_eq!((s.dims().to_vec(), vals(&s)), (vec![2, 1], vec![9.0, 12.0]));
    let s = a.sum(0, false).unwrap();
    assert_eq!((s.dims().to_vec(), vals(&s)), (vec![3], vec![5.0, 7.0, 9.0]));
    assert_eq!(vals(&a.mean(1, false).unwrap()), vec![3.0, 4.0]);
    assert_eq!(vals(&a.max(1, false).unwrap()), vec![5.0, 6.0]);
    assert_eq!(vals(&a.min(0, false).unwrap()), vec![1.0, 2.0, 3.0]);
    let m = a.argmax(1, false).unwrap();
    assert_eq!((m.dtype(), vals(&m)), (DType::I64, vec![1.0, 2.0]));
    assert_eq!(vals(&a.argmin(1, false).unwrap()), vec![0.0, 1.0]);
    match fails(a.sum(2, false)) {
        Error::DimOutOfRange { dim, rank } => assert_eq!((dim, rank), (2, 2)),
        e => panic!("{:?}", e),
    }
    close(&vals(&a.var(1, false).unwrap()), &[8.0 / 3.0, 8.0 / 3.0]);
    close(&vals(&a.std_dev(1, false).unwrap()), &[1.63299316, 1.63299316]);
    close(&vals(&a.prod(1, false).unwrap()), &[15.0, 48.0]);
    let signed = tensor(&[-1.0, 2.0, -3.0, -4.0, 5.0, 6.0], &[2, 3]);
    close(&vals(&signed.prod(1, true).unwrap()), &[6.0, -120.0]);
    close(&vals(&a.logsumexp(1, false).unwrap()), &[5.142931, 6.142931]);
    assert_eq!(a.logsumexp(1, true).unwrap().dims(), &[2, 1]);
}

#[test]
fn softmax_sums_to_one() {
    let a = tensor(&[1.0, 2.0, 3.0, 1.0, 1.0, 1.0], &[2, 3]);
    let s = a.softmax(1).unwrap();
    close(&vals(&s.sum(1, false).unwrap()), &[1.0, 1.0]);
    close(&vals(&s)[3..], &[1.0 / 3.0; 3]);
    close(&vals(&a.log_softmax(1).unwrap().exp().unwrap()), &vals(&s));
}

#[test]
fn matrix_products() {
    let a = tensor(&[1.0, 2.0, 3.0, 4.0, 5.0, 6.0], &[2, 3]);
    let b = tensor(&[1.0, 0.0, 0.0, 1.0, 1.0, 1.0], &[3, 2]);
    let c = a.matmul(&b).unwrap();
    assert_eq!((c.dims().to_vec(), vals(&c)), (vec![2, 2], vec![4.0, 5.0, 10.0, 11.0]));
    let batched = a.reshape((1, 2, 3)).unwrap().matmul(&b.reshape((1, 3, 2)).unwrap()).unwrap();
    assert_eq!(batched.dims(), &[1, 2, 2]);
    match fails(a.matmul(&a)) {
        Error::MatmulShapeMismatch { m, k1, k2, n } => assert_eq!((m, k1, k2, n), (2, 3, 2, 3)),
        e => panic!("{:?}", e),
    }
    match fails(a.matmul(&tensor(&[1.0], &[1]))) {
        Error::RankMismatch { expected, got } => assert_eq!((expected, got), (2, 1)),
        e => panic!("{:?}", e),
    }
}

#[test]
fn shapes_change_without_copies() {
    let a = tensor(&[1.0, 2.0, 3.0, 4.0, 5.0, 6.0], &[2, 3]);
    let t = a.t().unwrap();
    assert_eq!((t.dims().to_vec(), vals(&t)), (vec![3, 2], vec![1.0, 4.0, 2.0, 5.0, 3.0, 6.0]));
    assert!(!t.is_contiguous());
    assert_eq!(vals(&t.transpose(0, 1).unwrap()), vals(&a));
    assert!(t.contiguous().unwrap().is_contiguous());
    assert_eq!(vals(&t.contiguous().unwrap()), vals(&t));
    assert_eq!(vals(&t.reshape(6).unwrap()), vec![1.0, 4.0, 2.0, 5.0, 3.0, 6.0]);
    let n = a.narrow(1, 1, 2).unwrap();
    assert_eq!((n.dims().to_vec(), vals(&n)), (vec![2, 2], vec![2.0, 3.0, 5.0, 6.0]));
    let u = a.unsqueeze(1).unwrap();
    assert_eq!(u.dims(), &[2, 1, 3]);
    assert_eq!(vals(&u.squeeze(1).unwrap()), vals(&a));
    assert_eq!(u.squeeze_all().dims(), &[2, 3]);
    let p = u.permute(&[2, 0, 1]).unwrap();
    assert_eq!((p.dims().to_vec(), vals(&p)), (vec![3, 2, 1], vals(&t)));
    assert_eq!(u.flatten(0, 1).unwrap().dims(), &[2, 3]);
    let kept = u.expand((usize::MAX, 2, usize::MAX)).unwrap();
    assert_eq!(kept.dims(), &[2, 2, 3]);
    let e = u.expand((2, 2, 3)).unwrap();
    assert_eq!(vals(&e), vec![1.0, 2.0, 3.0, 1.0, 2.0, 3.0, 4.0, 5.0, 6.0, 4.0, 5.0, 6.0]);
}

#[test]
fn shape_changes_are_checked() {
    let a = tensor(&[1.0, 2.0, 3.0, 4.0, 5.0, 6.0], &[2, 3]);
    match fails(a.reshape((4, 2))) {
        Error::ReshapeElementMismatch { src, dst, dst_shape } => {
            assert_eq!((src, dst, dst_shape.dims().to_vec()), (6, 8, vec![4, 2]))
        }
        e => panic!("{:?}", e),
    }
    match fails(a.narrow(1, 2, 2)) {
        Error::NarrowOutOfBounds { dim, start, len, dim_size } => {
            assert_eq!((dim, start, len, dim_size), (1, 2, 2, 3))
        }
        e => panic!("{:?}", e),
    }
    match fails(a.transpose(0, 2)) {
        Error::DimOutOfRange { dim, rank } => assert_eq!((dim, rank), (2, 2)),
        e => panic!("{:?}", e),
    }
    match fails(a.unsqueeze(3)) {
        Error::DimOutOfRange { dim, rank } => assert_eq!((dim, rank), (3, 3)),
        e => panic!("{:?}", e),
    }
    match fails(a.unsqueeze(0).unwrap().t()) {
        Error::RankMismatch { expected, got } => assert_eq!((expected, got), (2, 3)),
        e => panic!("{:?}", e),
    }
    assert_eq!(text(a.squeeze(0)), "squeeze: dimension 0 has size 2, expected 1");
    assert_eq!(text(a.permute(&[0])), "permute: expected 2 dimensions, got 1");
    assert_eq!(text(a.permute(&[1, 1])), "permute: duplicate dimension 1");
    assert_eq!(text(a.flatten(1, 0)), "flatten: invalid range [1, 0] for rank 2");
    assert_eq!(text(a.expand(6)), "expand: rank mismatch — self [2, 3] vs target [6]");
    assert_eq!(
        text(a.expand((4, 3))),
        "expand: can only expand size-1 dims, but dim 0 has size 2"
    );
}

#[test]
fn chunks_and_splits_cover_the_dimension() {
    let a = tensor(&ramp(10), &[5, 2]);
    let c = a.chunk(3, 0).unwrap();
    let sizes: Vec<usize> = c.iter().map(|t| t.dims()[0]).collect();
    assert_eq!(sizes, vec![2, 2, 1]);
    let joined: Vec<f64> = c.iter().flat_map(|t| vals(t)).collect();
    assert_eq!(joined, vals(&a));
    let s = a.split(4, 0).unwrap();
    assert_eq!((s[0].dims()[0], s[1].dims()[0], s.len()), (4, 1, 2));
    assert_eq!(a.chunk(4, 1).unwrap().len(), 2);
    assert_eq!(text(a.split(0, 0)), "split: split_size must be > 0");
    match fails(a.chunk(1, 2)) {
        Error::DimOutOfRange { dim, rank } => assert_eq!((dim, rank), (2, 2)),
        e => panic!("{:?}", e),
    }
}

#[test]
fn scalars_and_dtypes() {
    let a = tensor(&[2.75], &[1, 1]);
    assert_eq!(a.to_scalar_f64().unwrap(), Num(2.75));
    match fails(tensor(&[1.0, 2.0], &[2]).to_scalar_f64()) {
        Error::NotAScalar { shape } => assert_eq!(shape.dims(), &[2]),
        e => panic!("{:?}", e),
    }
    let i = a.to_dtype(DType::I64).unwrap();
    assert_eq!((i.dtype(), vals(&i)), (DType::I64, vec![2.0]));
    assert_eq!(i.op().inputs()[0].id(), a.id());
    assert_eq!(a.to_dtype(DType::F64).unwrap().id(), a.id());
}

#[test]
fn element_counts_are_checked() {
    match fails(Ten::from_f64_slice(&nums(&[1.0, 2.0]), 3, DType::F64, &Dev::Sound)) {
        Error::ElementCountMismatch { shape, expected, got } => {
            assert_eq!((shape.dims().to_vec(), expected, got), (vec![3], 3, 2))
        }
        e => panic!("{:?}", e),
    }
    let short = Ten::zeros((1, 1, 2, 2), DType::F64, &Dev::Short).unwrap();
    match fails(short.cumsum(2)) {
        Error::ElementCountMismatch { expected, got, .. } => assert_eq!((expected, got), (4, 3)),
        e => panic!("{:?}", e),
    }
}

#[test]
fn backend_errors_are_passed_on() {
    assert_eq!(text(Ten::zeros(2, DType::F64, &Dev::Broken)), "device is broken");
    assert_eq!(text(Ten::arange(2, DType::F64, &Dev::Broken)), "device is broken");
}

#[test]
fn shapes_beyond_the_address_space_are_rejected() {
    let big = Shape::new(vec![usize::MAX - 1, usize::MAX - 1]);
    assert_eq!(
        text(Ten::zeros(big.clone(), DType::F64, &Dev::Sound)),
        "tensor exceeds the address space"
    );
    let a = tensor(&[1.0], &[1, 1]);
    assert_eq!(text(a.reshape(big.clone())), "tensor exceeds the address space");
    assert_eq!(text(a.expand(big)), "tensor exceeds the address space");
}

#[test]
fn joining_tensors() {
    let a = tensor(&[1.0, 2.0], &[1, 2]);
    let b = tensor(&[3.0, 4.0, 5.0, 6.0], &[2, 2]);
    let c = Ten::cat(&[a.clone(), b.clone()], 0).unwrap();
    assert_eq!((c.dims().to_vec(), vals(&c)), (vec![3, 2], vec![1.0, 2.0, 3.0, 4.0, 5.0, 6.0]));
    let s = Ten::stack(&[a.clone(), a.clone()], 1).unwrap();
    assert_eq!((s.dims().to_vec(), vals(&s)), (vec![1, 2, 2], vec![1.0, 2.0, 1.0, 2.0]));
    assert_eq!(Ten::cat(&[a.clone()], 5).unwrap().id(), a.id());
    assert_eq!(text(Ten::cat(&[], 0)), "cat: empty tensor list");
    assert_eq!(text(Ten::stack(&[], 0)), "stack: empty tensor list");
    assert_eq!(
        text(Ten::cat(&[a.clone(), tensor(&[1.0], &[1])], 0)),
        "cat: tensor 1 has rank 1 but expected 2"
    );
    assert_eq!(
        text(Ten::cat(&[b.clone(), a.clone()], 1)),
        "cat: tensor 1 has size 1 at dim 0 but expected 2"
    );
    assert_eq!(
        text(Ten::stack(&[a.clone(), b.clone()], 0)),
        "stack: tensor 1 has shape [2, 2] but expected [1, 2]"
    );
    let p = a.pad(&[[1, 0], [0, 2]], Num(9.0)).unwrap();
    assert_eq!((p.dims().to_vec(), vals(&p)), (
        vec![2, 4],
        vec![9.0, 9.0, 9.0, 9.0, 1.0, 2.0, 9.0, 9.0]
    ));
    assert_eq!(vals(&a.pad(&[[1, 1]], Num(0.0)).unwrap()), vec![0.0, 1.0, 2.0, 0.0]);
    assert_eq!(a.pad(&[[0, 0]], Num(0.0)).unwrap().id(), a.id());
    assert_eq!(
        text(a.pad(&[[0, 0], [0, 0], [0, 0]], Num(0.0))),
        "pad: 3 padding pairs but tensor rank is 2"
    );
}

#[test]
fn narrowing_undoes_joining() {
    let a = tensor(&ramp(6), &[2, 3]);
    let b = tensor(&ramp(12), &[2, 3, 2]).narrow(2, 1, 1).unwrap().squeeze(2).unwrap();
    for d in 0..2 {
        let parts = [a.clone(), b.clone(), a.affine(Num(-1.0), Num(0.5)).unwrap()];
        let joined = Ten::cat(&parts, d).unwrap();
        let mut start = 0;
        for p in &parts {
            let back = joined.narrow(d, start, p.dims()[d]).unwrap();
            assert_eq!((back.dims(), vals(&back)), (p.dims(), vals(p)));
            start += p.dims()[d];
        }
        assert_eq!(joined.dims()[d], start);
    }
}

#[test]
fn padding_surrounds_the_tensor() {
    let a = tensor(&ramp(12), &[2, 3, 2]);
    let pads = [[2, 1], [0, 3]];
    let p = a.pad(&pads, Num(-5.0)).unwrap();
    assert_eq!(p.dims(), &[2, 6, 5]);
    let inner = p.narrow(1, 2, 3).unwrap().narrow(2, 0, 2).unwrap();
    assert_eq!((inner.dims(), vals(&inner)), (a.dims(), vals(&a)));
    let data = vals(&p);
    for k in 0..60 {
        let i = unravel(k, &[2, 6, 5]);
        let inside = 2 <= i[1] && i[1] < 5 && i[2] < 2;
        let expected = if inside { ramp(12)[ravel(&[i[0], i[1] - 2, i[2]], &[2, 3, 2])] } else { -5.0 };
        assert_eq!(data[k], expected);
    }
}

#[test]
fn arguments_may_share_storage() {
    let a = tensor(&[1.0, 0.0, 2.0, 1.0], &[2, 2]);
    let t = a.t().unwrap();
    assert_eq!(vals(&a.sub(&t).unwrap()), vec![0.0, -2.0, 2.0, 0.0]);
    assert_eq!(vals(&a.gt(&t).unwrap()), vec![0.0, 0.0, 1.0, 0.0]);
    assert_eq!(vals(&a.matmul(&t).unwrap()), vec![1.0, 2.0, 2.0, 5.0]);
    assert_eq!(vals(&Ten::where_cond(&a, &a, &t).unwrap()), vec![1.0, 2.0, 2.0, 1.0]);
    let b = tensor(&[7.0, 8.0, 9.0, 6.0], &[2, 2]);
    assert_eq!(vals(&Ten::where_cond(&a, &b, &t).unwrap()), vec![7.0, 2.0, 9.0, 6.0]);
    assert_eq!(vals(&Ten::where_cond(&b, &t, &a).unwrap()), vec![1.0, 2.0, 0.0, 1.0]);
    assert_eq!(vals(&Ten::where_cond(&a, &b, &b.t().unwrap()).unwrap()), vec![7.0, 9.0, 9.0, 6.0]);
    let row = a.narrow(0, 0, 1).unwrap().squeeze(0).unwrap();
    assert_eq!(vals(&row.index_select(0, &row).unwrap()), vec![0.0, 1.0]);
    assert_eq!(vals(&row.gather(0, &row).unwrap()), vec![0.0, 1.0]);
    let joined = Ten::cat(&[a.clone(), b.clone(), t, b, a], 0).unwrap();
    assert_eq!(
        vals(&joined),
        vec![
            1.0, 0.0, 2.0, 1.0, 7.0, 8.0, 9.0, 6.0, 1.0, 2.0, 0.0, 1.0, 7.0, 8.0, 9.0, 6.0, 1.0,
            0.0, 2.0, 1.0
        ]
    );
}

#[test]
fn selecting_elements() {
    let a = tensor(&[1.0, 2.0, 3.0, 4.0, 5.0, 6.0], &[2, 3]);
    let i = tensor(&[2.0, 0.0], &[2]);
    let s = a.index_select(1, &i).unwrap();
    assert_eq!((s.dims().to_vec(), vals(&s)), (vec![2, 2], vec![3.0, 1.0, 6.0, 4.0]));
    let g = a.gather(1, &tensor(&[2.0, 0.0], &[2, 1])).unwrap();
    assert_eq!((g.dims().to_vec(), vals(&g)), (vec![2, 1], vec![3.0, 4.0]));
    let mask = a.gt(&tensor(&[3.5], &[1])).unwrap();
    let w = Ten::where_cond(&mask, &a, &a.neg().unwrap()).unwrap();
    assert_eq!(vals(&w), vec![-1.0, -2.0, -3.0, 4.0, 5.0, 6.0]);
    assert_eq!(vals(&a.masked_fill(&mask, Num(0.0)).unwrap()), vec![1.0, 2.0, 3.0, 0.0, 0.0, 0.0]);
    match fails(a.index_select(2, &i)) {
        Error::DimOutOfRange { dim, rank } => assert_eq!((dim, rank), (2, 2)),
        e => panic!("{:?}", e),
    }
}

#[test]
fn ranges_and_masks() {
    let d = Dev::Sound;
    assert_eq!(vals(&Ten::arange(4, DType::F64, &d).unwrap()), vec![0.0, 1.0, 2.0, 3.0]);
    let up = Ten::arange_step(Num(1.0), Num(2.0), Num(0.25), DType::F64, &d).unwrap();
    assert_eq!(vals(&up), vec![1.0, 1.25, 1.5, 1.75]);
    let down = Ten::arange_step(Num(3.0), Num(0.0), Num(-1.0), DType::F64, &d).unwrap();
    assert_eq!(vals(&down), vec![3.0, 2.0, 1.0]);
    let none = Ten::arange_step(Num(3.0), Num(0.0), Num(1.0), DType::F64, &d).unwrap();
    assert_eq!(none.dims(), &[0]);
    assert_eq!(
        text(Ten::arange_step(Num(0.0), Num(1.0), Num(0.0), DType::F64, &d)),
        "arange_step: step cannot be zero"
    );
    let l = Ten::linspace(Num(0.0), Num(1.0), 5, DType::F64, &d).unwrap();
    assert_eq!(vals(&l), vec![0.0, 0.25, 0.5, 0.75, 1.0]);
    assert_eq!(vals(&Ten::eye(2, DType::F64, &d).unwrap()), vec![1.0, 0.0, 0.0, 1.0]);
    let u = Ten::triu(2, 3, 1, DType::F64, &d).unwrap();
    assert_eq!((u.dims().to_vec(), vals(&u)), (vec![2, 3], vec![0.0, 1.0, 1.0, 0.0, 0.0, 1.0]));
    let l = Ten::tril(2, 3, 0, DType::F64, &d).unwrap();
    assert_eq!(vals(&l), vec![1.0, 0.0, 0.0, 1.0, 1.0, 0.0]);
}

#[test]
fn running_sums_and_sorting() {
    let a = tensor(&[3.0, 1.0, 2.0, 6.0, 5.0, 4.0], &[2, 3]);
    assert_eq!(vals(&a.cumsum(1).unwrap()), vec![3.0, 4.0, 6.0, 6.0, 11.0, 15.0]);
    assert_eq!(vals(&a.cumsum(0).unwrap()), vec![3.0, 1.0, 2.0, 9.0, 6.0, 6.0]);
    let (v, i) = a.sort(1, false).unwrap();
    assert_eq!(vals(&v), vec![1.0, 2.0, 3.0, 4.0, 5.0, 6.0]);
    assert_eq!((vals(&i), i.dtype()), (vec![1.0, 2.0, 0.0, 2.0, 1.0, 0.0], DType::F64));
    let (v, _) = a.sort(0, true).unwrap();
    assert_eq!(vals(&v), vec![6.0, 5.0, 4.0, 3.0, 1.0, 2.0]);
    assert_eq!(vals(&a.argsort(1, true).unwrap()), vec![0.0, 2.0, 1.0, 0.0, 1.0, 2.0]);
    let (v, i) = a.topk(2, 1).unwrap();
    assert_eq!((v.dims().to_vec(), vals(&v)), (vec![2, 2], vec![3.0, 2.0, 6.0, 5.0]));
    assert_eq!(i, vec![0, 2, 0, 1]);
    assert_eq!(text(a.topk(4, 1)), "topk: k=4 exceeds dim 1 size 3");
}

#[test]
fn convolution_by_hand() {
    let x = tensor(&[1.0, 2.0, 3.0, 4.0, 5.0, 6.0, 7.0, 8.0, 9.0], &[1, 1, 3, 3]);
    let w = tensor(&[1.0, 0.0, 0.0, 1.0], &[1, 1, 2, 2]);
    let b = tensor(&[10.0], &[1]);
    let y = x.conv2d(&w, Some(&b), [1, 1], [0, 0]).unwrap();
    assert_eq!((y.dims().to_vec(), vals(&y)), (vec![1, 1, 2, 2], vec![16.0, 18.0, 22.0, 24.0]));
    let y = x.conv2d(&w, None, [2, 2], [1, 1]).unwrap();
    assert_eq!((y.dims().to_vec(), vals(&y)), (vec![1, 1, 2, 2], vec![1.0, 3.0, 7.0, 14.0]));
    let s = tensor(&[1.0, 2.0, 3.0, 4.0], &[1, 1, 4]);
    let k = tensor(&[1.0, -1.0], &[1, 1, 2]);
    let y = s.conv1d(&k, None, 1, 1).unwrap();
    assert_eq!((y.dims().to_vec(), vals(&y)), (vec![1, 1, 5], vec![-1.0, -1.0, -1.0, -1.0, 4.0]));
}

#[test]
fn convolution_is_checked() {
    let x = tensor(&ramp(9), &[1, 1, 3, 3]);
    let w = tensor(&ramp(8), &[1, 2, 2, 2]);
    let big = tensor(&ramp(25), &[1, 1, 5, 5]);
    assert_eq!(
        text(x.conv2d(&w, None, [1, 1], [0, 0])),
        "conv2d: input channels 1 != weight channels 2"
    );
    assert_eq!(
        text(x.conv2d(&big, None, [1, 1], [0, 0])),
        "conv2d: kernel larger than padded input"
    );
    assert_eq!(
        text(x.reshape((3, 3)).unwrap().conv2d(&w, None, [1, 1], [0, 0])),
        "conv2d input must be 4D [N,C,H,W], got rank 2"
    );
    assert_eq!(
        text(x.conv2d(&w.reshape((2, 4)).unwrap(), None, [1, 1], [0, 0])),
        "conv2d weight must be 4D [C_out,C_in,kH,kW], got rank 2"
    );
    let s = tensor(&ramp(4), &[1, 1, 4]);
    let k = tensor(&ramp(2), &[1, 1, 2]);
    let b = tensor(&ramp(2), &[2]);
    assert_eq!(
        text(s.conv1d(&k, Some(&b), 1, 0)),
        "conv1d: bias size 2 != output channels 1"
    );
    assert_eq!(
        text(s.conv1d(&s.reshape((1, 2, 2)).unwrap(), None, 1, 0)),
        "conv1d: input channels 1 != weight channels 2"
    );
    assert_eq!(
        text(k.conv1d(&s, None, 1, 0)),
        "conv1d: kernel larger than padded input"
    );
    assert_eq!(
        text(x.max_pool2d([4, 1], [1, 1], [0, 0])),
        "max_pool2d: kernel larger than padded input"
    );
    assert_eq!(
        text(s.avg_pool2d([1, 1], [1, 1], [0, 0])),
        "avg_pool2d input must be 4D [N,C,H,W], got rank 3"
    );
}

#[test]
fn pooling_by_hand() {
    let x = tensor(&[1.0, 2.0, 3.0, 4.0, 5.0, 6.0, 7.0, 8.0, 9.0], &[1, 1, 3, 3]);
    let m = x.max_pool2d([2, 2], [1, 1], [0, 0]).unwrap();
    assert_eq!((m.dims().to_vec(), vals(&m)), (vec![1, 1, 2, 2], vec![5.0, 6.0, 8.0, 9.0]));
    let (top, places) = x.max_pool2d_with_indices([2, 2], [1, 1], [0, 0]).unwrap();
    assert_eq!((vals(&top), places), (vals(&m), vec![4, 5, 7, 8]));
    assert_eq!(
        text(m.max_pool2d_with_indices([3, 3], [1, 1], [0, 0])),
        text(m.max_pool2d([3, 3], [1, 1], [0, 0]))
    );
    let a = x.avg_pool2d([2, 2], [2, 2], [1, 1]).unwrap();
    assert_eq!((a.dims().to_vec(), vals(&a)), (vec![1, 1, 2, 2], vec![1.0, 2.5, 5.5, 7.0]));
}

#[test]
fn error_texts() {
    let s = |d: &[usize]| Shape::new(d.to_vec());
    assert_eq!(
        Error::ShapeMismatch { expected: s(&[2]), got: s(&[3, 1]) }.to_string(),
        "shape mismatch: expected [2], got [3, 1]"
    );
    assert_eq!(
        Error::RankMismatch { expected: 2, got: 3 }.to_string(),
        "rank mismatch: expected rank 2, got 3"
    );
    assert_eq!(
        Error::DimOutOfRange { dim: 4, rank: 2 }.to_string(),
        "dimension out of range: dim 4 for tensor with 2 dimensions"
    );
    assert_eq!(
        Error::NarrowOutOfBounds { dim: 0, start: 1, len: 2, dim_size: 2 }.to_string(),
        "narrow out of bounds: dim 0, start 1, len 2, dim_size 2"
    );
    assert_eq!(
        Error::NotAScalar { shape: s(&[2, 2]) }.to_string(),
        "not a scalar: tensor has shape [2, 2]"
    );
    assert_eq!(
        Error::ElementCountMismatch { shape: s(&[2]), expected: 2, got: 1 }.to_string(),
        "element count mismatch: shape [2] requires 2 elements, got 1"
    );
    assert_eq!(
        Error::MatmulShapeMismatch { m: 1, k1: 2, k2: 3, n: 4 }.to_string(),
        "matmul shape mismatch: [1x2] @ [3x4] — inner dims must match"
    );
    assert_eq!(
        Error::ReshapeElementMismatch { src: 6, dst: 8, dst_shape: s(&[8]) }.to_string(),
        "cannot reshape: source has 6 elements, target shape [8] has 8 elements"
    );
    assert_eq!(Error::msg("a message").to_string(), "a message");
}

/// A scalar that depends on every element of a tensor in another way.
fn weighed(y: &Ten) -> Ten {
    let n = y.elem_count();
    let w: Vec<f64> = (0..n).map(|i| 0.5 + 0.3 * i as f64).collect();
    y.mul(&tensor(&w, y.dims())).unwrap().sum_all().unwrap()
}

/// Compares the gradients of a function with differences of its values.
fn check_gradients(inputs: &[(Vec<f64>, Vec<usize>)], f: &dyn Fn(&[Ten]) -> Result<Ten>) {
    let at = |data: &[Vec<f64>]| -> Vec<Ten> {
        (0..inputs.len()).map(|i| var(&data[i], &inputs[i].1)).collect()
    };
    let base: Vec<Vec<f64>> = inputs.iter().map(|p| p.0.clone()).collect();
    let xs = at(&base);
    let loss = weighed(&f(&xs).unwrap());
    let grads = loss.backward().unwrap();
    for i in 0..inputs.len() {
        let g = grads.get(&xs[i]).unwrap();
        assert_eq!(g.dims(), xs[i].dims());
        let mut want = Vec::new();
        for k in 0..base[i].len() {
            let h = 1e-6;
            let mut hi = base.clone();
            hi[i][k] += h;
            let mut lo = base.clone();
            lo[i][k] -= h;
            let a = weighed(&f(&at(&hi)).unwrap()).to_scalar_f64().unwrap().0;
            let b = weighed(&f(&at(&lo)).unwrap()).to_scalar_f64().unwrap().0;
            want.push((a - b) / (2.0 * h));
        }
        close(&vals(g), &want);
    }
}

fn one(n: usize, dims: &[usize]) -> Vec<(Vec<f64>, Vec<usize>)> {
    vec![(ramp(n), dims.to_vec())]
}

#[test]
fn the_root_has_gradient_one() {
    let a = var(&[3.0], &[1]);
    let b = a.mul(&a).unwrap();
    let g = b.backward().unwrap();
    assert_eq!(vals(g.get(&b).unwrap()), vec![1.0]);
    assert_eq!(vals(g.get(&a).unwrap()), vec![6.0]);
    let other = var(&[1.0], &[1]);
    assert!(g.get(&other).is_none());
}

#[test]
fn backward_needs_a_scalar() {
    assert_eq!(
        text(var(&[1.0, 2.0], &[2]).backward()),
        "backward() requires a scalar tensor (single element). \
         Use .sum_all() or .mean_all() to reduce to a scalar first."
    );
}

#[test]
fn gradients_of_shared_tensors_add_up() {
    // y = (a + a) * a, so that y' = 4 a.
    let a = var(&[5.0], &[1]);
    let s = a.add(&a).unwrap();
    let y = s.mul(&a).unwrap();
    let g = y.backward().unwrap();
    assert_eq!(vals(g.get(&a).unwrap()), vec![20.0]);
    assert_eq!(vals(g.get(&s).unwrap()), vec![5.0]);
}

#[test]
fn the_order_puts_inputs_first() {
    let a = var(&[1.0], &[1]);
    let b = a.exp().unwrap();
    let c = b.mul(&a).unwrap();
    let d = c.add(&b).unwrap();
    let order = build_topo(&d);
    let ids: Vec<_> = order.iter().map(|t| t.id()).collect();
    assert_eq!(ids, vec![a.id(), b.id(), c.id(), d.id()]);
}

#[test]
fn stores_accumulate() {
    let mut store: GradStore<Cpu> = GradStore::default();
    let a = tensor(&[1.0, 2.0], &[2]);
    assert!(store.get(&a).is_none());
    store.accumulate(a.id(), tensor(&[3.0, 4.0], &[2])).unwrap();
    store.accumulate(a.id(), tensor(&[10.0, 20.0], &[2])).unwrap();
    assert_eq!(vals(store.get(&a).unwrap()), vec![13.0, 24.0]);
    let copy = store.clone();
    let e = text(store.accumulate(a.id(), tensor(&[1.0, 1.0, 1.0], &[3])));
    assert!(e.contains("not broadcast-compatible"));
    assert_eq!(vals(store.get(&a).unwrap()), vec![13.0, 24.0]);
    assert_eq!(vals(copy.get(&a).unwrap()), vec![13.0, 24.0]);
}

#[test]
fn gradients_of_arithmetic() {
    let pair = vec![(vec![1.0, -2.0, 3.0, 0.5, 1.5, 2.5], vec![2, 3]), (vec![2.0, 3.0, -4.0], vec![3])];
    check_gradients(&pair, &|x| x[0].add(&x[1]));
    check_gradients(&pair, &|x| x[0].sub(&x[1]));
    check_gradients(&pair, &|x| x[0].mul(&x[1]));
    check_gradients(&pair, &|x| x[0].div(&x[1]));
    let outer = vec![(vec![1.0, 2.0], vec![2, 1]), (vec![3.0, 4.0, 5.0], vec![1, 3])];
    check_gradients(&outer, &|x| x[0].mul(&x[1]));
    check_gradients(&outer, &|x| x[0].sub(&x[1]));
    check_gradients(&outer, &|x| x[0].div(&x[1]));
}

#[test]
fn gradients_of_unary_operations() {
    let x = vec![(vec![-1.3, -0.4, 0.6, 1.7], vec![4])];
    check_gradients(&x, &|x| x[0].neg());
    check_gradients(&x, &|x| x[0].abs());
    check_gradients(&x, &|x| x[0].exp());
    check_gradients(&x, &|x| x[0].square());
    check_gradients(&x, &|x| x[0].relu());
    check_gradients(&x, &|x| x[0].sigmoid());
    check_gradients(&x, &|x| x[0].tanh());
    check_gradients(&x, &|x| x[0].gelu());
    check_gradients(&x, &|x| x[0].silu());
    check_gradients(&x, &|x| x[0].sin());
    check_gradients(&x, &|x| x[0].cos());
    check_gradients(&x, &|x| x[0].floor());
    check_gradients(&x, &|x| x[0].ceil());
    check_gradients(&x, &|x| x[0].round());
    let p = vec![(vec![0.3, 1.2, 4.0], vec![3])];
    check_gradients(&p, &|x| x[0].log());
    check_gradients(&p, &|x| x[0].sqrt());
    check_gradients(&p, &|x| x[0].powf(Num(2.5)));
    check_gradients(&p, &|x| x[0].clamp(Num(0.5), Num(2.0)));
    check_gradients(&p, &|x| x[0].affine(Num(3.0), Num(1.0)));
    check_gradients(&p, &|x| x[0].reciprocal());
    check_gradients(&p, &|x| x[0].rsqrt());
    let signed = vec![(vec![-1.3, 0.4, -0.6, 1.7, -2.0, 3.0], vec![2, 3])];
    check_gradients(&signed, &|x| x[0].prod(1, false));
    check_gradients(&signed, &|x| x[0].logsumexp(0, false));
}

#[test]
fn gradients_at_the_bounds() {
    let a = var(&[0.5, 1.0, 2.0, 0.0], &[4]);
    let y = a.clamp(Num(0.5), Num(2.0)).unwrap().sum_all().unwrap();
    assert_eq!(vals(y.backward().unwrap().get(&a).unwrap()), vec![0.0, 1.0, 0.0, 0.0]);
    let y = a.abs().unwrap().sum_all().unwrap();
    assert_eq!(vals(y.backward().unwrap().get(&a).unwrap()), vec![1.0, 1.0, 1.0, 0.0]);
}

#[test]
fn gradients_of_reductions() {
    let x = vec![(vec![0.1, 0.9, -0.4, 0.7, 0.3, -1.2], vec![2, 3])];
    check_gradients(&x, &|x| x[0].sum_all());
    check_gradients(&x, &|x| x[0].mean_all());
    check_gradients(&x, &|x| x[0].sum(0, false));
    check_gradients(&x, &|x| x[0].sum(1, true));
    check_gradients(&x, &|x| x[0].mean(1, false));
    check_gradients(&x, &|x| x[0].mean(0, true));
    check_gradients(&x, &|x| x[0].max(1, false));
    check_gradients(&x, &|x| x[0].min(0, true));
    check_gradients(&x, &|x| x[0].var(1, false));
    check_gradients(&x, &|x| x[0].softmax(1));
    check_gradients(&x, &|x| x[0].log_softmax(0));
}

#[test]
fn ties_share_the_gradient() {
    let a = var(&[2.0, 2.0, 1.0, 3.0], &[2, 2]);
    let y = a.max(1, false).unwrap().sum_all().unwrap();
    assert_eq!(vals(y.backward().unwrap().get(&a).unwrap()), vec![0.5, 0.5, 0.0, 1.0]);
}

#[test]
fn positions_have_no_gradient() {
    let a = var(&[2.0, 5.0], &[2]);
    let y = a.argmax(0, false).unwrap();
    assert!(y.backward().unwrap().get(&a).is_none());
}

#[test]
fn gradients_of_products() {
    let pair = vec![(ramp(6), vec![2, 3]), (ramp(12), vec![3, 4])];
    check_gradients(&pair, &|x| x[0].matmul(&x[1]));
    let batch = vec![(ramp(12), vec![2, 2, 3]), (ramp(12), vec![2, 3, 2])];
    check_gradients(&batch, &|x| x[0].matmul(&x[1]));
}

#[test]
fn gradients_of_shape_changes() {
    let x = one(6, &[2, 3]);
    check_gradients(&x, &|x| x[0].reshape((3, 2)));
    check_gradients(&x, &|x| x[0].transpose(0, 1));
    check_gradients(&x, &|x| x[0].narrow(1, 1, 2));
    check_gradients(&x, &|x| x[0].narrow(0, 1, 1));
    check_gradients(&x, &|x| x[0].unsqueeze(1));
    check_gradients(&x, &|x| x[0].flatten(0, 1));
    check_gradients(&x, &|x| x[0].t()?.contiguous());
    check_gradients(&x, &|x| x[0].t()?.reshape(6));
    check_gradients(&x, &|x| x[0].pad(&[[1, 0], [2, 1]], Num(0.5)));
    check_gradients(&x, &|x| x[0].to_dtype(DType::F32)?.to_dtype(DType::F64));
}

#[test]
fn the_gradient_of_a_slice_is_placed_in_zeros() {
    let a = var(&[1.0, 2.0, 3.0, 4.0], &[4]);
    let w = tensor(&[10.0, 20.0], &[2]);
    let y = a.narrow(0, 1, 2).unwrap().mul(&w).unwrap().sum_all().unwrap();
    assert_eq!(vals(y.backward().unwrap().get(&a).unwrap()), vec![0.0, 10.0, 20.0, 0.0]);
}

#[test]
fn gradients_of_joins_and_selections() {
    let pair = vec![(ramp(4), vec![2, 2]), (ramp(6), vec![2, 3])];
    check_gradients(&pair, &|x| Ten::cat(&[x[0].clone(), x[1].clone()], 1));
    let same = vec![(ramp(4), vec![2, 2]), (vec![1.0, 2.0, 3.0, 4.0], vec![2, 2])];
    check_gradients(&same, &|x| Ten::stack(&[x[0].clone(), x[1].clone()], 0));
    check_gradients(&same, &|x| {
        Ten::where_cond(&tensor(&[1.0, 0.0, 0.0, 1.0], &[2, 2]), &x[0], &x[1])
    });
    let x = one(6, &[2, 3]);
    check_gradients(&x, &|x| x[0].gather(1, &tensor(&[2.0, 2.0, 0.0, 1.0], &[2, 2])));
    check_gradients(&x, &|x| x[0].index_select(1, &tensor(&[2.0, 0.0, 2.0], &[3])));
    check_gradients(&x, &|x| x[0].index_select(0, &tensor(&[1.0], &[1])));
}

#[test]
fn gradients_of_convolutions() {
    let xwb = vec![
        (ramp(32), vec![2, 1, 4, 4]),
        (ramp(18), vec![2, 1, 3, 3]),
        (vec![0.5, -0.5], vec![2]),
    ];
    check_gradients(&xwb, &|x| x[0].conv2d(&x[1], Some(&x[2]), [1, 1], [1, 1]));
    check_gradients(&xwb, &|x| x[0].conv2d(&x[1], Some(&x[2]), [2, 1], [0, 1]));
    let channels = vec![(ramp(24), vec![1, 2, 3, 4]), (ramp(8), vec![1, 2, 2, 2])];
    check_gradients(&channels, &|x| x[0].conv2d(&x[1], None, [1, 2], [0, 1]));
    let line = vec![
        (ramp(20), vec![2, 2, 5]),
        (ramp(12), vec![2, 2, 3]),
        (vec![1.0, 2.0], vec![2]),
    ];
    check_gradients(&line, &|x| x[0].conv1d(&x[1], Some(&x[2]), 2, 1));
    check_gradients(&line[..2], &|x| x[0].conv1d(&x[1], None, 1, 0));
}

#[test]
fn gradients_of_pooling() {
    let data: Vec<f64> = (0..32).map(|i| ((i * 7) % 32) as f64 * 0.1).collect();
    let x = vec![(data, vec![1, 2, 4, 4])];
    check_gradients(&x, &|x| x[0].max_pool2d([2, 2], [2, 2], [0, 0]));
    check_gradients(&x, &|x| x[0].max_pool2d([3, 3], [1, 1], [1, 1]));
    check_gradients(&x, &|x| x[0].avg_pool2d([2, 2], [2, 2], [0, 0]));
    check_gradients(&x, &|x| x[0].avg_pool2d([3, 2], [2, 1], [1, 0]));
}

#[test]
fn gradients_stop_at_bad_indices() {
    let a = var(&[1.0, 2.0], &[2]);
    let i = tensor(&[1.0], &[1]);
    let y = a.gather(0, &i).unwrap();
    i.update_data_inplace(&nums(&[7.0])).unwrap();
    assert_eq!(text(y.backward()), "gradient: index out of range");
    let k = tensor(&[0.0], &[1]);
    let z = a.index_select(0, &k).unwrap();
    k.update_data_inplace(&nums(&[7.0])).unwrap();
    assert_eq!(text(z.backward()), "gradient: index out of range");
}

#[test]
fn broadcast_gradients_have_the_shape_of_their_tensor() {
    let g = tensor(&ramp(12), &[2, 3, 2]);
    let r = reduce_broadcast_grad(&g, &Shape::new(vec![3, 1])).unwrap();
    assert_eq!(r.dims(), &[3, 1]);
    let all = vals(&g);
    let want: Vec<f64> =
        (0..3).map(|j| (0..2).map(|i| all[i * 6 + j * 2] + all[i * 6 + j * 2 + 1]).sum()).collect();
    close(&vals(&r), &want);
    match fails(reduce_broadcast_grad(&g, &Shape::new(vec![1, 2, 3, 2]))) {
        Error::RankMismatch { expected, got } => assert_eq!((expected, got), (4, 3)),
        e => panic!("{:?}", e),
    }
}

#[test]
fn spread_gradients_repeat_along_the_reduced_dimension() {
    let x = tensor(&ramp(6), &[2, 3]);
    let g = tensor(&[1.0, 2.0], &[2]);
    let r = expand_grad_for_reduce(&g, &x, &[1]).unwrap();
    assert_eq!((r.dims().to_vec(), vals(&r)), (vec![2, 3], vec![1.0, 1.0, 1.0, 2.0, 2.0, 2.0]));
}

#[test]
fn checkpoints() {
    let x = var(&[1.0, 2.0], &[2]);
    let y = checkpoint(|| x.square(), &[&x]).unwrap();
    assert_eq!(vals(&y), vec![1.0, 4.0]);
    let g = y.sum_all().unwrap().backward().unwrap();
    assert_eq!(vals(g.get(&x).unwrap()), vec![2.0, 4.0]);
    assert_eq!(text(checkpoint(|| x.sum(3, false), &[&x])), text(x.sum(3, false)));
}

#[test]
fn checkpointed_layers_run_in_order() {
    let x = var(&[3.0], &[1]);
    let layers: Vec<fn(&Ten) -> Result<Ten>> = vec![
        |t| t.affine(Num(2.0), Num(0.0)),
        |t| t.affine(Num(1.0), Num(1.0)),
        |t| t.square(),
    ];
    let y = checkpoint_sequential(&x, &layers, 2).unwrap();
    assert_eq!(vals(&y), vec![49.0]);
    // y = (2 x + 1)^2: the gradient passes the boundaries of the segments.
    let g = y.backward().unwrap();
    assert_eq!(vals(g.get(&x).unwrap()), vec![28.0]);
    let start = y.op().inputs()[0].clone();
    assert!(start.is_variable());
    assert_eq!(vals(g.get(&start).unwrap()), vec![14.0]);
    assert_eq!(start.op().inputs().len(), 1);
    let none: Vec<fn(&Ten) -> Result<Ten>> = Vec::new();
    assert_eq!(checkpoint_sequential(&x, &none, 0).unwrap().id(), x.id());
    let bad: Vec<fn(&Ten) -> Result<Ten>> = vec![|t| t.sum(9, false)];
    assert_eq!(text(checkpoint_sequential(&x, &bad, 1)), text(x.sum(9, false)));
}

#[test]
fn checkpoint_mode_is_set_inside_only() {
    let mut mode = CheckpointMode::new();
    assert!(!is_checkpointing(&mode));
    let inside = with_checkpoint_mode(&mut mode, |m| is_checkpointing(&m));
    assert!(inside);
    assert!(!is_checkpointing(&mode));
}

#[test]
fn checkpoint_modes_nest() {
    let mut mode = CheckpointMode::new();
    let outer = with_checkpoint_mode(&mut mode, |m| {
        let mut inner = m;
        assert!(with_checkpoint_mode(&mut inner, |n| is_checkpointing(&n)));
        is_checkpointing(&inner)
    });
    assert!(outer);
    assert!(!is_checkpointing(&mode));
}

#[test]
fn frozen_leaves_get_no_gradient() {
    let a = var(&[1.0, 2.0], &[2]);
    let f = a.freeze();
    let w = var(&[3.0, 4.0], &[2]);
    let y = f.mul(&w).unwrap().sum_all().unwrap();
    let g = y.backward().unwrap();
    assert!(g.get(&f).is_none());
    assert_eq!(vals(g.get(&w).unwrap()), vec![1.0, 2.0]);
    let y = f.unfreeze().mul(&w).unwrap().sum_all().unwrap();
    let g = y.backward().unwrap();
    assert_eq!(vals(g.get(&a).unwrap()), vec![3.0, 4.0]);
    // Data that was never marked is a constant too, in every position.
    let c = tensor(&[5.0, 6.0], &[2]);
    let y = w.div(&c).unwrap().add(&c).unwrap().sub(&c).unwrap().sum_all().unwrap();
    let g = y.backward().unwrap();
    assert!(g.get(&c).is_none());
    assert_eq!(vals(g.get(&w).unwrap()), vec![0.2, 1.0 / 6.0]);
    // Gradients flow through what was computed from variables.
    let s = w.square().unwrap();
    assert!(!s.is_variable());
    let g = s.sum_all().unwrap().backward().unwrap();
    assert_eq!(vals(g.get(&s).unwrap()), vec![1.0, 1.0]);
    assert_eq!(vals(g.get(&w).unwrap()), vec![6.0, 8.0]);
}

#[test]
fn the_gradient_of_a_permutation_is_permuted_back() {
    let x = var(&ramp(6), &[2, 3]);
    let w = [1.0, 2.0, 3.0, 4.0, 5.0, 6.0];
    let y = x.permute(&[1, 0]).unwrap().mul(&tensor(&w, &[3, 2])).unwrap().sum_all().unwrap();
    let g = y.backward().unwrap();
    let gx = g.get(&x).unwrap();
    assert_eq!((gx.dims().to_vec(), vals(gx)), (vec![2, 3], vec![1.0, 3.0, 5.0, 2.0, 4.0, 6.0]));
    assert!(x.permute(&[1, 0]).unwrap().op().to_text().contains("Permute([1, 0]"));
    let z = one(24, &[2, 3, 4]);
    let weights: Vec<f64> = (0..24).map(|k| f64::from(k) - 7.5).collect();
    let w = tensor(&weights, &[4, 2, 3]);
    let x = var(&ramp(24), &[2, 3, 4]);
    let y = x.permute(&[2, 0, 1]).unwrap().mul(&w).unwrap().sum_all().unwrap();
    let g = y.backward().unwrap();
    assert_eq!(vals(g.get(&x).unwrap()), vals(&w.permute(&[1, 2, 0]).unwrap()));
    // The tensor may itself be computed, and the weights be a variable.
    let w = w.set_variable();
    let s = x.square().unwrap();
    let y = s.permute(&[2, 0, 1]).unwrap().mul(&w).unwrap().sum_all().unwrap();
    let g = y.backward().unwrap();
    assert_eq!(vals(g.get(&s).unwrap()), vals(&w.permute(&[1, 2, 0]).unwrap()));
    assert_eq!(vals(g.get(&w).unwrap()), vals(&s.permute(&[2, 0, 1]).unwrap()));
    check_gradients(&z, &|x| x[0].permute(&[2, 0, 1]));
    check_gradients(&z, &|x| x[0].permute(&[1, 2, 0])?.square());
    check_gradients(&z, &|x| x[0].permute(&[0, 1, 2]));
}

#[test]
fn one_row_convolutions() {
    let x = tensor(&ramp(20), &[2, 2, 5]);
    let w = tensor(&[0.5, -1.0, 2.0, 1.5, 0.0, -0.5, 1.0, 1.0, 2.0, -2.0, 0.25, 3.0], &[2, 2, 3]);
    let b = tensor(&[10.0, 20.0], &[2]);
    let y = x.conv1d(&w, Some(&b), 2, 1).unwrap();
    let x2 = x.reshape((2, 2, 1, 5)).unwrap();
    let w2 = w.reshape((2, 2, 1, 3)).unwrap();
    let y2 = x2.conv2d(&w2, Some(&b), [1, 2], [0, 1]).unwrap();
    assert_eq!((y.dims(), y2.dims()), (&[2, 2, 3][..], &[2, 2, 1, 3][..]));
    assert_eq!(vals(&y), vals(&y2));
}

#[test]
fn shapes_without_elements() {
    let big = usize::MAX;
    let wide = Shape::new(vec![big, 0, big]);
    let a = Ten::zeros(wide.clone(), DType::F64, &Dev::Sound).unwrap();
    assert_eq!((a.elem_count(), a.dims()), (0, &[big, 0, big][..]));
    assert!(a.is_contiguous());
    let b = Ten::from_f64_slice(&nums(&[]), wide.clone(), DType::F64, &Dev::Sound).unwrap();
    assert!(vals(&b).is_empty());
    for d in 0..3 {
        assert!(vals(&b.cumsum(d).unwrap()).is_empty());
        assert!(vals(&b.sort(d, true).unwrap().1).is_empty());
    }
    let (top, places) = b.topk(3, 0).unwrap();
    assert_eq!((top.dims(), places.len()), (&[3, 0, big][..], 0));
    // The order of the sizes decides whether the strides are machine numbers.
    let turned = b.permute(&[1, 0, 2]).unwrap();
    assert_eq!((turned.dims(), turned.elem_count()), (&[0, big, big][..], 0));
    assert!(!turned.is_contiguous());
    let large = "tensor exceeds the address space";
    assert_eq!(text(turned.contiguous()), large);
    assert_eq!(text(turned.flatten(1, 2)), large);
    assert_eq!(text(Ten::zeros((0, big, big), DType::F64, &Dev::Sound)), large);
    assert_eq!(text(Ten::zeros((big, 2), DType::F64, &Dev::Sound)), large);
    assert_eq!(text(b.sum(1, false)), large);
}

#[test]
fn records_describe_themselves() {
    let a = tensor(&[1.0, 2.0], &[2]);
    assert_eq!(a.op().to_text(), "None");
    let text = a.affine(Num(2.0), Num(0.5)).unwrap().op().to_text();
    assert!(text.starts_with("Affine(*2 +0.5, id="), "{}", text);
    assert!(a.powf(Num(3.0)).unwrap().op().to_text().starts_with("Powf(exp=3, id="));
    let text = a.clamp(Num(-1.0), Num(1.5)).unwrap().op().to_text();
    assert!(text.starts_with("Clamp(min=-1, max=1.5, id="), "{}", text);
    assert!(a.to_string_with_data().unwrap().ends_with("data=[1.0, 2.0])"));
    let b = a.narrow(0, 1, 1).unwrap();
    assert!(b.op().to_text().contains("Narrow"), "{}", b.op().to_text());
    assert_eq!(b.op().inputs()[0].id(), a.id());
}
