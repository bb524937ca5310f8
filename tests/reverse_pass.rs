use candle_core::{Device, Tensor};
use tape_autodiff::backend::ElemType;
use tape_autodiff::graph::{Label, Op, Var};
use tape_autodiff::tape::{Ops, TapeError};

fn scalar(ops: &mut Ops, x: f64) -> Var {
    ops.var(Tensor::new(x, &Device::Cpu).unwrap())
}

fn read(ops: &Ops, v: Var) -> f64 {
    ops.value(v).to_scalar::<f64>().unwrap()
}

fn read_vec(ops: &Ops, v: Var) -> Vec<f64> {
    ops.value(v).to_vec1::<f64>().unwrap()
}

fn grad_value(ops: &Ops, v: Var) -> f64 {
    let g = ops.gradient(v).expect("gradient present");
    read(ops, g)
}

#[test]
fn add_passes_ones_to_both_inputs() {
    for (x, y) in [(2.0, 3.0), (-7.5, 0.25), (0.0, 0.0)] {
        let mut ops = Ops::new();
        let a = scalar(&mut ops, x);
        let b = scalar(&mut ops, y);
        let c = ops.add(a, b).unwrap();
        assert_eq!(read(&ops, c), x + y);
        ops.grad(c, &[a, b]).unwrap();
        assert_eq!(grad_value(&ops, a), 1.0);
        assert_eq!(grad_value(&ops, b), 1.0);
        assert_eq!(ops.gradient(a), ops.gradient(b));
    }
}

#[test]
fn product_rule() {
    let mut ops = Ops::new();
    let a = scalar(&mut ops, 2.0);
    let b = scalar(&mut ops, 3.0);
    let c = ops.mul(a, b).unwrap();
    assert_eq!(read(&ops, c), 6.0);
    ops.grad(c, &[a, b]).unwrap();
    assert_eq!(grad_value(&ops, a), 3.0);
    assert_eq!(grad_value(&ops, b), 2.0);
}

#[test]
fn composite_scalar_example() {
    let mut ops = Ops::new();
    let a = scalar(&mut ops, 2.0);
    let b = scalar(&mut ops, 3.0);
    let t = ops.add(a, b).unwrap();
    let l = ops.mul(t, b).unwrap();
    assert_eq!(read(&ops, t), 5.0);
    assert_eq!(read(&ops, l), 15.0);
    ops.grad(l, &[a, b]).unwrap();
    assert_eq!(grad_value(&ops, a), 3.0);
    assert_eq!(grad_value(&ops, b), 8.0);
}

#[test]
fn second_order_through_the_backward_pass() {
    let mut ops = Ops::new();
    let a = scalar(&mut ops, 2.0);
    let b = scalar(&mut ops, 3.0);
    let t = ops.add(a, b).unwrap();
    let l = ops.mul(t, b).unwrap();
    ops.grad(l, &[a, b]).unwrap();
    let da = ops.gradient(a).unwrap();
    let db = ops.gradient(b).unwrap();
    assert_eq!(read(&ops, da), 3.0);
    assert_eq!(read(&ops, db), 8.0);
    // da = b and db = a + 2b, so l2 = b * (a + 2b).
    let l2 = ops.mul(da, db).unwrap();
    assert_eq!(read(&ops, l2), 24.0);
    ops.grad(l2, &[a, b]).unwrap();
    assert_eq!(grad_value(&ops, a), 3.0);
    assert_eq!(grad_value(&ops, b), 14.0);
}

#[test]
fn unused_node_gets_no_gradient() {
    let mut ops = Ops::new();
    let a = scalar(&mut ops, 2.0);
    let b = scalar(&mut ops, 3.0);
    let unused = scalar(&mut ops, 4.0);
    let c = ops.mul(a, b).unwrap();
    let later = ops.add(a, unused).unwrap();
    ops.grad(c, &[a, unused, later]).unwrap();
    assert_eq!(grad_value(&ops, a), 3.0);
    assert_eq!(ops.gradient(unused), None);
    assert_eq!(ops.gradient(later), None);
}

#[test]
fn sum_gradient_is_ones_of_input_shape() {
    let mut ops = Ops::new();
    let a = ops.var(Tensor::new(&[1.5f64, -2.0, 4.0, 0.5], &Device::Cpu).unwrap());
    let s = ops.sum(a, None).unwrap();
    assert_eq!(read(&ops, s), 4.0);
    ops.grad(s, &[a]).unwrap();
    let g = ops.gradient(a).unwrap();
    assert_eq!(ops.value(g).dims(), &[4]);
    assert_eq!(read_vec(&ops, g), vec![1.0, 1.0, 1.0, 1.0]);
}

#[test]
fn expand_gradient_sums_back() {
    let mut ops = Ops::new();
    let a = scalar(&mut ops, 2.0);
    let e = ops.expand(a, &[3]).unwrap();
    assert_eq!(read_vec(&ops, e), vec![2.0, 2.0, 2.0]);
    assert!(matches!(ops.op(e), Op::Expand(0, s) if s == &vec![3usize]));
    let s = ops.sum(e, Some("total")).unwrap();
    assert_eq!(read(&ops, s), 6.0);
    ops.grad(s, &[a]).unwrap();
    assert_eq!(grad_value(&ops, a), 3.0);
}

#[test]
fn gradient_read_twice_is_the_same() {
    let mut ops = Ops::new();
    let a = scalar(&mut ops, 2.0);
    let b = scalar(&mut ops, 3.0);
    let c = ops.mul(a, b).unwrap();
    ops.grad(c, &[a]).unwrap();
    let first = ops.gradient(a);
    let second = ops.gradient(a);
    assert_eq!(first, second);
    assert_eq!(read(&ops, first.unwrap()), read(&ops, second.unwrap()));
}

#[test]
fn accumulation_order_does_not_matter() {
    let mut ops = Ops::new();
    let x = scalar(&mut ops, 0.1);
    let y = scalar(&mut ops, 0.7);
    let xy = ops.add(x, y).unwrap();
    let yx = ops.add(y, x).unwrap();
    assert_eq!(read(&ops, xy), read(&ops, yx));
    // b reaches l along two paths, in either order of the operands.
    let mut ops = Ops::new();
    let a = scalar(&mut ops, 2.0);
    let b = scalar(&mut ops, 3.0);
    let t = ops.add(b, a).unwrap();
    let l = ops.mul(b, t).unwrap();
    ops.grad(l, &[a, b]).unwrap();
    assert_eq!(grad_value(&ops, a), 3.0);
    assert_eq!(grad_value(&ops, b), 8.0);
}

#[test]
fn output_gradient_is_ones() {
    let mut ops = Ops::new();
    let a = scalar(&mut ops, 5.0);
    let b = scalar(&mut ops, 3.0);
    let c = ops.mul(a, b).unwrap();
    let before = ops.len();
    ops.grad(c, &[c]).unwrap();
    let g = ops.gradient(c).unwrap();
    assert_eq!(g.index, before);
    assert_eq!(ops.op(g), &Op::Ones(c.index));
    assert_eq!(read(&ops, g), 1.0);
}

#[test]
fn node_asked_for_twice_ends_empty() {
    let mut ops = Ops::new();
    let a = scalar(&mut ops, 2.0);
    let b = scalar(&mut ops, 3.0);
    let c = ops.mul(a, b).unwrap();
    ops.grad(c, &[a, a, b]).unwrap();
    assert_eq!(ops.gradient(a), None);
    assert_eq!(grad_value(&ops, b), 2.0);
}

#[test]
fn later_pass_overwrites_only_what_it_asks_for() {
    let mut ops = Ops::new();
    let a = scalar(&mut ops, 2.0);
    let b = scalar(&mut ops, 3.0);
    let c = ops.mul(a, b).unwrap();
    ops.grad(c, &[a, b]).unwrap();
    let d = ops.add(a, a).unwrap();
    ops.grad(d, &[a]).unwrap();
    assert_eq!(grad_value(&ops, a), 2.0);
    assert_eq!(grad_value(&ops, b), 2.0);
}

#[test]
fn mismatched_shapes_are_reported() {
    let mut ops = Ops::new();
    let a = ops.var(Tensor::new(&[1.0f64, 2.0], &Device::Cpu).unwrap());
    let b = ops.var(Tensor::new(&[1.0f64, 2.0, 3.0], &Device::Cpu).unwrap());
    let before = ops.len();
    assert!(matches!(ops.mul(a, b), Err(TapeError::Backend(_))));
    assert!(matches!(ops.add(a, b), Err(TapeError::Backend(_))));
    assert!(matches!(ops.expand(b, &[2]), Err(TapeError::Backend(_))));
    assert_eq!(ops.len(), before);
}

#[test]
fn labels_follow_the_counter() {
    let mut ops = Ops::new();
    let a = ops.named_var(Tensor::new(1.0f64, &Device::Cpu).unwrap(), "a");
    let v0 = scalar(&mut ops, 2.0);
    let v1 = ops.add(a, v0).unwrap();
    let total = ops.sum(v1, Some("L")).unwrap();
    let v2 = ops.sum(v1, None).unwrap();
    assert_eq!(ops.label(a), &Label::Named("a".to_string()));
    assert_eq!(ops.label(v0), &Label::Anonymous(0));
    assert_eq!(ops.label(v1), &Label::Anonymous(1));
    assert_eq!(ops.label(total), &Label::Named("L".to_string()));
    assert_eq!(ops.label(v2), &Label::Anonymous(2));
    assert_eq!(ops.op(v1), &Op::Add(a.index, v0.index));
    assert_eq!(ops.op(a), &Op::Leaf);
}

#[test]
fn tensor_session_second_order() {
    let xa = [0.4605f64, 0.4061, 0.9422, 0.3946];
    let xb = [0.0850f64, 0.3296, 0.9888, 0.6494];
    let mut ops = Ops::new();
    let a = ops.named_var(Tensor::new(&xa, &Device::Cpu).unwrap(), "a");
    let b = ops.named_var(Tensor::new(&xb, &Device::Cpu).unwrap(), "b");
    let t = ops.add(a, b).unwrap();
    let m = ops.mul(t, b).unwrap();
    let l0 = ops.sum(m, Some("L0")).unwrap();
    ops.grad(l0, &[a, b]).unwrap();
    let da = ops.gradient(a).unwrap();
    let db = ops.gradient(b).unwrap();
    let got_da = read_vec(&ops, da);
    let got_db = read_vec(&ops, db);
    for i in 0..4 {
        assert!((got_da[i] - xb[i]).abs() < 1e-12);
        assert!((got_db[i] - (xa[i] + 2.0 * xb[i])).abs() < 1e-12);
    }
    let sa = ops.mul(da, da).unwrap();
    let sb = ops.mul(db, db).unwrap();
    let s = ops.add(sa, sb).unwrap();
    let l1 = ops.sum(s, Some("L1")).unwrap();
    ops.grad(l1, &[a, b]).unwrap();
    let g1a = read_vec(&ops, ops.gradient(a).unwrap());
    let g1b = read_vec(&ops, ops.gradient(b).unwrap());
    for i in 0..4 {
        assert!((g1a[i] - 2.0 * (xa[i] + 2.0 * xb[i])).abs() < 1e-12);
        assert!((g1b[i] - (4.0 * xa[i] + 10.0 * xb[i])).abs() < 1e-12);
    }
}

#[test]
fn product_gradients_are_seed_times_other_input() {
    let mut ops = Ops::new();
    let a = scalar(&mut ops, 2.0);
    let b = scalar(&mut ops, 3.0);
    let c = ops.mul(a, b).unwrap();
    let seed = ops.len();
    ops.grad(c, &[a, b]).unwrap();
    assert_eq!(ops.op(Var { index: seed }), &Op::Ones(c.index));
    let ga = ops.gradient(a).unwrap();
    let gb = ops.gradient(b).unwrap();
    assert_eq!(ops.op(ga), &Op::Mul(seed, b.index));
    assert_eq!(ops.op(gb), &Op::Mul(seed, a.index));
}

#[test]
fn composite_gradients_have_the_expected_shape() {
    let mut ops = Ops::new();
    let a = scalar(&mut ops, 2.0);
    let b = scalar(&mut ops, 3.0);
    let t = ops.add(a, b).unwrap();
    let l = ops.mul(t, b).unwrap();
    let seed = ops.len();
    ops.grad(l, &[a, b]).unwrap();
    let ga = ops.gradient(a).unwrap();
    let gb = ops.gradient(b).unwrap();
    assert_eq!(ops.op(ga), &Op::Mul(seed, b.index));
    match ops.op(gb) {
        Op::Add(y, z) => {
            assert_eq!(ops.op(Var { index: *y }), &Op::Mul(seed, t.index));
            assert_eq!(*z, ga.index);
        }
        other => panic!("unexpected gradient node {:?}", other),
    }
}

#[test]
fn sum_gradient_expands_the_seed() {
    let mut ops = Ops::new();
    let a = ops.var(Tensor::new(&[[1.0f64, 2.0], [3.0, 4.0]], &Device::Cpu).unwrap());
    let s = ops.sum(a, None).unwrap();
    let seed = ops.len();
    ops.grad(s, &[a]).unwrap();
    let g = ops.gradient(a).unwrap();
    assert!(matches!(ops.op(g), Op::Expand(x, shape) if *x == seed && shape == &vec![2usize, 2]));
    assert_eq!(ops.value(g).dims(), &[2, 2]);
    assert_eq!(ops.value(g).to_vec2::<f64>().unwrap(), vec![vec![1.0, 1.0], vec![1.0, 1.0]]);
}

#[test]
fn add_passes_ones_to_independent_computed_inputs() {
    let mut ops = Ops::new();
    let x = scalar(&mut ops, 2.0);
    let y = scalar(&mut ops, 5.0);
    let z = scalar(&mut ops, -1.0);
    let a = ops.mul(x, y).unwrap();
    let b = ops.add(z, z).unwrap();
    let c = ops.add(a, b).unwrap();
    let seed = ops.len();
    ops.grad(c, &[a, b, x, z]).unwrap();
    assert_eq!(ops.gradient(a), Some(Var { index: seed }));
    assert_eq!(ops.gradient(b), Some(Var { index: seed }));
    assert_eq!(grad_value(&ops, a), 1.0);
    assert_eq!(grad_value(&ops, b), 1.0);
    assert_eq!(grad_value(&ops, x), 5.0);
    assert_eq!(grad_value(&ops, z), 2.0);
}

#[test]
fn expand_succeeds_exactly_on_broadcastable_shapes() {
    let mut ops = Ops::new();
    let a = ops.var(Tensor::new(&[[1.0f64], [2.0]], &Device::Cpu).unwrap());
    let e = ops.expand(a, &[3, 2, 4]).unwrap();
    assert_eq!(ops.value(e).dims(), &[3, 2, 4]);
    let before = ops.len();
    assert!(matches!(ops.expand(a, &[2]), Err(TapeError::Backend(_))));
    assert!(matches!(ops.expand(a, &[3, 4]), Err(TapeError::Backend(_))));
    assert_eq!(ops.len(), before);
}

#[test]
fn sum_of_a_computed_node_gets_ones() {
    let mut ops = Ops::new();
    let a = ops.var(Tensor::new(&[1.0f64, 2.0, 3.0], &Device::Cpu).unwrap());
    let b = ops.var(Tensor::new(&[4.0f64, 5.0, 6.0], &Device::Cpu).unwrap());
    let m = ops.mul(a, b).unwrap();
    let s = ops.sum(m, None).unwrap();
    ops.grad(s, &[m, a]).unwrap();
    assert_eq!(read_vec(&ops, ops.gradient(m).unwrap()), vec![1.0, 1.0, 1.0]);
    assert_eq!(read_vec(&ops, ops.gradient(a).unwrap()), vec![4.0, 5.0, 6.0]);
}

#[test]
fn shape_and_element_type_are_reported() {
    let mut ops = Ops::new();
    let a = ops.var(Tensor::new(&[[1.0f64, 2.0, 3.0]], &Device::Cpu).unwrap());
    let b = ops.var(Tensor::new(&[1u32, 2], &Device::Cpu).unwrap());
    let s = ops.sum(a, None).unwrap();
    assert_eq!(ops.shape(a), vec![1, 3]);
    assert_eq!(ops.shape(s), Vec::<usize>::new());
    assert_eq!(ops.elem_type(a), ElemType::F64);
    assert_eq!(ops.elem_type(b), ElemType::U32);
    assert!(ops.on_cpu(a));
    let e = ops.expand(s, &[2, 2]).unwrap();
    assert_eq!(ops.shape(e), vec![2, 2]);
    assert_eq!(ops.elem_type(e), ElemType::F64);
}
