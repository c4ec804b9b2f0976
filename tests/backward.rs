use corgi::array::{Array, ArrayError, Arrays};
use corgi::graph::Graph;

fn v(values: &[i64]) -> Array {
    Arrays::new(values.to_vec()).unwrap()
}

fn m(parts: Vec<Array>) -> Array {
    Arrays::new(parts).unwrap()
}

fn add(g: &mut Graph, a: &Array, b: &Array) -> Array {
    Array::add(g, a, b).unwrap()
}

fn mul(g: &mut Graph, a: &Array, b: &Array) -> Array {
    Array::mul(g, a, b).unwrap()
}

#[test]
fn test_propagate_consumers() {
    let mut g = Graph::new();
    let a = v(&[5]).track(&mut g);
    let b = v(&[2]).track(&mut g);

    let product = mul(&mut g, &a, &b);
    let sum = add(&mut g, &product, &a);

    let counts = sum.propagate_consumers(&g);
    assert_eq!(counts[product.node_id().unwrap()], 1);
    assert_eq!(counts[b.node_id().unwrap()], 1);
    assert_eq!(counts[a.node_id().unwrap()], 2);
}

#[test]
fn test_backward_op() {
    let mut g = Graph::new();
    let a = v(&[5]).track(&mut g);
    let b = v(&[2]).track(&mut g);

    let product = mul(&mut g, &a, &b);
    product.backward(&mut g, Some(v(&[1]))).unwrap();
    let result = vec![a.gradient(&g).unwrap(), b.gradient(&g).unwrap()];
    assert_eq!(result.len(), 2);
    assert_eq!(result, vec![v(&[2]), v(&[5])]);
}

#[test]
fn test_backward_matmul_vec() {
    let mut g = Graph::new();
    let a = m(vec![v(&[1, 2, 3])]).track(&mut g);
    let b = m(vec![v(&[9, 8, 7])]).track(&mut g);

    let result = Array::matmul(&mut g, &a, &b, false, true).unwrap();
    result.backward(&mut g, None).unwrap();
}

#[test]
fn test_backward_matmul_vec_multi() {
    let mut g = Graph::new();
    let a = m(vec![v(&[1, 2, 3]), v(&[4, 5, 6])]).track(&mut g);
    let b = m(vec![v(&[1]), v(&[2]), v(&[3])]).track(&mut g);
    let c = m(vec![v(&[7]), v(&[8])]).track(&mut g);

    let ab = Array::matmul(&mut g, &a, &b, false, false).unwrap();
    let result = add(&mut g, &ab, &c);
    result.backward(&mut g, None).unwrap();
    assert_eq!(result.gradient(&g).unwrap(), m(vec![v(&[1]), v(&[1])]));
    assert_eq!(c.gradient(&g).unwrap(), m(vec![v(&[1]), v(&[1])]));
    assert_eq!(b.gradient(&g).unwrap(), m(vec![v(&[5]), v(&[7]), v(&[9])]));
    assert_eq!(a.gradient(&g).unwrap(), m(vec![v(&[1, 2, 3]), v(&[1, 2, 3])]));
}

#[test]
fn test_backward_matmul_multi() {
    let mut g = Graph::new();
    let a = m(vec![v(&[1, 2, 3]), v(&[4, 5, 6])]).track(&mut g);
    let b = m(vec![v(&[1]), v(&[2]), v(&[3])]).track(&mut g);
    let c = m(vec![v(&[1, 2, 3])]).track(&mut g);

    let ab = Array::matmul(&mut g, &a, &b, false, false).unwrap();
    let result = Array::matmul(&mut g, &ab, &c, false, false).unwrap();
    result.backward(&mut g, None).unwrap();
    assert_eq!(result.gradient(&g).unwrap(), m(vec![v(&[1, 1, 1]), v(&[1, 1, 1])]));
    assert_eq!(c.gradient(&g).unwrap(), m(vec![v(&[46, 46, 46])]));
    assert_eq!(b.gradient(&g).unwrap(), m(vec![v(&[30]), v(&[42]), v(&[54])]));
    assert_eq!(a.gradient(&g).unwrap(), m(vec![v(&[6, 12, 18]), v(&[6, 12, 18])]));
}

#[test]
fn test_backward_repeat() {
    let mut g = Graph::new();
    let a = v(&[5]).track(&mut g);
    let b = v(&[2]).track(&mut g);

    let product = mul(&mut g, &a, &b);
    product.backward(&mut g, None).unwrap();
    assert_eq!(product.backward(&mut g, None), Err(ArrayError::DoubleBackward));
    assert_eq!(a.gradient(&g).unwrap(), v(&[2]));

    g.clear_gradients();
    product.backward(&mut g, Some(v(&[3]))).unwrap();
    assert_eq!(a.gradient(&g).unwrap(), v(&[6]));
    assert_eq!(b.gradient(&g).unwrap(), v(&[15]));
}

#[test]
fn test_backward_control_flow() {
    let mut g = Graph::new();
    let a = v(&[5]).track(&mut g);
    let b = v(&[2]).track(&mut g);
    let mut c = v(&[0]).track(&mut g);

    for _ in 0..10 {
        let ab = mul(&mut g, &a, &b);
        c = add(&mut g, &c, &ab);
        if c.values()[0] > 50 {
            c = mul(&mut g, &c, &a);
        }
    }

    c.backward(&mut g, None).unwrap();
    assert_eq!(c, v(&[195300]));
    assert_eq!(c.gradient(&g).unwrap(), v(&[1]));
    assert_eq!(b.gradient(&g).unwrap(), v(&[97650]));
    assert_eq!(a.gradient(&g).unwrap(), v(&[232420]));
}

#[test]
fn test_backward_dimensions() {
    let mut g = Graph::new();
    let a = m(vec![v(&[5, 2]), v(&[3, 1])]).track(&mut g);
    let b = m(vec![v(&[6, 3]), v(&[7, 8])]).track(&mut g);
    let c = mul(&mut g, &a, &b);
    c.backward(&mut g, None).unwrap();

    assert_eq!(c.gradient(&g).unwrap(), m(vec![v(&[1, 1]), v(&[1, 1])]));
    assert_eq!(b.gradient(&g).unwrap(), m(vec![v(&[5, 2]), v(&[3, 1])]));
    assert_eq!(a.gradient(&g).unwrap(), m(vec![v(&[6, 3]), v(&[7, 8])]));
}

#[test]
fn test_backward_multi() {
    let mut g = Graph::new();
    let a = v(&[5, 2]).track(&mut g);
    let b = v(&[6, 3]).track(&mut g);
    let c = mul(&mut g, &a, &b);
    let d = add(&mut g, &c, &a);
    let e = mul(&mut g, &a, &d);
    e.backward(&mut g, None).unwrap();

    assert_eq!(a.gradient(&g).unwrap(), v(&[70, 16]));
    assert_eq!(b.gradient(&g).unwrap(), v(&[25, 4]));
    assert_eq!(c.gradient(&g).unwrap(), v(&[5, 2]));
    assert_eq!(d.gradient(&g).unwrap(), v(&[5, 2]));
    assert_eq!(e.gradient(&g).unwrap(), v(&[1, 1]));
}

#[test]
fn test_backward_intermediate() {
    let mut g = Graph::new();
    let a = v(&[1, 2]).track(&mut g);
    let b = v(&[5, 3]).track(&mut g);
    let ab = mul(&mut g, &a, &b);
    let ab_a = add(&mut g, &ab, &a);
    let c = mul(&mut g, &ab_a, &b);
    let product = mul(&mut g, &c, &a);
    product.backward(&mut g, None).unwrap();

    assert_eq!(a.gradient(&g).unwrap(), v(&[60, 48]));
    assert_eq!(b.gradient(&g).unwrap(), v(&[11, 28]));
    assert_eq!(c.gradient(&g).unwrap(), v(&[1, 2]));
    assert_eq!(product.gradient(&g).unwrap(), v(&[1, 1]));
}

#[test]
fn test_backward_poisoned() {
    let mut g = Graph::new();
    let a = v(&[3, 4]).track(&mut g);
    let b = v(&[5, 6]).track(&mut g);
    let product = mul(&mut g, &a, &b);

    // A copy of `a` that leaves the graph does not change what was recorded.
    let mut detached = a.clone();
    detached.stop_tracking();
    let other = add(&mut g, &detached, &detached);
    assert!(!other.is_tracked());

    product.backward(&mut g, None).unwrap();
    assert_eq!(a.gradient(&g).unwrap(), v(&[5, 6]));
    assert_eq!(b.gradient(&g).unwrap(), v(&[3, 4]));
    assert_eq!(detached.gradient(&g), None);
}

#[test]
fn untracked_operands_record_nothing() {
    let mut g = Graph::new();
    let a = v(&[1, 2]);
    let b = v(&[3, 4]);
    let c = mul(&mut g, &a, &b);
    assert_eq!(g.len(), 0);
    assert!(!c.is_tracked());
    assert_eq!(c.backward(&mut g, None), Ok(()));
    assert_eq!(c.gradient(&g), None);
}

#[test]
fn untracked_operand_gets_no_gradient() {
    let mut g = Graph::new();
    let a = v(&[1, 2]).track(&mut g);
    let b = v(&[3, 4]);
    let c = mul(&mut g, &a, &b);
    c.backward(&mut g, None).unwrap();
    assert_eq!(a.gradient(&g).unwrap(), v(&[3, 4]));
    assert_eq!(b.gradient(&g), None);
}

#[test]
fn seed_with_other_shape_is_rejected() {
    let mut g = Graph::new();
    let a = v(&[1, 2]).track(&mut g);
    let b = v(&[3, 4]).track(&mut g);
    let c = add(&mut g, &a, &b);
    assert_eq!(c.backward(&mut g, Some(v(&[1, 1, 1]))), Err(ArrayError::ShapeMismatch));
    assert_eq!(a.gradient(&g), None);
}

#[test]
fn start_tracking_makes_a_leaf() {
    let mut g = Graph::new();
    let mut a = v(&[2, 3]);
    assert!(!a.is_tracked());
    a.start_tracking(&mut g);
    assert!(a.is_tracked());
    assert_eq!(g.len(), 1);
    let c = mul(&mut g, &a, &a);
    c.backward(&mut g, None).unwrap();
    assert_eq!(a.gradient(&g).unwrap(), v(&[4, 6]));
}
