use corgi::array::{Array, Arrays};
use corgi::graph::Graph;

fn v(values: &[i64]) -> Array {
    Arrays::new(values.to_vec()).unwrap()
}

fn m(parts: Vec<Array>) -> Array {
    Arrays::new(parts).unwrap()
}

#[test]
fn gradient_keeps_the_shape_of_each_array() {
    let mut g = Graph::new();
    let a = m(vec![v(&[1, 2, 3])]).track(&mut g);
    let b = m(vec![v(&[9, 8, 7])]).track(&mut g);
    let c = Array::matmul(&mut g, &a, &b, false, true).unwrap();
    assert_eq!(*c.dimensions(), vec![1, 1]);
    c.backward(&mut g, None).unwrap();
    assert_eq!(a.gradient(&g).unwrap(), m(vec![v(&[9, 8, 7])]));
    assert_eq!(b.gradient(&g).unwrap(), m(vec![v(&[1, 2, 3])]));
}

#[test]
fn backward_without_seed_is_backward_with_ones() {
    let run = |seed: Option<Array>| {
        let mut g = Graph::new();
        let a = m(vec![v(&[1, 2]), v(&[3, 4])]).track(&mut g);
        let b = m(vec![v(&[5, 6]), v(&[7, 8])]).track(&mut g);
        let p = Array::matmul(&mut g, &a, &b, false, false).unwrap();
        let c = Array::mul(&mut g, &p, &a).unwrap();
        c.backward(&mut g, seed).unwrap();
        (a.gradient(&g).unwrap(), b.gradient(&g).unwrap())
    };
    let ones = m(vec![v(&[1, 1]), v(&[1, 1])]);
    assert_eq!(run(None), run(Some(ones)));
}

#[test]
fn sum_passes_the_seed_to_both_operands() {
    let mut g = Graph::new();
    let a = v(&[1, 2, 3]).track(&mut g);
    let b = v(&[4, 5, 6]).track(&mut g);
    let c = Array::add(&mut g, &a, &b).unwrap();
    c.backward(&mut g, Some(v(&[7, -8, 9]))).unwrap();
    assert_eq!(a.gradient(&g).unwrap(), v(&[7, -8, 9]));
    assert_eq!(b.gradient(&g).unwrap(), v(&[7, -8, 9]));
}

#[test]
fn product_passes_the_other_operand_times_the_seed() {
    let mut g = Graph::new();
    let a = v(&[1, 2, 3]).track(&mut g);
    let b = v(&[4, 5, 6]).track(&mut g);
    let c = Array::mul(&mut g, &a, &b).unwrap();
    c.backward(&mut g, Some(v(&[2, 0, -1]))).unwrap();
    assert_eq!(a.gradient(&g).unwrap(), v(&[8, 0, -6]));
    assert_eq!(b.gradient(&g).unwrap(), v(&[2, 0, -3]));
}

#[test]
fn matmul_gradients_are_the_adjoint_products() {
    let mut g = Graph::new();
    let a = m(vec![v(&[1, 2, 3]), v(&[4, 5, 6])]).track(&mut g);
    let b = m(vec![v(&[5, 3]), v(&[2, 6]), v(&[1, 2])]).track(&mut g);
    let c = Array::matmul(&mut g, &a, &b, false, false).unwrap();
    let seed = m(vec![v(&[1, 2]), v(&[3, 4])]);
    c.backward(&mut g, Some(seed.clone())).unwrap();

    let mut plain = Graph::new();
    let ga = Array::matmul(&mut plain, &seed, &b, false, true).unwrap();
    let gb = Array::matmul(&mut plain, &a, &seed, true, false).unwrap();
    assert_eq!(a.gradient(&g).unwrap(), ga);
    assert_eq!(b.gradient(&g).unwrap(), gb);
    assert_eq!(ga, m(vec![v(&[11, 14, 5]), v(&[27, 30, 11])]));
    assert_eq!(gb, m(vec![v(&[13, 18]), v(&[17, 24]), v(&[21, 30])]));
}

#[test]
fn matmul_adjoint_keeps_a_single_row() {
    let mut g = Graph::new();
    let a = m(vec![v(&[1, 2, 3])]).track(&mut g);
    let b = m(vec![v(&[5, 3]), v(&[2, 6]), v(&[1, 2])]).track(&mut g);
    let c = Array::matmul(&mut g, &a, &b, false, false).unwrap();
    assert_eq!(c, m(vec![v(&[12, 21])]));
    let seed = m(vec![v(&[1, 2])]);
    c.backward(&mut g, Some(seed.clone())).unwrap();

    let mut plain = Graph::new();
    assert_eq!(a.gradient(&g).unwrap(), Array::matmul(&mut plain, &seed, &b, false, true).unwrap());
    assert_eq!(b.gradient(&g).unwrap(), Array::matmul(&mut plain, &a, &seed, true, false).unwrap());
    assert_eq!(a.gradient(&g).unwrap(), m(vec![v(&[11, 14, 5])]));
}

#[test]
fn unroll_then_roll_without_overlap_is_identity() {
    let mut g = Graph::new();
    let a = m(vec![
        m(vec![v(&[1, 2, 3]), v(&[4, 5, 6])]),
        m(vec![v(&[7, 8, 9]), v(&[10, 11, 12])]),
    ]);
    let single = Array::unroll_blocks(&mut g, &a, (1, 1), (1, 1)).unwrap();
    assert_eq!(*single.dimensions(), vec![6, 2]);
    let back = Array::roll_blocks(&mut g, &single, (2, 2, 3), (1, 1), (1, 1)).unwrap();
    assert_eq!(back, a);

    let whole = Array::unroll_blocks(&mut g, &a, (1, 1), (2, 3)).unwrap();
    assert_eq!(*whole.dimensions(), vec![1, 12]);
    let back = Array::roll_blocks(&mut g, &whole, (2, 2, 3), (1, 1), (2, 3)).unwrap();
    assert_eq!(back, a);
}

#[test]
fn unroll_then_roll_with_stride_equal_to_filter_is_identity() {
    let mut g = Graph::new();
    let a = m(vec![m(vec![
        v(&[1, 2, 3, 4]),
        v(&[5, 6, 7, 8]),
        v(&[9, 10, 11, 12]),
        v(&[13, 14, 15, 16]),
    ])]);
    let u = Array::unroll_blocks(&mut g, &a, (2, 2), (2, 2)).unwrap();
    assert_eq!(u, m(vec![v(&[1, 2, 5, 6]), v(&[3, 4, 7, 8]), v(&[9, 10, 13, 14]), v(&[11, 12, 15, 16])]));
    let back = Array::roll_blocks(&mut g, &u, (1, 4, 4), (2, 2), (2, 2)).unwrap();
    assert_eq!(back, a);
}

#[test]
fn scalar_chain_with_reuse() {
    let mut g = Graph::new();
    let a = v(&[5]).track(&mut g);
    let b = v(&[2]).track(&mut g);
    let p = Array::mul(&mut g, &a, &b).unwrap();
    let s = Array::add(&mut g, &p, &a).unwrap();
    s.backward(&mut g, None).unwrap();
    assert_eq!(s.gradient(&g).unwrap(), v(&[1]));
    assert_eq!(p.gradient(&g).unwrap(), v(&[1]));
    assert_eq!(b.gradient(&g).unwrap(), v(&[5]));
    assert_eq!(a.gradient(&g).unwrap(), v(&[3]));
}
