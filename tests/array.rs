use corgi::array::{Array, ArrayError, Arrays};
use corgi::graph::Graph;

fn v(values: &[i64]) -> Array {
    Arrays::new(values.to_vec()).unwrap()
}

fn m(parts: Vec<Array>) -> Array {
    Arrays::new(parts).unwrap()
}

#[test]
fn test_new() {
    let matrix = m(vec![
        m(vec![v(&[0]), v(&[1])]),
        m(vec![v(&[2]), v(&[3])]),
        m(vec![v(&[4]), v(&[5])]),
    ]);

    assert_eq!(*matrix.dimensions(), vec![3, 2, 1]);
    assert_eq!(*matrix.values(), (0..6).collect::<Vec<i64>>());
}

#[test]
fn test_zeros() {
    let matrix: Array = Arrays::new(vec![3usize, 2, 3]).unwrap();
    assert_eq!(*matrix.dimensions(), vec![3, 2, 3]);
    assert_eq!(*matrix.values(), (0..18).map(|_| 0).collect::<Vec<i64>>());
}

#[test]
fn test_new_clone() {
    let a = v(&[1, 2, 3]);
    let b = m(vec![a.clone()]);
    let c = m(vec![a.clone(), a.clone()]);

    assert_eq!(b, m(vec![v(&[1, 2, 3])]));
    assert_eq!(c, m(vec![v(&[1, 2, 3]), v(&[1, 2, 3])]));
}

#[test]
fn test_ne() {
    let a = v(&[1, 2, 3]);
    let b = v(&[2, 2, 3]);

    assert_ne!(a, b);

    let c = m(vec![v(&[1, 2, 3]), v(&[4, 5, 6])]);
    let d = m(vec![v(&[1, 2]), v(&[3, 4]), v(&[5, 6])]);

    assert_ne!(c, d);
}

#[test]
fn test_invalid_dimensions() {
    let inner: Result<Array, ArrayError> = Arrays::new(vec![v(&[2, 3]), v(&[4])]);
    assert_eq!(inner.err(), Some(ArrayError::ShapeMismatch));
    let outer: Result<Array, ArrayError> =
        Arrays::new(vec![m(vec![v(&[0]), v(&[1])]), m(vec![v(&[2, 3])])]);
    assert_eq!(outer.err(), Some(ArrayError::ShapeMismatch));
}

#[test]
fn test_access() {
    let matrix = m(vec![
        m(vec![v(&[0, 1, 2]), v(&[3, 4, 5])]),
        m(vec![v(&[6, 7, 8]), v(&[9, 10, 11])]),
        m(vec![v(&[12, 13, 14]), v(&[15, 16, 17])]),
    ]);

    assert_eq!(matrix.at(&vec![1, 1, 2]), Ok(11));
}

#[test]
fn test_arithmetic() {
    let mut g = Graph::new();
    let a = m(vec![m(vec![v(&[0, 1]), v(&[2, 3])]), m(vec![v(&[4, 5]), v(&[6, 7])])]);
    let b = m(vec![m(vec![v(&[2, 4]), v(&[6, 8])]), m(vec![v(&[10, 12]), v(&[14, 16])])]);
    let sum_expect = m(vec![m(vec![v(&[2, 5]), v(&[8, 11])]), m(vec![v(&[14, 17]), v(&[20, 23])])]);
    let product_expect =
        m(vec![m(vec![v(&[0, 4]), v(&[12, 24])]), m(vec![v(&[40, 60]), v(&[84, 112])])]);

    let sum = Array::add(&mut g, &a, &b).unwrap();
    let product = Array::mul(&mut g, &a, &b).unwrap();

    assert_eq!(sum, sum_expect);
    assert_eq!(product, product_expect);
}

#[test]
fn test_matmul() {
    let mut g = Graph::new();
    let a = m(vec![v(&[1, 2, 3]), v(&[4, 5, 6])]).track(&mut g);
    let b = m(vec![v(&[5, 3]), v(&[2, 6]), v(&[1, 2])]).track(&mut g);
    let matmul_expect = m(vec![v(&[12, 21]), v(&[36, 54])]);

    let result = Array::matmul(&mut g, &a, &b, false, false).unwrap();
    assert_eq!(result, matmul_expect);

    result.backward(&mut g, None).unwrap();
    assert_eq!(result.gradient(&g).unwrap(), m(vec![v(&[1, 1]), v(&[1, 1])]));
    assert_eq!(b.gradient(&g).unwrap(), m(vec![v(&[5, 5]), v(&[7, 7]), v(&[9, 9])]));
    assert_eq!(a.gradient(&g).unwrap(), m(vec![v(&[8, 8, 3]), v(&[8, 8, 3])]));
}

#[test]
fn test_matmul_transpose() {
    let mut g = Graph::new();
    let a = m(vec![v(&[1, 4]), v(&[2, 5]), v(&[3, 6])]).track(&mut g);
    let b = m(vec![v(&[5, 3]), v(&[2, 6]), v(&[1, 2])]).track(&mut g);
    let matmul_expect = m(vec![v(&[12, 21]), v(&[36, 54])]);

    let result = Array::matmul(&mut g, &a, &b, true, false).unwrap();
    assert_eq!(result, matmul_expect);

    result.backward(&mut g, None).unwrap();
    assert_eq!(result.gradient(&g).unwrap(), m(vec![v(&[1, 1]), v(&[1, 1])]));
    assert_eq!(b.gradient(&g).unwrap(), m(vec![v(&[5, 5]), v(&[7, 7]), v(&[9, 9])]));
    assert_eq!(a.gradient(&g).unwrap(), m(vec![v(&[8, 8]), v(&[8, 8]), v(&[3, 3])]));
}

#[test]
fn test_matmul_vec() {
    let mut g = Graph::new();
    let a = m(vec![v(&[1, 2, 3]), v(&[4, 5, 6])]);
    let b = m(vec![v(&[1, 2, 3])]);
    let c = m(vec![v(&[1]), v(&[2]), v(&[3])]);

    let result = Array::matmul(&mut g, &a, &b, false, true).unwrap();
    assert_eq!(result, m(vec![v(&[14]), v(&[32])]));

    let result = Array::matmul(&mut g, &b, &a, false, true).unwrap();
    assert_eq!(result, m(vec![v(&[14, 32])]));

    let result = Array::matmul(&mut g, &b, &c, false, false).unwrap();
    assert_eq!(result, m(vec![v(&[14])]));
}

#[test]
fn test_matmul_single() {
    let mut g = Graph::new();
    let a = v(&[1, 2, 3]);
    let b = v(&[3, 2, 1]);
    let result = Array::matmul(&mut g, &a, &b, false, false).unwrap();
    assert_eq!(result, v(&[10]));
}

#[test]
fn test_matmul_multi() {
    let mut g = Graph::new();
    let a = m(vec![v(&[1, 2, 3]), v(&[4, 5, 6])]);
    let b = m(vec![v(&[1]), v(&[2]), v(&[3])]);
    let c = m(vec![v(&[1, 2, 3])]);

    let ab = Array::matmul(&mut g, &a, &b, false, false).unwrap();
    let result = Array::matmul(&mut g, &ab, &c, false, false).unwrap();
    assert_eq!(result, m(vec![v(&[14, 28, 42]), v(&[32, 64, 96])]));
}

#[test]
fn test_matmul_nd() {
    let mut g = Graph::new();
    let a = m(vec![
        m(vec![
            m(vec![v(&[1, 2, 3]), v(&[4, 5, 6])]),
            m(vec![v(&[6, 5, 4]), v(&[3, 2, 1])]),
        ]),
        m(vec![
            m(vec![v(&[9, 8, 7]), v(&[4, 5, 6])]),
            m(vec![v(&[6, 7, 8]), v(&[3, 2, 1])]),
        ]),
    ]);
    let b = m(vec![
        m(vec![
            m(vec![v(&[5, 3]), v(&[2, 6]), v(&[1, 2])]),
            m(vec![v(&[3, 6]), v(&[2, 5]), v(&[1, 4])]),
        ]),
        m(vec![
            m(vec![v(&[5, 3]), v(&[2, 6]), v(&[8, 7])]),
            m(vec![v(&[8, 6]), v(&[5, 3]), v(&[4, 7])]),
        ]),
    ]);
    let matmul_expect = m(vec![
        m(vec![m(vec![v(&[12, 21]), v(&[36, 54])]), m(vec![v(&[32, 77]), v(&[14, 32])])]),
        m(vec![m(vec![v(&[117, 124]), v(&[78, 84])]), m(vec![v(&[115, 113]), v(&[38, 31])])]),
    ]);

    let result = Array::matmul(&mut g, &a, &b, false, false).unwrap();
    assert_eq!(result, matmul_expect);
}

#[test]
fn matmul_rejects_mismatched_inner_dimensions() {
    let mut g = Graph::new();
    let a = m(vec![v(&[1, 2, 3]), v(&[4, 5, 6])]);
    let b = m(vec![v(&[1, 2]), v(&[3, 4])]);
    assert_eq!(Array::matmul(&mut g, &a, &b, false, false).err(), Some(ArrayError::DimMismatch));
    assert_eq!(g.len(), 0);
}

#[test]
fn matmul_rejects_mismatched_batches() {
    let mut g = Graph::new();
    let a = m(vec![m(vec![v(&[1, 2])]), m(vec![v(&[3, 4])])]);
    let b = m(vec![m(vec![v(&[1]), v(&[2])])]);
    assert_eq!(Array::matmul(&mut g, &a, &b, false, false).err(), Some(ArrayError::DimMismatch));
}

#[test]
fn elementwise_rejects_different_shapes() {
    let mut g = Graph::new();
    let a = v(&[1, 2, 3]);
    let b = v(&[1, 2]);
    assert_eq!(Array::add(&mut g, &a, &b).err(), Some(ArrayError::ShapeMismatch));
    assert_eq!(Array::mul(&mut g, &a, &b).err(), Some(ArrayError::ShapeMismatch));
}

#[test]
fn access_out_of_range_is_invalid_index() {
    let a = m(vec![v(&[1, 2, 3]), v(&[4, 5, 6])]);
    assert_eq!(a.get(5), Ok(6));
    assert_eq!(a.get(6), Err(ArrayError::InvalidIndex));
    assert_eq!(a.at(&vec![1, 0]), Ok(4));
    assert_eq!(a.at(&vec![2, 0]), Err(ArrayError::InvalidIndex));
    assert_eq!(a.at(&vec![1]), Err(ArrayError::InvalidIndex));
}

#[test]
fn construction_edge_cases() {
    let empty: Result<Array, ArrayError> = Arrays::new(Vec::<i64>::new());
    assert_eq!(empty.err(), Some(ArrayError::ShapeMismatch));
    let zero_dim: Result<Array, ArrayError> = Arrays::new(vec![2usize, 0]);
    assert_eq!(zero_dim.err(), Some(ArrayError::ShapeMismatch));
    let pair: Array = Arrays::new((vec![2usize, 2], vec![1i64, 2, 3, 4])).unwrap();
    assert_eq!(pair, m(vec![v(&[1, 2]), v(&[3, 4])]));
    let bad_pair: Result<Array, ArrayError> = Arrays::new((vec![2usize, 2], vec![1i64, 2, 3]));
    assert_eq!(bad_pair.err(), Some(ArrayError::ShapeMismatch));
    let no_parts: Result<Array, ArrayError> = Arrays::new(Vec::<Array>::new());
    assert_eq!(no_parts.err(), Some(ArrayError::ShapeMismatch));
}

#[test]
fn arithmetic_wraps_on_overflow() {
    let mut g = Graph::new();
    let a = v(&[i64::MAX, 3]);
    let b = v(&[1, i64::MAX]);
    assert_eq!(Array::add(&mut g, &a, &b).unwrap(), v(&[i64::MIN, i64::MIN + 2]));
    assert_eq!(Array::mul(&mut g, &a, &b).unwrap(), v(&[i64::MAX, i64::MAX.wrapping_mul(3)]));
}

#[test]
fn reshape_keeps_values() {
    let mut g = Graph::new();
    let a = v(&[1, 2, 3, 4, 5, 6]);
    let r = Array::reshape(&mut g, &a, vec![2, 3]).unwrap();
    assert_eq!(r, m(vec![v(&[1, 2, 3]), v(&[4, 5, 6])]));
    assert_eq!(Array::reshape(&mut g, &a, vec![4, 2]).err(), Some(ArrayError::ShapeMismatch));
}
