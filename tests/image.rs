use corgi::array::{Array, ArrayError, Arrays};
use corgi::graph::Graph;

fn v(values: &[i64]) -> Array {
    Arrays::new(values.to_vec()).unwrap()
}

fn m(parts: Vec<Array>) -> Array {
    Arrays::new(parts).unwrap()
}

#[test]
fn test_expand_conv() {
    let mut g = Graph::new();
    let a = m(vec![v(&[1, 4]), v(&[2, 5]), v(&[3, 6])]).track(&mut g);
    let expanded = a.expand_conv(&mut g, (1, 3)).unwrap();
    assert_eq!(expanded, m(vec![m(vec![v(&[1, 2, 3])]), m(vec![v(&[4, 5, 6])])]));

    expanded.backward(&mut g, Some(expanded.clone())).unwrap();
    assert_eq!(a.gradient(&g).unwrap(), a.clone());
}

#[test]
fn test_rolling() {
    let mut g = Graph::new();
    let a = m(vec![m(vec![v(&[1, 2, 3]), v(&[4, 5, 6]), v(&[7, 8, 9])])]);
    let result = Array::unroll_blocks(&mut g, &a, (1, 1), (2, 2)).unwrap();
    assert_eq!(
        result,
        m(vec![v(&[1, 2, 4, 5]), v(&[2, 3, 5, 6]), v(&[4, 5, 7, 8]), v(&[5, 6, 8, 9])])
    );
    // Overlapping patches add up when rolled back: each pixel is counted once
    // per patch that covers it.
    let rolled = Array::roll_blocks(&mut g, &result, (1, 3, 3), (1, 1), (2, 2)).unwrap();
    assert_eq!(rolled, m(vec![m(vec![v(&[1, 4, 3]), v(&[8, 20, 12]), v(&[7, 16, 9])])]));
}

#[test]
fn test_rolling_rect() {
    let mut g = Graph::new();
    let a = m(vec![m(vec![v(&[1, 2, 3, 4]), v(&[5, 6, 7, 8]), v(&[9, 10, 11, 12])])]);
    let result = Array::unroll_blocks(&mut g, &a, (1, 1), (2, 3)).unwrap();
    assert_eq!(
        result,
        m(vec![
            v(&[1, 2, 3, 5, 6, 7]),
            v(&[2, 3, 4, 6, 7, 8]),
            v(&[5, 6, 7, 9, 10, 11]),
            v(&[6, 7, 8, 10, 11, 12]),
        ])
    );
    let rolled = Array::roll_blocks(&mut g, &result, (1, 3, 4), (1, 1), (2, 3)).unwrap();
    assert_eq!(
        rolled,
        m(vec![m(vec![v(&[1, 4, 6, 4]), v(&[10, 24, 28, 16]), v(&[9, 20, 22, 12])])])
    );
}

#[test]
fn test_rolling_strided() {
    let mut g = Graph::new();
    let a = m(vec![
        m(vec![v(&[1, 2, 3, 4]), v(&[5, 6, 7, 8])]),
        m(vec![v(&[9, 10, 11, 12]), v(&[13, 14, 15, 16])]),
    ]);
    let result = Array::unroll_blocks(&mut g, &a, (1, 2), (1, 2)).unwrap();
    assert_eq!(
        result,
        m(vec![
            v(&[1, 2, 9, 10]),
            v(&[3, 4, 11, 12]),
            v(&[5, 6, 13, 14]),
            v(&[7, 8, 15, 16]),
        ])
    );
    let rolled = Array::roll_blocks(&mut g, &result, (2, 2, 4), (1, 2), (1, 2)).unwrap();
    assert_eq!(rolled, a);
}

#[test]
fn test_conv() {
    let mut g = Graph::new();
    let a = m(vec![m(vec![v(&[1, 2, 3]), v(&[4, 5, 6]), v(&[7, 8, 9])])]);
    let filters = m(vec![m(vec![v(&[3, 5]), v(&[2, 6])])]);
    let conv = a.conv(&mut g, &filters, (1, 1)).unwrap();
    assert_eq!(conv, m(vec![m(vec![v(&[51, 67]), v(&[99, 115])])]));
}

#[test]
fn test_conv_filter_broadcast() {
    let mut g = Graph::new();
    let a = m(vec![m(vec![m(vec![v(&[1, 2, 3]), v(&[4, 5, 6]), v(&[7, 8, 9])])])]);
    let filters = m(vec![m(vec![v(&[3, 5]), v(&[2, 6])])]);
    let conv = a.conv(&mut g, &filters, (1, 1)).unwrap();
    assert_eq!(conv, m(vec![m(vec![m(vec![v(&[51, 67]), v(&[99, 115])])])]));
}

#[test]
fn test_conv_strided() {
    let mut g = Graph::new();
    let a = m(vec![
        m(vec![v(&[1, 2, 3, 4]), v(&[5, 6, 7, 8])]),
        m(vec![v(&[9, 10, 11, 12]), v(&[13, 14, 15, 16])]),
    ])
    .track(&mut g);
    let filters = m(vec![
        m(vec![m(vec![v(&[3, 5])]), m(vec![v(&[1, 3])])]),
        m(vec![m(vec![v(&[1, 3])]), m(vec![v(&[2, 8])])]),
        m(vec![m(vec![v(&[1, 3])]), m(vec![v(&[2, 8])])]),
    ])
    .track(&mut g);

    let conv = a.conv(&mut g, &filters, (1, 2)).unwrap();
    assert_eq!(
        conv,
        m(vec![
            m(vec![v(&[52, 76]), v(&[100, 124])]),
            m(vec![v(&[105, 133]), v(&[161, 189])]),
            m(vec![v(&[105, 133]), v(&[161, 189])]),
        ])
    );

    conv.backward(&mut g, None).unwrap();
    assert_eq!(
        a.gradient(&g).unwrap(),
        m(vec![
            m(vec![v(&[5, 11, 5, 11]), v(&[5, 11, 5, 11])]),
            m(vec![v(&[5, 19, 5, 19]), v(&[5, 19, 5, 19])]),
        ])
    );
    assert_eq!(
        filters.gradient(&g).unwrap(),
        m(vec![
            m(vec![m(vec![v(&[16, 20])]), m(vec![v(&[48, 52])])]),
            m(vec![m(vec![v(&[16, 20])]), m(vec![v(&[48, 52])])]),
            m(vec![m(vec![v(&[16, 20])]), m(vec![v(&[48, 52])])]),
        ])
    );
}

#[test]
fn conv_overlapping_gradient_adds_up() {
    let mut g = Graph::new();
    let a = m(vec![m(vec![v(&[1, 2, 3]), v(&[4, 5, 6]), v(&[7, 8, 9])])]).track(&mut g);
    let filters = m(vec![m(vec![v(&[1, 1]), v(&[1, 1])])]).track(&mut g);
    let conv = a.conv(&mut g, &filters, (1, 1)).unwrap();
    assert_eq!(conv, m(vec![m(vec![v(&[12, 16]), v(&[24, 28])])]));
    conv.backward(&mut g, None).unwrap();
    assert_eq!(a.gradient(&g).unwrap(), m(vec![m(vec![v(&[1, 2, 1]), v(&[2, 4, 2]), v(&[1, 2, 1])])]));
    assert_eq!(filters.gradient(&g).unwrap(), m(vec![m(vec![v(&[12, 16]), v(&[24, 28])])]));
}

#[test]
fn conv_rejects_bad_operands() {
    let mut g = Graph::new();
    let a = m(vec![v(&[1, 2, 3]), v(&[4, 5, 6])]);
    let image = m(vec![m(vec![v(&[1, 2]), v(&[3, 4])])]);
    let filters = m(vec![m(vec![v(&[1, 2]), v(&[3, 4])])]);
    assert_eq!(a.conv(&mut g, &filters, (1, 1)).err(), Some(ArrayError::DimMismatch));
    assert_eq!(image.conv(&mut g, &filters, (0, 1)).err(), Some(ArrayError::DimMismatch));
    let big = m(vec![m(vec![v(&[1, 2, 3]), v(&[3, 4, 5]), v(&[1, 1, 1])])]);
    assert_eq!(image.conv(&mut g, &big, (1, 1)).err(), Some(ArrayError::DimMismatch));
    assert_eq!(
        Array::unroll_blocks(&mut g, &a, (1, 1), (1, 1)).err(),
        Some(ArrayError::DimMismatch)
    );
    assert_eq!(
        Array::roll_blocks(&mut g, &a, (1, 3, 3), (1, 1), (2, 2)).err(),
        Some(ArrayError::DimMismatch)
    );
    assert_eq!(a.expand_conv(&mut g, (2, 2)).err(), Some(ArrayError::DimMismatch));
}

fn image_1_to_9() -> Array {
    m(vec![m(vec![v(&[1, 2, 3]), v(&[4, 5, 6]), v(&[7, 8, 9])])])
}

fn filter_groups() -> Array {
    m(vec![
        m(vec![m(vec![m(vec![v(&[3, 5]), v(&[2, 6])])])]),
        m(vec![m(vec![m(vec![v(&[1, 1]), v(&[1, 1])])])]),
    ])
}

#[test]
fn conv_image_serves_every_filter_group() {
    let mut g = Graph::new();
    let conv = image_1_to_9().conv(&mut g, &filter_groups(), (1, 1)).unwrap();
    assert_eq!(*conv.dimensions(), vec![2, 1, 2, 2]);
    assert_eq!(
        conv,
        m(vec![
            m(vec![m(vec![v(&[51, 67]), v(&[99, 115])])]),
            m(vec![m(vec![v(&[12, 16]), v(&[24, 28])])]),
        ])
    );
}

#[test]
fn conv_pairs_images_with_filter_groups() {
    let mut g = Graph::new();
    let ones = m(vec![m(vec![v(&[1, 1, 1]), v(&[1, 1, 1]), v(&[1, 1, 1])])]);
    let images = m(vec![image_1_to_9(), ones]).track(&mut g);
    let filters = filter_groups().track(&mut g);
    let conv = images.conv(&mut g, &filters, (1, 1)).unwrap();
    assert!(conv.is_tracked());
    assert_eq!(
        conv,
        m(vec![
            m(vec![m(vec![v(&[51, 67]), v(&[99, 115])])]),
            m(vec![m(vec![v(&[4, 4]), v(&[4, 4])])]),
        ])
    );
    conv.backward(&mut g, None).unwrap();
    assert_eq!(
        filters.gradient(&g).unwrap(),
        m(vec![
            m(vec![m(vec![m(vec![v(&[12, 16]), v(&[24, 28])])])]),
            m(vec![m(vec![m(vec![v(&[4, 4]), v(&[4, 4])])])]),
        ])
    );
    assert_eq!(*images.gradient(&g).unwrap().dimensions(), vec![2, 1, 3, 3]);
}

#[test]
fn conv_rejects_different_leading_dimensions() {
    let mut g = Graph::new();
    let images = m(vec![image_1_to_9(), image_1_to_9(), image_1_to_9()]);
    assert_eq!(images.conv(&mut g, &filter_groups(), (1, 1)).err(), Some(ArrayError::DimMismatch));
}
