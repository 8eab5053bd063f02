use tensorlib::tensor::{Tensor, TensorError};

fn t(shape: Vec<usize>, data: Vec<f64>) -> Tensor<f64> {
    Tensor::from_data(shape, data).unwrap()
}

fn shape_product(t: &Tensor<f64>) -> usize {
    let mut p: usize = 1;
    for d in &t.shape {
        p *= d;
    }
    p
}

#[test]
fn new_fills_with_zeros() {
    let z = Tensor::new(vec![2, 3], 0.0f64).unwrap();
    assert_eq!(z.shape, vec![2, 3]);
    assert_eq!(z.data, vec![0.0; 6]);
    assert_eq!(shape_product(&z), z.data.len());
}

#[test]
fn new_rejects_zero_axis() {
    let r = Tensor::new(vec![2, 0, 3], 0.0f64);
    assert!(matches!(r, Err(TensorError::InvalidShape)));
}

#[test]
fn new_empty_shape_is_scalar() {
    let z = Tensor::new(vec![], 7.5f64).unwrap();
    assert_eq!(z.shape, Vec::<usize>::new());
    assert_eq!(z.data, vec![7.5]);
}

#[test]
fn from_data_keeps_shape_and_data() {
    let a = t(vec![2, 2], vec![1.0, 2.0, 3.0, 4.0]);
    assert_eq!(a.shape, vec![2, 2]);
    assert_eq!(a.data, vec![1.0, 2.0, 3.0, 4.0]);
    assert_eq!(shape_product(&a), a.data.len());
}

#[test]
fn from_data_scalar() {
    let a = t(vec![], vec![5.0]);
    assert_eq!(a.shape, Vec::<usize>::new());
    assert_eq!(a.data, vec![5.0]);
}

#[test]
fn from_data_rejects_wrong_length() {
    let r = Tensor::from_data(vec![2, 3], vec![1.0f64, 2.0, 3.0, 4.0, 5.0]);
    assert!(matches!(r, Err(TensorError::ShapeMismatch)));
}

#[test]
fn from_data_infers_placeholder_axis() {
    let inferred = t(vec![2, 0], vec![1.0, 2.0, 3.0, 4.0, 5.0, 6.0]);
    let explicit = t(vec![2, 3], vec![1.0, 2.0, 3.0, 4.0, 5.0, 6.0]);
    assert_eq!(inferred.shape, explicit.shape);
    assert_eq!(inferred.data, explicit.data);
    assert_eq!(shape_product(&inferred), inferred.data.len());
}

#[test]
fn from_data_infers_leading_axis() {
    let a = t(vec![0, 2], vec![1.0, 2.0, 3.0, 4.0, 5.0, 6.0]);
    assert_eq!(a.shape, vec![3, 2]);
}

#[test]
fn from_data_rejects_two_placeholders() {
    let r = Tensor::from_data(vec![0, 0], vec![1.0f64, 2.0]);
    assert!(matches!(r, Err(TensorError::InvalidShape)));
}

#[test]
fn from_data_rejects_empty_data_with_placeholder() {
    let r = Tensor::from_data(vec![2, 0], Vec::<f64>::new());
    assert!(matches!(r, Err(TensorError::InvalidShape)));
}

#[test]
fn from_data_rejects_indivisible_length() {
    let r = Tensor::from_data(vec![4, 0], vec![1.0f64, 2.0, 3.0, 4.0, 5.0, 6.0]);
    assert!(matches!(r, Err(TensorError::ShapeMismatch)));
}

#[test]
fn scalar_broadcast_adds_to_every_element() {
    let a = t(vec![1], vec![10.0]);
    let b = t(vec![4], vec![1.0, 2.0, 3.0, 4.0]);
    let r = a.elemwise_with_broadcast(&b, |x, y| x + y).unwrap();
    assert_eq!(r.shape, vec![4]);
    assert_eq!(r.data, vec![11.0, 12.0, 13.0, 14.0]);
}

#[test]
fn broadcast_outer_product() {
    // row [1,2,3] against column [4,5,6]: element (i, j) is b[i] * a[j]
    let a = t(vec![3], vec![1.0, 2.0, 3.0]);
    let b = t(vec![3, 1], vec![4.0, 5.0, 6.0]);
    let r = a.elemwise_with_broadcast(&b, |x, y| x * y).unwrap();
    assert_eq!(r.shape, vec![3, 3]);
    assert_eq!(
        r.data,
        vec![4.0, 8.0, 12.0, 5.0, 10.0, 15.0, 6.0, 12.0, 18.0]
    );
    // column [1,2,3] against row [4,5,6]: element (i, j) is c[i] * d[j]
    let c = t(vec![3, 1], vec![1.0, 2.0, 3.0]);
    let d = t(vec![3], vec![4.0, 5.0, 6.0]);
    let r2 = c.elemwise_with_broadcast(&d, |x, y| x * y).unwrap();
    assert_eq!(r2.shape, vec![3, 3]);
    assert_eq!(
        r2.data,
        vec![4.0, 5.0, 6.0, 8.0, 10.0, 12.0, 12.0, 15.0, 18.0]
    );
}

#[test]
fn broadcast_shape_is_commutative_results_need_not_be() {
    let a = t(vec![3], vec![1.0, 2.0, 3.0]);
    let b = t(vec![3, 1], vec![4.0, 5.0, 6.0]);
    let ab = a.elemwise_with_broadcast(&b, |x, y| x - y).unwrap();
    let ba = b.elemwise_with_broadcast(&a, |x, y| x - y).unwrap();
    assert_eq!(ab.shape, ba.shape);
    assert_eq!(ab.shape, vec![3, 3]);
    // the shapes agree, the subtraction results are negations of each other
    for (x, y) in ab.data.iter().zip(ba.data.iter()) {
        assert_eq!(*x, -*y);
    }
    assert_ne!(ab.data, ba.data);
}

#[test]
fn broadcast_with_scalar_tensor() {
    let s = t(vec![], vec![10.0]);
    let b = t(vec![2, 2], vec![1.0, 2.0, 3.0, 4.0]);
    let r = s.elemwise_with_broadcast(&b, |x, y| x + y).unwrap();
    assert_eq!(r.shape, vec![2, 2]);
    assert_eq!(r.data, vec![11.0, 12.0, 13.0, 14.0]);
}

#[test]
fn broadcast_incompatible_axes_fail() {
    let a = t(vec![2], vec![1.0, 2.0]);
    let b = t(vec![3], vec![1.0, 2.0, 3.0]);
    let r = a.elemwise_with_broadcast(&b, |x, y| x + y);
    match r {
        Err(TensorError::BroadcastError { axis, dim1, dim2 }) => {
            assert_eq!(axis, 0);
            assert_eq!(dim1, 2);
            assert_eq!(dim2, 3);
        }
        _ => panic!("expected a broadcast error"),
    }
}

#[test]
fn broadcast_division_keeps_ieee_semantics() {
    let a = t(vec![2], vec![1.0, -1.0]);
    let b = t(vec![2], vec![0.0, 0.0]);
    let r = a.elemwise_with_broadcast(&b, |x, y| x / y).unwrap();
    assert!(r.data[0].is_infinite() && r.data[0] > 0.0);
    assert!(r.data[1].is_infinite() && r.data[1] < 0.0);
}

#[test]
fn matmul_concrete_case() {
    let a = t(vec![2, 3], vec![1.0, 2.0, 3.0, 4.0, 5.0, 6.0]);
    let b = t(vec![3, 2], vec![7.0, 8.0, 9.0, 10.0, 11.0, 12.0]);
    let r = a.matmul(&b, |x, y| x + y, |x, y| x * y, 0.0).unwrap();
    assert_eq!(r.shape, vec![2, 2]);
    assert_eq!(r.data, vec![58.0, 64.0, 139.0, 154.0]);
}

#[test]
fn matmul_rejects_non_matrix() {
    let a = t(vec![3], vec![1.0, 2.0, 3.0]);
    let b = t(vec![3, 2], vec![7.0, 8.0, 9.0, 10.0, 11.0, 12.0]);
    let r = a.matmul(&b, |x, y| x + y, |x, y| x * y, 0.0);
    assert!(matches!(r, Err(TensorError::RankError)));
}

#[test]
fn matmul_rejects_mismatched_inner_dims() {
    let a = t(vec![2, 3], vec![1.0, 2.0, 3.0, 4.0, 5.0, 6.0]);
    let b = t(vec![2, 2], vec![1.0, 2.0, 3.0, 4.0]);
    let r = a.matmul(&b, |x, y| x + y, |x, y| x * y, 0.0);
    assert!(matches!(r, Err(TensorError::DimensionMismatch)));
}

#[test]
fn matadd_elementwise() {
    let a = t(vec![2, 2], vec![1.0, 2.0, 3.0, 4.0]);
    let b = t(vec![2, 2], vec![5.0, 6.0, 7.0, 8.0]);
    let r = a.matadd(&b, |x, y| x + y).unwrap();
    assert_eq!(r.shape, vec![2, 2]);
    assert_eq!(r.data, vec![6.0, 8.0, 10.0, 12.0]);
}

#[test]
fn matsub_elementwise() {
    let a = t(vec![2, 2], vec![5.0, 6.0, 7.0, 8.0]);
    let b = t(vec![2, 2], vec![1.0, 2.0, 3.0, 4.0]);
    let r = a.matsub(&b, |x, y| x - y).unwrap();
    assert_eq!(r.shape, vec![2, 2]);
    assert_eq!(r.data, vec![4.0, 4.0, 4.0, 4.0]);
}

#[test]
fn matadd_rejects_mismatched_shapes() {
    let a = t(vec![2, 2], vec![1.0, 2.0, 3.0, 4.0]);
    let b = t(vec![2, 3], vec![1.0, 2.0, 3.0, 4.0, 5.0, 6.0]);
    let r = a.matadd(&b, |x, y| x + y);
    assert!(matches!(r, Err(TensorError::ShapeMismatch)));
}

#[test]
fn matsub_rejects_mismatched_shapes() {
    let a = t(vec![2, 2], vec![1.0, 2.0, 3.0, 4.0]);
    let b = t(vec![2, 3], vec![1.0, 2.0, 3.0, 4.0, 5.0, 6.0]);
    let r = a.matsub(&b, |x, y| x - y);
    assert!(matches!(r, Err(TensorError::ShapeMismatch)));
}

#[test]
fn clone_is_a_deep_copy() {
    let a = t(vec![2, 2], vec![1.0, 2.0, 3.0, 4.0]);
    let mut c = a.clone();
    assert_eq!(a.shape, c.shape);
    assert_eq!(a.data, c.data);
    c.data[0] = 99.0;
    c.shape[0] = 4;
    assert_eq!(a.data[0], 1.0);
    assert_eq!(a.shape[0], 2);
}

#[test]
fn broadcast_expansion_uses_running_stride() {
    // [2, 1] against [2, 3]: the inner axis is tiled first, then nothing
    // more; each row element is repeated three times in place.
    let a = t(vec![2, 1], vec![1.0, 2.0]);
    let b = t(vec![2, 3], vec![10.0, 20.0, 30.0, 40.0, 50.0, 60.0]);
    let r = a.elemwise_with_broadcast(&b, |x, y| x + y).unwrap();
    assert_eq!(r.shape, vec![2, 3]);
    assert_eq!(r.data, vec![11.0, 21.0, 31.0, 42.0, 52.0, 62.0]);
    // [2, 2] against [2, 1, 2]: a leading axis is added and the middle axis
    // tiled in blocks of the already-expanded trailing size.
    let c = t(vec![2, 2], vec![1.0, 2.0, 3.0, 4.0]);
    let d = t(vec![2, 1, 2], vec![0.0, 0.0, 0.0, 0.0]);
    let r2 = c.elemwise_with_broadcast(&d, |x, y| x + y).unwrap();
    assert_eq!(r2.shape, vec![2, 2, 2]);
    assert_eq!(r2.data, vec![1.0, 2.0, 3.0, 4.0, 1.0, 2.0, 3.0, 4.0]);
    // [2, 1] against [3, 2, 3]: the inner axis is expanded first, and the
    // leading axis then repeats the *already expanded* [2, 3] block whole —
    // tiling with the operand's own stride instead would interleave rows.
    let e = t(vec![2, 1], vec![1.0, 2.0]);
    let f = Tensor::new(vec![3, 2, 3], 0.0).unwrap();
    let r3 = e.elemwise_with_broadcast(&f, |x, y| x + y).unwrap();
    assert_eq!(r3.shape, vec![3, 2, 3]);
    assert_eq!(
        r3.data,
        vec![
            1.0, 1.0, 1.0, 2.0, 2.0, 2.0, 1.0, 1.0, 1.0, 2.0, 2.0, 2.0, 1.0, 1.0, 1.0, 2.0, 2.0,
            2.0
        ]
    );
}

#[test]
fn integer_elements_work_too() {
    let a = Tensor::from_data(vec![2], vec![1i64, 2]).unwrap();
    let b = Tensor::from_data(vec![2], vec![10i64, 20]).unwrap();
    let r = a.elemwise_with_broadcast(&b, |x, y| x + y).unwrap();
    assert_eq!(r.data, vec![11, 22]);
}
