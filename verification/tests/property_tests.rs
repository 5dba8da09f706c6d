use du_core::error::{GpuNdArrayError, NdArrayError};
use du_core::gpu::gpu_matmul_simulated;
use du_core::matmul::matmul_cells;
use du_core::ndarray::NdArray;
use du_core::ops::{argmax, argmin, diagflat, eye, mean, ones, scalar, sum, zeros};
use du_core::shape::{get_index, make_shape, Shape};

#[test]
fn new_len_is_span_and_zeroed() {
    let cases = vec![
        (Shape::Scalar, 1usize),
        (Shape::Vector([7]), 7),
        (Shape::Matrix([3, 5]), 15),
        (Shape::Tensor(vec![2, 3, 4]), 24),
    ];
    for (shape, span) in cases {
        let arr = NdArray::new(shape);
        assert_eq!(arr.len(), span);
        for v in arr.as_slice() {
            assert_eq!(*v, 0);
        }
    }
}

#[test]
fn set_slice_mismatch_fails_and_match_replaces() {
    let mut arr = NdArray::new(Shape::Matrix([2, 3]));
    assert_eq!(
        arr.set_slice(vec![1, 2, 3]),
        Err(NdArrayError::LengthMismatch)
    );
    // a failed replacement leaves the buffer untouched
    assert_eq!(arr.as_slice(), &[0, 0, 0, 0, 0, 0][..]);

    arr.set_slice(vec![1, 2, 3, 4, 5, 6]).unwrap();
    assert_eq!(arr.as_slice(), &[1, 2, 3, 4, 5, 6][..]);
}

#[test]
fn index_matches_row_major_formula() {
    // offset == sum of coords[i] * strides[i]
    let i = get_index(&[3, 4, 5], &[20, 5, 1], &[2, 1, 3]).unwrap();
    assert_eq!(i, 2 * 20 + 1 * 5 + 3 * 1);

    // an out-of-range component fails
    assert_eq!(
        get_index(&[3, 4, 5], &[20, 5, 1], &[2, 4, 3]),
        Err(NdArrayError::IndexOutOfBounds)
    );
    // a wrong-rank coordinate vector fails
    assert_eq!(
        get_index(&[3, 4, 5], &[20, 5, 1], &[2, 1]),
        Err(NdArrayError::IndexOutOfBounds)
    );
}

#[test]
fn transpose_twice_is_identity() {
    let a = NdArray::new_with_values(Shape::Matrix([2, 3]), vec![1, 2, 3, 4, 5, 6]).unwrap();
    let tt = a.transpose().transpose();
    assert_eq!(tt.shape, a.shape);
    assert_eq!(tt.as_slice(), a.as_slice());

    let t = NdArray::new_with_values(
        Shape::Tensor(vec![2, 3, 4]),
        (0..24).collect::<Vec<i64>>(),
    )
    .unwrap();
    let ttt = t.transpose().transpose();
    assert_eq!(ttt.shape, t.shape);
    assert_eq!(ttt.as_slice(), t.as_slice());
}

fn cpu_product(a: &Vec<i64>, b: &Vec<i64>, m: usize, k: usize, n: usize) -> Vec<i64> {
    matmul_cells(a, b, 1, m, k, n, 0, 0)
}

fn device_product(a: &Vec<i64>, b: &Vec<i64>, m: usize, k: usize, n: usize) -> Vec<i64> {
    let mut out = vec![0i64; m * n];
    gpu_matmul_simulated(a, b, m, k, n, &mut out, true, true).expect("device path");
    out
}

#[test]
fn device_path_matches_cpu_small() {
    // m below the row-split threshold
    let m = 5;
    let k = 3;
    let n = 7;
    let a: Vec<i64> = (0..(m * k) as i64).map(|x| x - 4).collect();
    let b: Vec<i64> = (0..(k * n) as i64).map(|x| 2 * x - 9).collect();
    assert_eq!(device_product(&a, &b, m, k, n), cpu_product(&a, &b, m, k, n));
}

#[test]
fn device_path_matches_cpu_chunked() {
    // m above the row-split threshold exercises the chunk partitioning
    let m = 600;
    let k = 3;
    let n = 5;
    let a: Vec<i64> = (0..(m * k) as i64).map(|x| x % 17 - 8).collect();
    let b: Vec<i64> = (0..(k * n) as i64).map(|x| x % 11 - 5).collect();
    assert_eq!(device_product(&a, &b, m, k, n), cpu_product(&a, &b, m, k, n));
}

#[test]
fn device_path_matches_cpu_partial_tiles() {
    // m and n are not multiples of the tile sizes: both remainder bands and
    // the tiled interior are exercised
    let m = 33;
    let k = 4;
    let n = 17;
    let a: Vec<i64> = (0..(m * k) as i64).map(|x| x % 23 - 11).collect();
    let b: Vec<i64> = (0..(k * n) as i64).map(|x| x % 13 - 6).collect();
    assert_eq!(device_product(&a, &b, m, k, n), cpu_product(&a, &b, m, k, n));
}

#[test]
fn broadcast_matmul_matches_per_batch() {
    // batch-broadcast tensor operands: the broadcast product equals each
    // batch computed on its own
    let a = NdArray::new_with_values(Shape::Matrix([2, 3]), vec![1, -2, 3, 0, 4, -1]).unwrap();
    let b0: Vec<i64> = vec![2, 1, 0, -1, 3, 2];
    let b1: Vec<i64> = vec![1, 1, 1, 1, 1, 1];
    let mut whole: Vec<i64> = b0.clone();
    whole.extend(b1.clone());
    let b = NdArray::new_with_values(Shape::Tensor(vec![2, 3, 2]), whole).unwrap();

    let mut c = NdArray::new(Shape::Scalar);
    a.matmul(&b, &mut c).expect("matmul");
    assert_eq!(c.shape, Shape::Tensor(vec![2, 2, 2]));

    let batch0 = cpu_product(&a.values, &b0, 2, 3, 2);
    let batch1 = cpu_product(&a.values, &b1, 2, 3, 2);
    let mut expected = batch0;
    expected.extend(batch1);
    assert_eq!(c.as_slice(), &expected[..]);
}

#[test]
fn matmul_mismatch_leaves_output_untouched() {
    let a = NdArray::new_with_values(Shape::Matrix([2, 3]), vec![1, 2, 3, 4, 5, 6]).unwrap();
    let b = NdArray::new_with_values(Shape::Matrix([4, 2]), vec![1; 8]).unwrap();

    let mut out = NdArray::new_with_values(Shape::Vector([2]), vec![41, 42]).unwrap();
    assert_eq!(a.matmul(&b, &mut out), Err(NdArrayError::ShapeMismatch));
    assert_eq!(out.shape, Shape::Vector([2]));
    assert_eq!(out.as_slice(), &[41, 42][..]);
}

#[test]
fn chunked_device_identity_roundtrip() {
    // 1000 x 4 matrix of known values times the 4 x 4 identity through the
    // device path: exercises the row split at 1000 > 512, and the result
    // must reproduce the left operand exactly
    let m = 1000;
    let k = 4;
    let n = 4;
    let a: Vec<i64> = (0..(m * k) as i64).map(|x| 3 * x - 1777).collect();
    let id = eye(4);
    let b: Vec<i64> = id.values.clone();

    let mut out = vec![7i64; m * n];
    gpu_matmul_simulated(&a, &b, m, k, n, &mut out, true, true).expect("device path");
    assert_eq!(out, a);
}

#[test]
fn missing_device_reports_no_executor() {
    let a = vec![1i64, 2, 3, 4];
    let b = vec![1i64, 0, 0, 1];
    let mut out = vec![0i64; 4];

    let r = gpu_matmul_simulated(&a, &b, 2, 2, 2, &mut out, false, true);
    assert_eq!(r, Err(GpuNdArrayError::NoExecutor));
    // the output is untouched on failure
    assert_eq!(out, vec![0i64; 4]);

    let r = gpu_matmul_simulated(&a, &b, 2, 2, 2, &mut out, true, false);
    assert_eq!(r, Err(GpuNdArrayError::NoShader));
}

#[test]
fn shape_validation_rejects_zero_axes() {
    assert!(matches!(make_shape(&[2, 0, 3]), Err(NdArrayError::InvalidShape)));
    let s = make_shape(&[2, 3]).unwrap();
    assert_eq!(s, Shape::Matrix([2, 3]));
    assert_eq!(make_shape(&[]).unwrap(), Shape::Scalar);
    assert_eq!(make_shape(&[4]).unwrap(), Shape::Vector([4]));
    assert_eq!(make_shape(&[2, 3, 4]).unwrap(), Shape::Tensor(vec![2, 3, 4]));
}

#[test]
fn get_and_set_are_bounds_checked() {
    let mut arr = NdArray::new(Shape::Matrix([2, 3]));
    arr.set(&[1, 2], 9).unwrap();
    assert_eq!(arr.get(&[1, 2]), Some(9));
    assert_eq!(arr.get(&[0, 0]), Some(0));
    assert_eq!(arr.get(&[2, 0]), None);
    assert_eq!(arr.get(&[0]), None);
    assert_eq!(arr.set(&[0, 3], 1), Err(NdArrayError::IndexOutOfBounds));
}

#[test]
fn reshape_validates_span_strictly() {
    let mut arr = NdArray::new_with_values(Shape::Matrix([2, 3]), vec![1, 2, 3, 4, 5, 6]).unwrap();
    arr.reshape(Shape::Vector([6])).unwrap();
    assert_eq!(arr.shape, Shape::Vector([6]));
    assert_eq!(arr.as_slice(), &[1, 2, 3, 4, 5, 6][..]);
    assert_eq!(
        arr.reshape(Shape::Matrix([2, 2])),
        Err(NdArrayError::LengthMismatch)
    );
    assert_eq!(arr.shape, Shape::Vector([6]));
}

#[test]
fn inner_requires_equal_spans() {
    let a = NdArray::new_vector(vec![1, 2, 3]);
    let b = NdArray::new_vector(vec![1, 2]);
    assert_eq!(a.inner(&b), None);
}

#[test]
fn sum_and_mean_reduce_all_elements() {
    let arr = NdArray::new_with_values(Shape::Matrix([2, 2]), vec![1, 2, 3, 4]).unwrap();
    assert_eq!(arr.sum(), 10);
    assert_eq!(arr.mean(), Ok(2));

    let s = sum(&arr);
    assert_eq!(s.shape, Shape::Scalar);
    assert_eq!(s.as_slice(), &[10][..]);

    let m = mean(&arr).unwrap();
    assert_eq!(m.shape, Shape::Scalar);
    assert_eq!(m.as_slice(), &[2][..]);

    // the mean rounds toward negative infinity
    let neg = NdArray::new_vector(vec![-3, -4]);
    assert_eq!(neg.mean(), Ok(-4));

    // reducing an array with no elements fails
    let empty = NdArray::new(Shape::Vector([0]));
    assert_eq!(empty.mean(), Err(NdArrayError::EmptyArray));
    assert!(matches!(mean(&empty), Err(NdArrayError::EmptyArray)));
}

#[test]
fn eye_and_diagflat_build_diagonals() {
    let id = eye(3);
    assert_eq!(id.shape, Shape::Matrix([3, 3]));
    assert_eq!(id.as_slice(), &[1, 0, 0, 0, 1, 0, 0, 0, 1][..]);

    let v = NdArray::new_vector(vec![4, 5, 6]);
    let d = diagflat(&v);
    assert_eq!(d.shape, Shape::Matrix([3, 3]));
    assert_eq!(d.as_slice(), &[4, 0, 0, 0, 5, 0, 0, 0, 6][..]);
}

#[test]
fn zeros_ones_scalar_fill() {
    let z = zeros(Shape::Matrix([2, 2]));
    assert_eq!(z.as_slice(), &[0, 0, 0, 0][..]);
    let o = ones(Shape::Matrix([2, 2]));
    assert_eq!(o.as_slice(), &[1, 1, 1, 1][..]);
    let s = scalar(42);
    assert_eq!(s.shape, Shape::Scalar);
    assert_eq!(s.as_slice(), &[42][..]);
}

#[test]
fn argmax_argmin_pick_first_extremum() {
    let arr = NdArray::new_with_values(
        Shape::Matrix([3, 4]),
        vec![
            1, 7, 7, 2, //
            -5, -5, 0, -1, //
            9, 9, 9, 9,
        ],
    )
    .unwrap();

    let mx = argmax(&arr);
    assert_eq!(mx.shape, Shape::Vector([3]));
    assert_eq!(mx.as_slice(), &[1, 2, 0][..]);

    let mn = argmin(&arr);
    assert_eq!(mn.shape, Shape::Vector([3]));
    assert_eq!(mn.as_slice(), &[0, 0, 0][..]);
}

#[test]
fn get_column_rejects_bad_leading_coords() {
    let arr = NdArray::new(Shape::Tensor(vec![2, 2, 3]));
    assert!(arr.get_column(&[1, 1]).is_some());
    assert!(arr.get_column(&[2, 0]).is_none());
    assert!(arr.get_column(&[0]).is_none());
}
