use du_core::ndarray::NdArray;
use du_core::shape::{get_index, Shape};

#[test]
fn nd_index() {
    let i = get_index(&[2, 4, 8], &[4 * 8, 8, 1], &[1, 3, 5]).unwrap();
    assert_eq!(i, 5 + 3 * 8 + 4 * 8);
}

#[test]
fn get_column() {
    let mut arr = NdArray::new(Shape::Tensor(vec![4, 2, 3]));
    arr.as_mut_slice()
        .iter_mut()
        .enumerate()
        .for_each(|(i, x)| *x = i as i64);

    let col = arr.get_column(&[1, 1]).unwrap();

    assert_eq!(col, vec![9, 10, 11]);
}

#[test]
fn test_slice_frees_correctly() {
    let mut arr = NdArray::new(Shape::Matrix([5, 5]));

    arr.set_slice(vec![69i64; 25]).unwrap();

    for val in arr.as_slice() {
        assert_eq!(*val, 69);
    }
}

#[test]
fn test_iter_cols() {
    let mut arr = NdArray::new(Shape::Matrix([5, 8]));
    arr.set_slice((0..40).collect::<Vec<_>>()).unwrap();

    let mut count = 0;
    for (i, col) in arr.iter_cols().into_iter().enumerate() {
        count = i + 1;
        assert_eq!(col.len(), 8, "index {}", i);
        let i = i * 8;
        assert_eq!(
            col,
            ((i as i64)..(i as i64 + 8)).collect::<Vec<_>>(),
            "index {}",
            i
        );
    }
    assert_eq!(count, 5);
}

#[test]
fn test_vector_inner() {
    let a = NdArray::new_vector(vec![69; 8]);
    let b = NdArray::new_vector(vec![69; 8]);

    let c = a.inner(&b);

    assert_eq!(c, Some((69i64).pow(2) * 8));
}

#[test]
fn test_mat_mat_inner() {
    let mut a = NdArray::new(Shape::Matrix([3, 3]));
    a.set_slice(vec![42; 9]).unwrap();

    let mut b = NdArray::new(Shape::Matrix([3, 3]));
    b.set_slice(vec![69; 9]).unwrap();

    let c = a.inner(&b).unwrap();

    assert_eq!(c, (42 * 69) * 9);
}

#[test]
fn test_nd_nd_inner() {
    let mut a = NdArray::new(Shape::Tensor(vec![2, 3, 2]));
    a.set_slice(vec![42; 12]).unwrap();

    let mut b = NdArray::new(Shape::Tensor(vec![3, 2, 2]));
    b.set_slice(vec![69; 12]).unwrap();

    let c = a.inner(&b).unwrap();

    assert_eq!(c, (42 * 69) * 12);
}

// transpose matrix, displacing the 3d homogeneous vector by 5,5,5
fn translate_mat() -> Vec<i64> {
    vec![
        1, 0, 0, 0, //
        0, 1, 0, 0, //
        0, 0, 1, 0, //
        5, 5, 5, 1,
    ]
}

#[test]
fn test_vector_matrix_mul() {
    let a = NdArray::new_with_values(Shape::Vector([4]), vec![1, 2, 3, 1]).unwrap();
    let b = NdArray::new_with_values(Shape::Matrix([4, 4]), translate_mat()).unwrap();

    let mut c = NdArray::new(Shape::Scalar);
    a.matmul(&b, &mut c).expect("matmul");

    assert_eq!(c.shape, Shape::Vector([4]));
    assert_eq!(c.as_slice(), &[6, 7, 8, 1][..]);
}

#[test]
fn test_vector_matrix_mul_w_broadcasting() {
    let mat = translate_mat();

    let a = NdArray::new_with_values(Shape::Vector([4]), vec![1, 2, 3, 1]).unwrap();
    let b = NdArray::new_with_values(
        Shape::Tensor(vec![4, 4, 4]),
        (0..4).flat_map(|_| mat.iter().cloned()).collect::<Vec<_>>(),
    )
    .unwrap();

    let mut c = NdArray::new(Shape::Scalar);
    a.matmul(&b, &mut c).expect("matmul");

    println!("{:?}", c);
    assert_eq!(c.shape, Shape::Matrix([4, 4]));
    for col in c.iter_cols() {
        assert_eq!(col, vec![6, 7, 8, 1]);
    }
}

#[test]
fn test_matrix_vector_mul() {
    // transpose matrix, displacing the 3d homogeneous vector by 5,5,5
    let mat: Vec<i64> = vec![
        1, 0, 0, 5, //
        0, 1, 0, 5, //
        0, 0, 1, 5, //
        0, 0, 0, 1,
    ];

    let a = NdArray::new_with_values(Shape::Matrix([4, 4]), mat).unwrap();
    let b = NdArray::new_with_values(Shape::Vector([4]), vec![1, 2, 3, 1]).unwrap();

    let mut c = NdArray::new(Shape::Scalar);
    a.matmul(&b, &mut c).expect("matmul");

    assert_eq!(c.shape, Shape::Vector([4]));
    assert_eq!(c.as_slice(), &[6, 7, 8, 1][..]);
}

#[test]
fn test_mat_mat_mul() {
    let a = NdArray::new_with_values(Shape::Matrix([2, 3]), vec![1, 2, -1, 2, 0, 1]).unwrap();
    let b = NdArray::new_with_values(Shape::Matrix([3, 2]), vec![3, 1, 0, -1, -2, 3]).unwrap();

    let mut c = NdArray::new(Shape::Scalar);
    a.matmul(&b, &mut c).expect("matmul");

    assert_eq!(c.shape, Shape::Matrix([2, 2]));
    assert_eq!(c.as_slice(), &[5, -4, 4, 5][..]);
}

#[test]
fn test_mat_mat_mul_many() {
    let a = NdArray::new_with_values(Shape::Matrix([2, 3]), vec![1, 2, -1, 2, 0, 1]).unwrap();

    // 2 times the matrix from above
    let b = NdArray::new_with_values(
        Shape::Tensor(vec![2, 3, 2]),
        vec![3, 1, 0, -1, -2, 3, 3, 1, 0, -1, -2, 3],
    )
    .unwrap();

    let mut c = NdArray::new(Shape::Scalar);
    a.matmul(&b, &mut c).expect("matmul");

    assert_eq!(c.shape, Shape::Tensor(vec![2, 2, 2]));
    assert_eq!(c.as_slice(), &[5, -4, 4, 5, 5, -4, 4, 5][..]);
}

#[test]
fn test_mat_transpose() {
    let a = NdArray::new_with_values(Shape::Matrix([2, 3]), vec![1, 2, 3, 4, 5, 6]).unwrap();

    println!("{}", a.to_string());
    let b = a.transpose();
    println!("{}", b.to_string());

    assert_eq!(b.shape, Shape::Matrix([3, 2]));
    assert_eq!(b.as_slice(), &[1, 4, 2, 5, 3, 6][..], "{}", b.to_string());
}

#[test]
fn test_tensor_transpose() {
    let a = NdArray::new_with_values(
        Shape::Tensor(vec![4, 2, 3]),
        vec![
            1, 2, 3, 4, 5, 6, 1, 2, 3, 4, 5, 6, 1, 2, 3, 4, 5, 6, 1, 2, 3, 4, 5, 6,
        ],
    )
    .unwrap();

    println!("{}", a.to_string());
    let b = a.transpose();

    assert_eq!(b.shape, Shape::Tensor(vec![4, 3, 2]));
    assert_eq!(
        b.as_slice(),
        &[1, 4, 2, 5, 3, 6, 1, 4, 2, 5, 3, 6, 1, 4, 2, 5, 3, 6, 1, 4, 2, 5, 3, 6][..],
        "\n{}",
        b.to_string()
    );
}
