// A second copy of the core test suite, mirroring the sibling module that
// built its arrays through `new` and `set_slice` instead of the dedicated
// constructors.

use du_core::ndarray::NdArray;
use du_core::shape::{get_index, Shape};

#[test]
fn tests_nd_index() {
    // The flat offset follows the row-major formula: the stride of the last
    // axis is 1, each earlier stride is the product of the later axis
    // lengths.
    let i = get_index(&[2, 4, 8], &[4 * 8, 8, 1], &[1, 3, 5]).unwrap();

    assert_eq!(i, 5 + 3 * 8 + 1 * 4 * 8);
}

#[test]
fn tests_get_column() {
    let mut arr = NdArray::new(Shape::Tensor(vec![4, 2, 3]));
    arr.as_mut_slice()
        .iter_mut()
        .enumerate()
        .for_each(|(i, x)| *x = i as i64);

    let col = arr.get_column(&[1, 1]).unwrap();

    assert_eq!(col, vec![9, 10, 11]);
}

#[test]
fn tests_test_slice_frees_correctly() {
    let mut arr = NdArray::new(Shape::Matrix([5, 5]));

    arr.set_slice(vec![69i64; 25]).unwrap();

    for val in arr.as_slice() {
        assert_eq!(*val, 69);
    }
}

#[test]
fn tests_test_iter_cols() {
    let mut arr = NdArray::new(Shape::Matrix([5, 8]));
    arr.set_slice((0..40).collect::<Vec<_>>()).unwrap();

    let mut count = 0;
    for (i, col) in arr.iter_cols().into_iter().enumerate() {
        count = i + 1;
        assert_eq!(col.len(), 8, "index {}", i);
        let i = i * 8;
        assert_eq!(
            col,
            ((i as i64)..(i as i64 + 8)).collect::<Vec<_>>(),
            "index {}",
            i
        );
    }
    assert_eq!(count, 5);
}

#[test]
fn tests_test_vector_inner() {
    let mut a = NdArray::new(Shape::Vector([8]));
    a.set_slice(vec![69; 8]).unwrap();

    let mut b = NdArray::new(Shape::Vector([8]));
    b.set_slice(vec![69; 8]).unwrap();

    let c = a.inner(&b);

    assert_eq!(c, Some((69i64).pow(2) * 8));
}

#[test]
fn tests_test_mat_mat_inner() {
    let mut a = NdArray::new(Shape::Matrix([3, 3]));
    a.set_slice(vec![42; 9]).unwrap();

    let mut b = NdArray::new(Shape::Matrix([3, 3]));
    b.set_slice(vec![69; 9]).unwrap();

    let c = a.inner(&b).unwrap();

    assert_eq!(c, (42 * 69) * 9);
}

#[test]
fn tests_test_nd_nd_inner() {
    let mut a = NdArray::new(Shape::Tensor(vec![2, 3, 2]));
    a.set_slice(vec![42; 12]).unwrap();

    let mut b = NdArray::new(Shape::Tensor(vec![3, 2, 2]));
    b.set_slice(vec![69; 12]).unwrap();

    let c = a.inner(&b).unwrap();

    assert_eq!(c, (42 * 69) * 12);
}
