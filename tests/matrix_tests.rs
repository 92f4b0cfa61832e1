use cryptonic::broadcast::broadcast;
use cryptonic::errors::MatrixError;
use cryptonic::layout::Layout;
use cryptonic::matrix::{Matrix, MatrixIter};

#[test]
fn test_row_major_gen() {
    let mat: Matrix<i32> = Matrix::new(vec![3, 4], Layout::RowMajor);
    assert_eq!(mat.strides, vec![4, 1]);
}

#[test]
fn test_col_major_gen() {
    let mat: Matrix<i32> = Matrix::new(vec![3, 4], Layout::ColumnMajor);
    assert_eq!(mat.strides, vec![1, 3]);
}

#[test]
fn test_bound_check() {
    let mat: Matrix<i32> = Matrix::new(vec![3, 4], Layout::ColumnMajor);
    assert!(mat.check_bounds(&vec![3, 4]).is_err());
    assert!(mat.check_bounds(&vec![2, 3]).unwrap());
}

#[test]
fn test_broadcasting() {
    match broadcast(&vec![256, 256, 3], Layout::RowMajor, &vec![3], Layout::ColumnMajor) {
        Ok((v1, v2, v3)) => {
            println!("{:?}", v1);
            println!("{:?}", v2);
            println!("{:?}", v3);
        }
        Err(e) => panic!("{}", e.message()),
    }
}

#[test]
fn test_get_physical_idx() {
    let mat: Matrix<i32> = Matrix::new(vec![4, 3, 7], Layout::RowMajor);

    let (x, y, z) = (4, 0, 0);
    // An index past the first extent is rejected.
    let expected_error = Err(MatrixError::OutOfBounds);
    assert_eq!(expected_error, mat.get_physical_idx(&vec![x, y, z]));

    // Shape [4, 3, 7] has strides [21, 7, 1].
    let (x, y, z) = (1, 2, 3);
    assert_eq!(Ok(1 * 21 + 2 * 7 + 3 * 1), mat.get_physical_idx(&vec![x, y, z]));
}

fn counting(shape: Vec<usize>, layout: Layout) -> Matrix<i32> {
    let size: usize = shape.iter().product();
    let source: Vec<i32> = (1..=size as i32).collect();
    Matrix::from_iter(shape, source, layout)
}

#[test]
fn check_bounds_reports_each_outcome() {
    let mat: Matrix<i32> = Matrix::new(vec![3, 4], Layout::RowMajor);
    assert_eq!(mat.check_bounds(&vec![1]), Err(MatrixError::DimError));
    assert_eq!(mat.check_bounds(&vec![1, 2, 0]), Err(MatrixError::DimError));
    assert_eq!(mat.check_bounds(&vec![2, 4]), Err(MatrixError::OutOfBounds));
    assert_eq!(mat.check_bounds(&vec![3, 0]), Err(MatrixError::OutOfBounds));
    assert_eq!(mat.check_bounds(&vec![2, 3]), Ok(true));
    assert_eq!(mat.check_bounds(&vec![0, 0]), Ok(true));
}

#[test]
fn reshape_only_when_size_is_kept() {
    let mut mat: Matrix<i32> = Matrix::new(vec![100], Layout::RowMajor);
    assert_eq!(Err(MatrixError::ReshapeError), mat.reshape(&vec![20, 6]));
    assert_eq!(mat.shape(), &vec![100]);
    assert_eq!(mat.strides(), &vec![1]);
    assert_eq!(Ok(()), mat.reshape(&vec![20, 5]));
    assert_eq!(mat.shape(), &vec![20, 5]);
    assert_eq!(mat.strides(), &vec![5, 1]);

    let mut col: Matrix<i32> = Matrix::new(vec![6], Layout::ColumnMajor);
    assert_eq!(Ok(()), col.reshape(&vec![2, 3]));
    assert_eq!(col.strides(), &vec![1, 2]);
}

#[test]
fn transpose_reverses_metadata_and_is_self_inverse() {
    let mut mat = counting(vec![3, 4], Layout::RowMajor);
    mat.transpose();
    assert_eq!(mat.shape(), &vec![4, 3]);
    assert_eq!(mat.strides(), &vec![1, 4]);
    assert_eq!(mat.layout, Layout::ColumnMajor);
    assert_eq!(mat.get(&vec![3, 1]), Ok(&8));
    mat.transpose();
    assert_eq!(mat.shape(), &vec![3, 4]);
    assert_eq!(mat.strides(), &vec![4, 1]);
    assert_eq!(mat.layout, Layout::RowMajor);
    assert_eq!(mat.data, (1..=12).collect::<Vec<i32>>());
}

#[test]
fn flatten_gives_one_axis_of_unit_stride() {
    let mut mat = counting(vec![3, 4], Layout::RowMajor);
    mat.flatten();
    assert_eq!(mat.shape(), &vec![12]);
    assert_eq!(mat.strides(), &vec![1]);
    assert_eq!(mat.layout, Layout::RowMajor);

    let mut col: Matrix<i32> = Matrix::new(vec![2, 3, 4], Layout::ColumnMajor);
    col.flatten();
    assert_eq!(col.shape(), &vec![24]);
    assert_eq!(col.strides(), &vec![1]);
}

#[test]
fn physical_index_follows_strides() {
    let mat: Matrix<i32> = Matrix::new(vec![3, 4], Layout::RowMajor);
    assert_eq!(mat.get_physical_idx(&vec![2, 1]), Ok(9));
    assert_eq!(mat.get_physical_idx(&vec![2]), Err(MatrixError::DimError));
    let col: Matrix<i32> = Matrix::new(vec![3, 4], Layout::ColumnMajor);
    assert_eq!(col.get_physical_idx(&vec![2, 1]), Ok(5));
}

#[test]
fn new_fills_with_default_and_size_is_the_product() {
    let mat: Matrix<i32> = Matrix::new(vec![2, 3, 4], Layout::RowMajor);
    assert_eq!(mat.size(), 24);
    assert_eq!(mat.data.len(), 24);
    assert!(mat.data.iter().all(|x| *x == 0));
    assert_eq!(mat.strides(), &vec![12, 4, 1]);
}

#[test]
fn from_iter_takes_only_what_the_shape_needs() {
    let mat = Matrix::from_iter(vec![2, 2], vec![7, 8, 9, 10, 11, 12], Layout::RowMajor);
    assert_eq!(mat.data, vec![7, 8, 9, 10]);
    assert_eq!(mat.get(&vec![1, 0]), Ok(&9));
}

#[test]
fn get_set_and_get_mut_address_one_cell() {
    let mut mat: Matrix<i32> = Matrix::new(vec![3, 4], Layout::RowMajor);
    assert_eq!(mat.set(&vec![0, 0], 5), Ok(()));
    assert_eq!(mat.get(&vec![0, 0]), Ok(&5));
    assert_eq!(mat.set(&vec![3, 0], 5), Err(MatrixError::OutOfBounds));
    assert_eq!(mat.set(&vec![0], 5), Err(MatrixError::DimError));
    if let Ok(cell) = mat.get_mut(&vec![2, 3]) {
        *cell = 42;
    }
    assert_eq!(mat.get_copy(&vec![2, 3]), Ok(42));
    assert_eq!(mat.data[11], 42);
    assert_eq!(mat.get(&vec![5, 6]), Err(MatrixError::OutOfBounds));
    assert!(mat.get_mut(&vec![0, 4]).is_err());
}

#[test]
fn get_copy_row_copies_innermost_row() {
    let mat = counting(vec![2, 3], Layout::RowMajor);
    let mut prefix = vec![1];
    assert_eq!(mat.get_copy_row(&mut prefix), Ok(vec![4, 5, 6]));
    assert_eq!(prefix, vec![1]);
    let mut wrong_rank = vec![0, 0];
    assert_eq!(mat.get_copy_row(&mut wrong_rank), Err(MatrixError::DimError));
    let mut outside = vec![2];
    assert_eq!(mat.get_copy_row(&mut outside), Err(MatrixError::OutOfBounds));
}

#[test]
fn apply_walks_storage_in_physical_order() {
    let mat = counting(vec![3, 6], Layout::RowMajor);
    let mut sum = 0;
    mat.apply(|n| sum += *n);
    assert_eq!(sum, 171);

    let mut seen = Vec::new();
    let mut t = counting(vec![2, 2], Layout::RowMajor);
    t.transpose();
    t.apply(|n| seen.push(*n));
    assert_eq!(seen, vec![1, 2, 3, 4]);
}

#[test]
fn apply_mut_changes_every_cell() {
    let mut mat = counting(vec![3, 4], Layout::RowMajor);
    mat.apply_mut(|n| *n * 2);
    assert_eq!(mat.get(&vec![0, 0]), Ok(&2));
    assert_eq!(mat.get(&vec![0, 1]), Ok(&4));
    assert_eq!(mat.get(&vec![0, 2]), Ok(&6));
    assert_eq!(mat.get(&vec![2, 3]), Ok(&24));
}

#[test]
fn apply_mut_visits_slots_in_physical_order() {
    let mut mat = counting(vec![2, 2], Layout::RowMajor);
    mat.transpose();
    let mut calls = 0;
    mat.apply_mut(|n| {
        calls += 1;
        *n * 10 + calls
    });
    assert_eq!(mat.data, vec![11, 22, 33, 44]);
    assert_eq!(mat.get(&vec![1, 0]), Ok(&22));
}

#[test]
fn set_shape_and_set_strides_overwrite_metadata_only() {
    let mut mat = counting(vec![3, 4], Layout::RowMajor);
    mat.set_shape(&[12]);
    mat.set_strides(&[1]);
    assert_eq!(mat.shape(), &vec![12]);
    assert_eq!(mat.strides(), &vec![1]);
    assert_eq!(mat.get(&vec![11]), Ok(&12));
    assert_eq!(mat.data.len(), 12);
}

#[test]
fn iterator_walks_odometer_order() {
    let mat = counting(vec![2, 3], Layout::RowMajor);
    let mut it = MatrixIter::new(&mat);
    let mut indices = Vec::new();
    let mut items = Vec::new();
    while let Some((item, idx)) = it.next() {
        items.push(item);
        indices.push(idx);
    }
    assert_eq!(
        indices,
        vec![vec![0, 0], vec![0, 1], vec![0, 2], vec![1, 0], vec![1, 1], vec![1, 2]]
    );
    assert_eq!(items, vec![1, 2, 3, 4, 5, 6]);
    assert!(it.next().is_none());
    assert!(it.empty);
}

#[test]
fn iterator_follows_logical_order_after_transpose() {
    let mut mat = counting(vec![2, 3], Layout::RowMajor);
    mat.transpose();
    let mut it = MatrixIter::new(&mat);
    let mut items = Vec::new();
    while let Some((item, _)) = it.next() {
        items.push(item);
    }
    assert_eq!(items, vec![1, 4, 2, 5, 3, 6]);
}

#[test]
fn iterator_over_empty_extent_yields_nothing() {
    let mat: Matrix<i32> = Matrix::new(vec![2, 0], Layout::RowMajor);
    let mut it = MatrixIter::new(&mat);
    assert!(it.next().is_none());
}

#[test]
fn error_messages_describe_each_error() {
    assert_eq!(MatrixError::BroadcastError.message(), "Shapes are not broadcastable");
    assert_eq!(MatrixError::OutOfBounds.message(), "Indices are out of bounds for the matrix");
    assert_eq!(MatrixError::ReshapeError.message(), "Matrix cannot be reshaped into given shape");
    assert!(!MatrixError::InvalidParams.message().is_empty());
}
