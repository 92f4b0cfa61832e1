use cryptonic::activations::relu_usize;
use cryptonic::arithmetic;
use cryptonic::arithmetic::{
    add, multiply_1d, multiply_2d, multiply_scalar, multiply_scalar_diff_type,
    multiply_scalar_generic, subtract,
};
use cryptonic::broadcast::broadcast;
use cryptonic::errors::MatrixError;
use cryptonic::layout::Layout;
use cryptonic::matrix::Matrix;
use cryptonic::utils::{
    calc_concat_shape, calc_size_from_shape, calc_strides_from_shape, check_concat_dims,
};

fn counting(shape: Vec<usize>) -> Matrix<i32> {
    let size: usize = shape.iter().product();
    let source: Vec<i32> = (1..=size as i32).collect();
    Matrix::from_iter(shape, source, Layout::RowMajor)
}

fn filled(shape: Vec<usize>, value: i32) -> Matrix<i32> {
    let size: usize = shape.iter().product();
    Matrix::from_iter(shape, vec![value; size], Layout::RowMajor)
}

#[test]
fn broadcast_right_aligns_and_zeroes_stretched_strides() {
    let (shape, lhs, rhs) =
        broadcast(&vec![3, 4], Layout::RowMajor, &vec![7, 3, 4], Layout::RowMajor).unwrap();
    assert_eq!(shape, vec![7, 3, 4]);
    assert_eq!(lhs, vec![0, 4, 1]);
    assert_eq!(rhs, vec![12, 4, 1]);
}

#[test]
fn broadcast_stretches_either_side() {
    let (shape, lhs, rhs) =
        broadcast(&vec![256, 256, 3], Layout::RowMajor, &vec![3], Layout::ColumnMajor).unwrap();
    assert_eq!(shape, vec![256, 256, 3]);
    assert_eq!(lhs, vec![768, 3, 1]);
    assert_eq!(rhs, vec![0, 0, 1]);

    let (shape, lhs, rhs) =
        broadcast(&vec![2, 1], Layout::RowMajor, &vec![1, 3], Layout::RowMajor).unwrap();
    assert_eq!(shape, vec![2, 3]);
    assert_eq!(lhs, vec![1, 0]);
    assert_eq!(rhs, vec![0, 1]);
}

#[test]
fn broadcast_rejects_incompatible_extents() {
    assert_eq!(
        broadcast(&vec![3, 2], Layout::RowMajor, &vec![2, 2], Layout::RowMajor),
        Err(MatrixError::BroadcastError)
    );
}

#[test]
fn add_same_shapes() {
    let (res, lhs, rhs) = add(counting(vec![3, 2]), counting(vec![3, 2])).unwrap();
    assert_eq!(res.data, vec![2, 4, 6, 8, 10, 12]);
    assert_eq!(res.shape(), &vec![3, 2]);
    assert_eq!(res.strides(), &vec![2, 1]);
    assert_eq!(res.layout, Layout::RowMajor);
    assert_eq!(lhs.shape(), &vec![3, 2]);
    assert_eq!(rhs.data, vec![1, 2, 3, 4, 5, 6]);
}

#[test]
fn add_broadcasts_and_reshapes_operands() {
    let column = Matrix::from_iter(vec![2, 1], vec![1, 2], Layout::RowMajor);
    let row = Matrix::from_iter(vec![3], vec![10, 20, 30], Layout::RowMajor);
    let (res, lhs, rhs) = add(column, row).unwrap();
    assert_eq!(res.shape(), &vec![2, 3]);
    assert_eq!(res.data, vec![11, 21, 31, 12, 22, 32]);
    assert_eq!(lhs.shape(), &vec![2, 3]);
    assert_eq!(lhs.strides(), &vec![1, 0]);
    assert_eq!(rhs.shape(), &vec![2, 3]);
    assert_eq!(rhs.strides(), &vec![0, 1]);
    assert_eq!(rhs.get(&vec![1, 2]), Ok(&30));
}

#[test]
fn subtract_same_shapes_gives_zero() {
    let (res, _, _) = subtract(counting(vec![2, 2]), counting(vec![2, 2])).unwrap();
    assert_eq!(res.data, vec![0, 0, 0, 0]);
}

#[test]
fn subtract_broadcasts_rhs() {
    let lhs = counting(vec![2, 3]);
    let rhs = Matrix::from_iter(vec![3], vec![1, 1, 1], Layout::RowMajor);
    let (res, _, _) = subtract(lhs, rhs).unwrap();
    assert_eq!(res.data, vec![0, 1, 2, 3, 4, 5]);
}

#[test]
fn subtract_rejects_unbroadcastable_shapes() {
    let result = subtract(counting(vec![3, 2]), counting(vec![2, 2]));
    assert_eq!(result.err(), Some(MatrixError::BroadcastError));
}

#[test]
fn add_rejects_unbroadcastable_shapes() {
    let result = add(counting(vec![3]), counting(vec![4]));
    assert_eq!(result.err(), Some(MatrixError::BroadcastError));
}

#[test]
fn concat_along_first_axis() {
    let zeros = filled(vec![2, 3], 0);
    let ones = filled(vec![3, 3], 1);
    let (res, lhs, rhs) = arithmetic::concat(zeros, ones, 0).unwrap();
    assert_eq!(res.shape(), &vec![5, 3]);
    assert_eq!(res.data, vec![0, 0, 0, 0, 0, 0, 1, 1, 1, 1, 1, 1, 1, 1, 1]);
    assert_eq!(lhs.shape(), &vec![2, 3]);
    assert_eq!(rhs.shape(), &vec![3, 3]);
}

#[test]
fn concat_along_last_axis_shifts_by_full_extent() {
    let lhs = counting(vec![2, 2]);
    let rhs = Matrix::from_iter(vec![2, 4], (11..=18).collect(), Layout::RowMajor);
    let (res, _, _) = arithmetic::concat(lhs, rhs, 1).unwrap();
    assert_eq!(res.shape(), &vec![2, 6]);
    assert_eq!(res.data, vec![1, 2, 11, 12, 13, 14, 3, 4, 15, 16, 17, 18]);
}

#[test]
fn concat_rejects_mismatched_dimensions() {
    let result = arithmetic::concat(counting(vec![2, 3]), counting(vec![3, 4]), 0);
    assert_eq!(result.err(), Some(MatrixError::DimError));
    let result = arithmetic::concat(counting(vec![2, 3]), counting(vec![2, 3, 1]), 0);
    assert_eq!(result.err(), Some(MatrixError::DimError));
}

#[test]
fn multiply_scalar_scales_every_cell() {
    let res = multiply_scalar(counting(vec![2, 2]), 5);
    assert_eq!(res.data, vec![5, 10, 15, 20]);
    assert_eq!(res.shape(), &vec![2, 2]);
}

#[test]
fn multiply_scalar_generic_builds_new_matrix() {
    let weights = Matrix::from_iter(vec![3], vec![1, -2, 3], Layout::ColumnMajor);
    let res: Matrix<i32> = multiply_scalar_generic(weights, 4);
    assert_eq!(res.data, vec![4, -8, 12]);
    assert_eq!(res.layout, Layout::ColumnMajor);
    assert_eq!(res.shape(), &vec![3]);
}

#[test]
fn multiply_scalar_diff_type_scales_every_cell() {
    let res = multiply_scalar_diff_type(counting(vec![3]), -3);
    assert_eq!(res.data, vec![-3, -6, -9]);
}

#[test]
fn multiply_2d_square() {
    let mat1 = Matrix::from_iter(vec![2, 2], vec![1, 2, 3, 4], Layout::RowMajor);
    let mat2 = Matrix::from_iter(vec![2, 2], vec![5, 6, 0, 7], Layout::RowMajor);
    let (prod, _, _) = multiply_2d(mat1, mat2).unwrap();
    assert_eq!(prod.shape(), &vec![2, 2]);
    assert_eq!(prod.data, vec![5, 20, 15, 46]);
}

#[test]
fn multiply_2d_errors() {
    let flat = counting(vec![4]);
    let square = counting(vec![2, 2]);
    assert_eq!(multiply_2d(flat, square).err(), Some(MatrixError::MatmulShapeError));
    let a = counting(vec![3, 2]);
    let b = counting(vec![2, 2]);
    assert_eq!(multiply_2d(a, b).err(), Some(MatrixError::BroadcastError));
}

#[test]
fn multiply_1d_accumulates_lhs_squares() {
    let mat1 = Matrix::from_iter(vec![4], vec![1, 2, 3, 4], Layout::RowMajor);
    let mat2 = Matrix::from_iter(vec![4], vec![5, 6, 0, 7], Layout::RowMajor);
    let (dot, lhs, rhs) = multiply_1d(mat1, mat2).unwrap();
    assert_eq!(dot, 30);
    assert_eq!(lhs.data, vec![1, 2, 3, 4]);
    assert_eq!(rhs.data, vec![5, 6, 0, 7]);
}

#[test]
fn multiply_1d_shape_checks() {
    let two_axes = counting(vec![2, 2]);
    let flat = counting(vec![4]);
    assert_eq!(multiply_1d(two_axes, flat).err(), Some(MatrixError::MatmulShapeError));
    let flat = counting(vec![2]);
    let two_axes = counting(vec![2, 3]);
    assert_eq!(multiply_1d(flat, two_axes).err(), Some(MatrixError::MatmulShapeError));
    let flat = counting(vec![4]);
    let two_axes = counting(vec![2, 3]);
    assert_eq!(multiply_1d(flat, two_axes).err(), Some(MatrixError::MatmulShapeError));
}

#[test]
fn multiply_1d_rejects_unequal_lengths() {
    let short = counting(vec![1]);
    let long = counting(vec![2]);
    assert_eq!(multiply_1d(short, long).err(), Some(MatrixError::MatmulShapeError));
    let long = counting(vec![3]);
    let short = counting(vec![2]);
    assert_eq!(multiply_1d(long, short).err(), Some(MatrixError::MatmulShapeError));
}

#[test]
fn relu_clamps_negatives_to_default() {
    assert_eq!(relu_usize(-3), 0);
    assert_eq!(relu_usize(0), 0);
    assert_eq!(relu_usize(7), 7);
}

#[test]
fn strides_and_size_from_shape() {
    assert_eq!(calc_strides_from_shape(&vec![3, 4], Layout::RowMajor), vec![4, 1]);
    assert_eq!(calc_strides_from_shape(&vec![3, 4], Layout::ColumnMajor), vec![1, 3]);
    assert_eq!(calc_strides_from_shape(&vec![2, 3, 4], Layout::ColumnMajor), vec![1, 2, 6]);
    assert_eq!(calc_size_from_shape(&vec![3, 4]), 12);
    assert_eq!(calc_size_from_shape(&vec![5]), 5);
    assert_eq!(calc_size_from_shape(&vec![3, 0, 2]), 0);
}

#[test]
fn concat_shape_helpers() {
    assert!(check_concat_dims(&vec![3, 4, 5], &vec![3, 2, 5], 1));
    assert!(!check_concat_dims(&vec![3, 4, 5], &vec![3, 2, 6], 1));
    assert!(!check_concat_dims(&vec![3, 4], &vec![3, 4, 1], 0));
    assert_eq!(calc_concat_shape(&vec![3, 4, 5], &vec![3, 2, 5], 1), Some(vec![3, 6, 5]));
    assert_eq!(calc_concat_shape(&vec![3, 4, 5], &vec![2, 2, 5], 1), None);
}
