use vstd::prelude::*;
use crate::layout::Layout;
use crate::shape_math::{
    canonical_strides, column_major_strides, lemma_strides_values, prefix_product, row_major_strides,
    shape_fits, shape_size, suffix_product,
};

verus! {

/// Two shapes can be joined along `axis`: equal rank, equal extents off that axis.
pub open spec fn concat_compatible(lhs: Seq<usize>, rhs: Seq<usize>, axis: usize) -> bool {
    &&& lhs.len() == rhs.len()
    &&& forall|i: int| 0 <= i < lhs.len() && i != axis ==> lhs[i] == rhs[i]
}

/// Shape of two matrices joined along `axis`.
pub open spec fn concat_shape_of(lhs: Seq<usize>, rhs: Seq<usize>, axis: usize) -> Seq<usize> {
    lhs.update(axis as int, (lhs[axis as int] + rhs[axis as int]) as usize)
}

/// Joining along `axis` is possible and the joined extent fits in a `usize`.
pub open spec fn concat_fits(lhs: Seq<usize>, rhs: Seq<usize>, axis: usize) -> bool {
    concat_compatible(lhs, rhs, axis) ==> {
        &&& axis < lhs.len()
        &&& lhs[axis as int] + rhs[axis as int] <= usize::MAX
    }
}

/// Calculates the canonical strides of `shape` under `layout`.
pub fn calc_strides_from_shape(shape: &Vec<usize>, layout: Layout) -> (r: Vec<usize>)
    requires
        shape_fits(shape@),
    ensures
        r@ == canonical_strides(shape@, layout),
{
    let n = shape.len();
    let mut data_size: usize = 1;
    let mut strides: Vec<usize> = vec![0; n];
    proof {
        lemma_strides_values(shape@);
    }
    if layout == Layout::RowMajor {
        let mut i: usize = n;
        while i > 0
            invariant
                n == shape.len(),
                shape_fits(shape@),
                i <= n,
                strides.len() == n,
                data_size == suffix_product(shape@, i as int),
                forall|j: int| i <= j < n ==> strides@[j] == row_major_strides(shape@)[j],
            decreases i,
        {
            strides.set(i - 1, data_size);
            assert(suffix_product(shape@, i - 1) == shape@[i - 1] * suffix_product(
                shape@,
                i as int,
            ));
            assert(suffix_product(shape@, i - 1) <= usize::MAX);
            data_size = data_size * shape[i - 1];
            i = i - 1;
        }
        assert(strides@ =~= row_major_strides(shape@));
    } else {
        let mut i: usize = 0;
        while i < n
            invariant
                n == shape.len(),
                shape_fits(shape@),
                i <= n,
                strides.len() == n,
                data_size == prefix_product(shape@, i as int),
                forall|j: int| 0 <= j < i ==> strides@[j] == column_major_strides(shape@)[j],
            decreases n - i,
        {
            strides.set(i, data_size);
            assert(prefix_product(shape@, i + 1) <= usize::MAX);
            data_size = data_size * shape[i];
            i = i + 1;
        }
        assert(strides@ =~= column_major_strides(shape@));
    }
    strides
}

/// Calculates the number of elements that `shape` describes.
pub fn calc_size_from_shape(shape: &Vec<usize>) -> (r: usize)
    requires
        shape.len() > 0,
        shape_fits(shape@),
    ensures
        r == shape_size(shape@),
{
    let n = shape.len();
    let mut acc: usize = shape[0];
    let mut i: usize = 1;
    assert(prefix_product(shape@, 1) == shape@[0]) by {
        reveal_with_fuel(prefix_product, 2);
    }
    while i < n
        invariant
            n == shape.len(),
            shape_fits(shape@),
            1 <= i <= n,
            acc == prefix_product(shape@, i as int),
        decreases n - i,
    {
        assert(prefix_product(shape@, i + 1) <= usize::MAX);
        acc = acc * shape[i];
        i = i + 1;
    }
    acc
}

/// Checks that two shapes differ at most along `axis`, so that they can be concatenated.
pub fn check_concat_dims(lhs: &Vec<usize>, rhs: &Vec<usize>, axis: usize) -> (r: bool)
    ensures
        r == concat_compatible(lhs@, rhs@, axis),
{
    if lhs.len() != rhs.len() {
        return false;
    }
    let len = lhs.len();
    let mut i: usize = 0;
    while i < len
        invariant
            len == lhs.len(),
            len == rhs.len(),
            i <= len,
            forall|j: int| 0 <= j < i && j != axis ==> lhs@[j] == rhs@[j],
        decreases len - i,
    {
        if i != axis && lhs[i] != rhs[i] {
            return false;
        }
        i = i + 1;
    }
    true
}

/// The shape of two matrices concatenated along `axis`, or `None` when they differ
/// along another axis.
pub fn calc_concat_shape(lhs: &Vec<usize>, rhs: &Vec<usize>, axis: usize) -> (r: Option<
    Vec<usize>,
>)
    requires
        concat_fits(lhs@, rhs@, axis),
    ensures
        r is Some <==> concat_compatible(lhs@, rhs@, axis),
        r is Some ==> r->Some_0@ == concat_shape_of(lhs@, rhs@, axis),
{
    if !check_concat_dims(lhs, rhs, axis) {
        return None;
    }
    let mut f_vec = lhs.clone();
    let joined = lhs[axis] + rhs[axis];
    f_vec.set(axis, joined);
    Some(f_vec)
}

} // verus!
