use vstd::prelude::*;
use vstd::std_specs::ops::{AddSpec, MulSpec, SubSpec};
use core::ops::{Add, Mul, MulAssign, Sub};
use crate::broadcast::{
    broadcast, broadcast_lhs_strides, broadcast_rhs_strides, broadcast_shape, broadcastable,
    lemma_broadcast_lhs_bound, lemma_broadcast_rhs_bound,
};
use crate::errors::MatrixError;
use crate::layout::Layout;
use crate::matrix::{lemma_iter_start, Matrix, MatrixIter};
use crate::shape_math::{
    in_bounds, lemma_linear_bound, lemma_linear_injective, lemma_row_major_offset, linear_index,
    offset, row_major_strides, shape_fits, shape_size,
};
use crate::utils::{calc_concat_shape, check_concat_dims, concat_compatible, concat_fits, concat_shape_of};

verus! {

/// `l2` is `lhs` carrying the broadcast shape and strides against `rhs`, over the same storage.
pub open spec fn is_broadcast_lhs<T>(l2: Matrix<T>, lhs: Matrix<T>, rhs: Matrix<T>) -> bool {
    &&& l2.shape@ == broadcast_shape(lhs.shape@, rhs.shape@)
    &&& l2.strides@ == broadcast_lhs_strides(lhs.shape@, lhs.layout, rhs.shape@)
    &&& l2.data@ == lhs.data@
    &&& l2.layout == lhs.layout
}

/// `r2` is `rhs` carrying the broadcast shape and strides against `lhs`, over the same storage.
pub open spec fn is_broadcast_rhs<T>(r2: Matrix<T>, lhs: Matrix<T>, rhs: Matrix<T>) -> bool {
    &&& r2.shape@ == broadcast_shape(lhs.shape@, rhs.shape@)
    &&& r2.strides@ == broadcast_rhs_strides(lhs.shape@, rhs.shape@, rhs.layout)
    &&& r2.data@ == rhs.data@
    &&& r2.layout == rhs.layout
}

/// The element of `lhs` that the broadcast index `idx` reaches.
pub open spec fn lhs_at<T>(lhs: Matrix<T>, rhs: Matrix<T>, idx: Seq<usize>) -> T {
    lhs.data@[offset(idx, broadcast_lhs_strides(lhs.shape@, lhs.layout, rhs.shape@))]
}

/// The element of `rhs` that the broadcast index `idx` reaches.
pub open spec fn rhs_at<T>(lhs: Matrix<T>, rhs: Matrix<T>, idx: Seq<usize>) -> T {
    rhs.data@[offset(idx, broadcast_rhs_strides(lhs.shape@, rhs.shape@, rhs.layout))]
}

/// Adding any clone of `a` to any clone of `b` is allowed.
pub open spec fn add_defined<T: Clone + Add<Output = T>>(a: T, b: T) -> bool {
    forall|x: T, y: T| cloned(a, x) && cloned(b, y) ==> #[trigger] x.add_req(y)
}

/// `r` is the sum of a clone of `a` and a clone of `b`.
pub open spec fn is_clone_sum<T: Clone + Add<Output = T>>(a: T, b: T, r: T) -> bool {
    exists|x: T, y: T|
        cloned(a, x) && cloned(b, y) && #[trigger] call_ensures(<T as Add>::add, (x, y), r)
}

/// Subtracting any clone of `b` from any clone of `a` is allowed.
pub open spec fn sub_defined<T: Clone + Sub<Output = T>>(a: T, b: T) -> bool {
    forall|x: T, y: T| cloned(a, x) && cloned(b, y) ==> #[trigger] x.sub_req(y)
}

/// `r` is a clone of `a` minus a clone of `b`.
pub open spec fn is_clone_difference<T: Clone + Sub<Output = T>>(a: T, b: T, r: T) -> bool {
    exists|x: T, y: T|
        cloned(a, x) && cloned(b, y) && #[trigger] call_ensures(<T as Sub>::sub, (x, y), r)
}

/// Gives both operands their broadcast shape and strides.
fn align_operands<T>(lhs: Matrix<T>, rhs: Matrix<T>) -> (r: Result<
    (Matrix<T>, Matrix<T>),
    MatrixError,
>)
    requires
        lhs.covers_shape(),
        rhs.covers_shape(),
        broadcastable(lhs.shape@, rhs.shape@) ==> shape_fits(
            broadcast_shape(lhs.shape@, rhs.shape@),
        ),
    ensures
        r is Ok <==> broadcastable(lhs.shape@, rhs.shape@),
        r is Err ==> r->Err_0 == MatrixError::BroadcastError,
        r is Ok ==> {
            &&& is_broadcast_lhs(r->Ok_0.0, lhs, rhs)
            &&& is_broadcast_rhs(r->Ok_0.1, lhs, rhs)
            &&& r->Ok_0.0.wf()
            &&& r->Ok_0.1.wf()
        },
{
    let ghost l0 = lhs;
    let ghost r0 = rhs;
    let mut lhs = lhs;
    let mut rhs = rhs;
    match broadcast(&lhs.shape, lhs.layout, &rhs.shape, rhs.layout) {
        Ok((shape, lhs_strides, rhs_strides)) => {
            lhs.set_shape(shape.as_slice());
            rhs.set_shape(shape.as_slice());
            lhs.set_strides(lhs_strides.as_slice());
            rhs.set_strides(rhs_strides.as_slice());
            proof {
                lemma_broadcast_lhs_bound(l0.shape@, l0.layout, r0.shape@);
                lemma_broadcast_rhs_bound(l0.shape@, r0.shape@, r0.layout);
                assert(lhs.wf());
                assert(rhs.wf());
            }
            Ok((lhs, rhs))
        },
        Err(err) => Err(err),
    }
}

/// Elementwise sum after broadcasting. Both operands come back carrying their broadcast
/// shape and strides; the result is a new row-major matrix of the broadcast shape.
pub fn add<T>(lhs: Matrix<T>, rhs: Matrix<T>) -> (r: Result<
    (Matrix<T>, Matrix<T>, Matrix<T>),
    MatrixError,
>) where T: Clone + Default + Add<Output = T>
    requires
        lhs.covers_shape(),
        rhs.covers_shape(),
        broadcastable(lhs.shape@, rhs.shape@) ==> shape_fits(
            broadcast_shape(lhs.shape@, rhs.shape@),
        ),
        broadcastable(lhs.shape@, rhs.shape@) ==> forall|idx: Seq<usize>|
            #[trigger] in_bounds(idx, broadcast_shape(lhs.shape@, rhs.shape@)) ==> add_defined(
                lhs_at(lhs, rhs, idx),
                rhs_at(lhs, rhs, idx),
            ),
    ensures
        r is Ok <==> broadcastable(lhs.shape@, rhs.shape@),
        r is Err ==> r->Err_0 == MatrixError::BroadcastError,
        r is Ok ==> {
            let res = r->Ok_0.0;
            let bshape = broadcast_shape(lhs.shape@, rhs.shape@);
            &&& is_broadcast_lhs(r->Ok_0.1, lhs, rhs)
            &&& is_broadcast_rhs(r->Ok_0.2, lhs, rhs)
            &&& res.is_dense()
            &&& res.wf()
            &&& res.shape@ == bshape
            &&& res.layout == Layout::RowMajor
            &&& forall|idx: Seq<usize>|
                #[trigger] in_bounds(idx, bshape) ==> is_clone_sum(
                    lhs_at(lhs, rhs, idx),
                    rhs_at(lhs, rhs, idx),
                    res.elem(idx),
                )
        },
{
    let ghost l0 = lhs;
    let ghost r0 = rhs;
    let (l2, r2) = match align_operands(lhs, rhs) {
        Ok(pair) => pair,
        Err(err) => {
            return Err(err);
        },
    };
    let ghost b = l2.shape@;
    let mut new_matrix: Matrix<T> = Matrix::new(l2.shape.clone(), Layout::RowMajor);
    let total = new_matrix.size();
    let mut lhs_iter = MatrixIter::new(&l2);
    let mut rhs_iter = MatrixIter::new(&r2);
    let mut k: usize = 0;
    proof {
        lemma_iter_start(b);
        assert forall|idx: Seq<usize>| #[trigger] in_bounds(idx, b) implies linear_index(idx, b)
            >= 0 by {
            lemma_linear_bound(idx, b, b.len() as int);
        }
    }
    while k < total
        invariant
            l2.wf(),
            r2.wf(),
            is_broadcast_lhs(l2, l0, r0),
            is_broadcast_rhs(r2, l0, r0),
            b == broadcast_shape(l0.shape@, r0.shape@),
            *lhs_iter.mat == l2,
            *rhs_iter.mat == r2,
            new_matrix.is_dense(),
            new_matrix.wf(),
            new_matrix.shape@ == b,
            new_matrix.layout == Layout::RowMajor,
            total == shape_size(b),
            k <= total,
            k < total ==> !lhs_iter.empty && in_bounds(lhs_iter.index@, b) && linear_index(
                lhs_iter.index@,
                b,
            ) == k,
            k < total ==> !rhs_iter.empty && in_bounds(rhs_iter.index@, b) && linear_index(
                rhs_iter.index@,
                b,
            ) == k,
            forall|idx: Seq<usize>|
                #[trigger] in_bounds(idx, b) ==> add_defined(
                    lhs_at(l0, r0, idx),
                    rhs_at(l0, r0, idx),
                ),
            forall|idx: Seq<usize>|
                #[trigger] in_bounds(idx, b) && linear_index(idx, b) < k ==> is_clone_sum(
                    lhs_at(l0, r0, idx),
                    rhs_at(l0, r0, idx),
                    new_matrix.data@[linear_index(idx, b)],
                ),
        decreases total - k,
    {
        let ghost at = lhs_iter.index@;
        proof {
            lemma_linear_injective(
                lhs_iter.index@,
                rhs_iter.index@,
                b,
                b.len() as int,
            );
            assert(lhs_iter.index@ =~= rhs_iter.index@);
        }
        let lhs_next = lhs_iter.next();
        let rhs_next = rhs_iter.next();
        if let Some((lhs_item, lhs_index)) = lhs_next {
            if let Some((rhs_item, _rhs_index)) = rhs_next {
                let ghost x = lhs_item;
                let ghost y = rhs_item;
                let ghost old_data = new_matrix.data@;
                assert(x.add_req(y));
                let value = lhs_item + rhs_item;
                proof {
                    lemma_row_major_offset(at, b);
                    assert(lhs_index@ == at);
                    assert(offset(at, new_matrix.strides@) == k as int);
                }
                let _ = new_matrix.set(&lhs_index, value);
                proof {
                    assert(call_ensures(<T as Add>::add, (x, y), value));
                    assert forall|idx: Seq<usize>|
                        #[trigger] in_bounds(idx, b) && linear_index(idx, b) < k + 1 implies is_clone_sum(
                        lhs_at(l0, r0, idx),
                        rhs_at(l0, r0, idx),
                        new_matrix.data@[linear_index(idx, b)],
                    ) by {
                        if linear_index(idx, b) == k {
                            lemma_linear_injective(idx, at, b, b.len() as int);
                            assert(idx =~= at);
                        } else {
                            lemma_linear_bound(idx, b, b.len() as int);
                        }
                    }
                }
            }
        }
        k = k + 1;
    }
    proof {
        assert forall|idx: Seq<usize>| #[trigger] in_bounds(idx, b) implies is_clone_sum(
            lhs_at(l0, r0, idx),
            rhs_at(l0, r0, idx),
            new_matrix.elem(idx),
        ) by {
            lemma_row_major_offset(idx, b);
            lemma_linear_bound(idx, b, b.len() as int);
        }
    }
    Ok((new_matrix, l2, r2))
}

/// Elementwise difference `lhs - rhs` after broadcasting. Both operands come back carrying their broadcast
/// shape and strides; the result is a new row-major matrix of the broadcast shape.
pub fn subtract<T>(lhs: Matrix<T>, rhs: Matrix<T>) -> (r: Result<
    (Matrix<T>, Matrix<T>, Matrix<T>),
    MatrixError,
>) where T: Clone + Default + Sub<Output = T>
    requires
        lhs.covers_shape(),
        rhs.covers_shape(),
        broadcastable(lhs.shape@, rhs.shape@) ==> shape_fits(
            broadcast_shape(lhs.shape@, rhs.shape@),
        ),
        broadcastable(lhs.shape@, rhs.shape@) ==> forall|idx: Seq<usize>|
            #[trigger] in_bounds(idx, broadcast_shape(lhs.shape@, rhs.shape@)) ==> sub_defined(
                lhs_at(lhs, rhs, idx),
                rhs_at(lhs, rhs, idx),
            ),
    ensures
        r is Ok <==> broadcastable(lhs.shape@, rhs.shape@),
        r is Err ==> r->Err_0 == MatrixError::BroadcastError,
        r is Ok ==> {
            let res = r->Ok_0.0;
            let bshape = broadcast_shape(lhs.shape@, rhs.shape@);
            &&& is_broadcast_lhs(r->Ok_0.1, lhs, rhs)
            &&& is_broadcast_rhs(r->Ok_0.2, lhs, rhs)
            &&& res.is_dense()
            &&& res.wf()
            &&& res.shape@ == bshape
            &&& res.layout == Layout::RowMajor
            &&& forall|idx: Seq<usize>|
                #[trigger] in_bounds(idx, bshape) ==> is_clone_difference(
                    lhs_at(lhs, rhs, idx),
                    rhs_at(lhs, rhs, idx),
                    res.elem(idx),
                )
        },
{
    let ghost l0 = lhs;
    let ghost r0 = rhs;
    let (l2, r2) = match align_operands(lhs, rhs) {
        Ok(pair) => pair,
        Err(err) => {
            return Err(err);
        },
    };
    let ghost b = l2.shape@;
    let mut new_matrix: Matrix<T> = Matrix::new(l2.shape.clone(), Layout::RowMajor);
    let total = new_matrix.size();
    let mut lhs_iter = MatrixIter::new(&l2);
    let mut rhs_iter = MatrixIter::new(&r2);
    let mut k: usize = 0;
    proof {
        lemma_iter_start(b);
        assert forall|idx: Seq<usize>| #[trigger] in_bounds(idx, b) implies linear_index(idx, b)
            >= 0 by {
            lemma_linear_bound(idx, b, b.len() as int);
        }
    }
    while k < total
        invariant
            l2.wf(),
            r2.wf(),
            is_broadcast_lhs(l2, l0, r0),
            is_broadcast_rhs(r2, l0, r0),
            b == broadcast_shape(l0.shape@, r0.shape@),
            *lhs_iter.mat == l2,
            *rhs_iter.mat == r2,
            new_matrix.is_dense(),
            new_matrix.wf(),
            new_matrix.shape@ == b,
            new_matrix.layout == Layout::RowMajor,
            total == shape_size(b),
            k <= total,
            k < total ==> !lhs_iter.empty && in_bounds(lhs_iter.index@, b) && linear_index(
                lhs_iter.index@,
                b,
            ) == k,
            k < total ==> !rhs_iter.empty && in_bounds(rhs_iter.index@, b) && linear_index(
                rhs_iter.index@,
                b,
            ) == k,
            forall|idx: Seq<usize>|
                #[trigger] in_bounds(idx, b) ==> sub_defined(
                    lhs_at(l0, r0, idx),
                    rhs_at(l0, r0, idx),
                ),
            forall|idx: Seq<usize>|
                #[trigger] in_bounds(idx, b) && linear_index(idx, b) < k ==> is_clone_difference(
                    lhs_at(l0, r0, idx),
                    rhs_at(l0, r0, idx),
                    new_matrix.data@[linear_index(idx, b)],
                ),
        decreases total - k,
    {
        let ghost at = lhs_iter.index@;
        proof {
            lemma_linear_injective(
                lhs_iter.index@,
                rhs_iter.index@,
                b,
                b.len() as int,
            );
            assert(lhs_iter.index@ =~= rhs_iter.index@);
        }
        let lhs_next = lhs_iter.next();
        let rhs_next = rhs_iter.next();
        if let Some((lhs_item, lhs_index)) = lhs_next {
            if let Some((rhs_item, _rhs_index)) = rhs_next {
                let ghost x = lhs_item;
                let ghost y = rhs_item;
                let ghost old_data = new_matrix.data@;
                assert(x.sub_req(y));
                let value = lhs_item - rhs_item;
                proof {
                    lemma_row_major_offset(at, b);
                    assert(lhs_index@ == at);
                    assert(offset(at, new_matrix.strides@) == k as int);
                }
                let _ = new_matrix.set(&lhs_index, value);
                proof {
                    assert(call_ensures(<T as Sub>::sub, (x, y), value));
                    assert forall|idx: Seq<usize>|
                        #[trigger] in_bounds(idx, b) && linear_index(idx, b) < k + 1 implies is_clone_difference(
                        lhs_at(l0, r0, idx),
                        rhs_at(l0, r0, idx),
                        new_matrix.data@[linear_index(idx, b)],
                    ) by {
                        if linear_index(idx, b) == k {
                            lemma_linear_injective(idx, at, b, b.len() as int);
                            assert(idx =~= at);
                        } else {
                            lemma_linear_bound(idx, b, b.len() as int);
                        }
                    }
                }
            }
        }
        k = k + 1;
    }
    proof {
        assert forall|idx: Seq<usize>| #[trigger] in_bounds(idx, b) implies is_clone_difference(
            lhs_at(l0, r0, idx),
            rhs_at(l0, r0, idx),
            new_matrix.elem(idx),
        ) by {
            lemma_row_major_offset(idx, b);
            lemma_linear_bound(idx, b, b.len() as int);
        }
    }
    Ok((new_matrix, l2, r2))
}

/// `idx` moved by `by` along `axis`.
pub open spec fn shifted(idx: Seq<usize>, axis: usize, by: usize) -> Seq<usize> {
    idx.update(axis as int, (idx[axis as int] + by) as usize)
}

/// Distinct in-bounds indices of a row-major dense matrix name distinct slots.
proof fn lemma_distinct_slots(a: Seq<usize>, b: Seq<usize>, s: Seq<usize>)
    requires
        shape_fits(s),
        in_bounds(a, s),
        in_bounds(b, s),
        a != b,
    ensures
        linear_index(a, s) != linear_index(b, s),
{
    if linear_index(a, s) == linear_index(b, s) {
        lemma_linear_injective(a, b, s, s.len() as int);
        assert(a =~= b);
    }
}

/// Joins two matrices along `axis` into a new row-major matrix: every element of `lhs`
/// keeps its index, every element of `rhs` moves by `lhs`'s extent along `axis`.
/// `DimError` when the shapes differ along another axis. The operands come back unchanged.
pub fn concat<T>(lhs: Matrix<T>, rhs: Matrix<T>, axis: usize) -> (r: Result<
    (Matrix<T>, Matrix<T>, Matrix<T>),
    MatrixError,
>) where T: Clone + Default
    requires
        lhs.wf(),
        rhs.wf(),
        concat_fits(lhs.shape@, rhs.shape@, axis),
        concat_compatible(lhs.shape@, rhs.shape@, axis) ==> shape_fits(
            concat_shape_of(lhs.shape@, rhs.shape@, axis),
        ),
    ensures
        r is Ok <==> concat_compatible(lhs.shape@, rhs.shape@, axis),
        r is Err ==> r->Err_0 == MatrixError::DimError,
        r is Ok ==> {
            let res = r->Ok_0.0;
            &&& r->Ok_0.1 == lhs
            &&& r->Ok_0.2 == rhs
            &&& res.is_dense()
            &&& res.wf()
            &&& res.shape@ == concat_shape_of(lhs.shape@, rhs.shape@, axis)
            &&& res.layout == Layout::RowMajor
            &&& forall|idx: Seq<usize>|
                #[trigger] in_bounds(idx, lhs.shape@) ==> cloned(lhs.elem(idx), res.elem(idx))
            &&& forall|idx: Seq<usize>|
                #[trigger] in_bounds(idx, rhs.shape@) ==> cloned(
                    rhs.elem(idx),
                    res.elem(shifted(idx, axis, lhs.shape@[axis as int])),
                )
        },
{
    if !check_concat_dims(&lhs.shape, &rhs.shape, axis) {
        return Err(MatrixError::DimError);
    }
    let f_shape = match calc_concat_shape(&lhs.shape, &rhs.shape, axis) {
        Some(v) => v,
        None => {
            return Err(MatrixError::DimError);
        },
    };
    let ghost ls = lhs.shape@;
    let ghost rs = rhs.shape@;
    let ghost fs = f_shape@;
    let extent = lhs.shape[axis];
    let mut f_matrix: Matrix<T> = Matrix::new(f_shape, Layout::RowMajor);
    proof {
        lemma_iter_start(ls);
        lemma_iter_start(rs);
        assert forall|idx: Seq<usize>| #[trigger] in_bounds(idx, ls) implies in_bounds(idx, fs)
            && linear_index(idx, ls) >= 0 by {
            lemma_linear_bound(idx, ls, ls.len() as int);
        }
        assert forall|idx: Seq<usize>| #[trigger] in_bounds(idx, rs) implies in_bounds(
            shifted(idx, axis, extent),
            fs,
        ) && linear_index(idx, rs) >= 0 by {
            lemma_linear_bound(idx, rs, rs.len() as int);
            assert forall|i: int| 0 <= i < idx.len() implies #[trigger] shifted(
                idx,
                axis,
                extent,
            )[i] < fs[i] by {
                if i != axis {
                    assert(idx[i] < rs[i]);
                }
            }
        }
    }
    let total_lhs = lhs.size();
    let mut lhs_iter = MatrixIter::new(&lhs);
    let mut k: usize = 0;
    while k < total_lhs
        invariant
            lhs.wf(),
            ls == lhs.shape@,
            *lhs_iter.mat == lhs,
            f_matrix.is_dense(),
            f_matrix.wf(),
            f_matrix.shape@ == fs,
            f_matrix.layout == Layout::RowMajor,
            total_lhs == shape_size(ls),
            k <= total_lhs,
            k < total_lhs ==> !lhs_iter.empty && in_bounds(lhs_iter.index@, ls) && linear_index(
                lhs_iter.index@,
                ls,
            ) == k,
            forall|idx: Seq<usize>| #[trigger] in_bounds(idx, ls) ==> in_bounds(idx, fs) && linear_index(idx, ls) >= 0,
            forall|idx: Seq<usize>|
                #[trigger] in_bounds(idx, ls) && linear_index(idx, ls) < k ==> cloned(
                    lhs.elem(idx),
                    f_matrix.elem(idx),
                ),
        decreases total_lhs - k,
    {
        let ghost at = lhs_iter.index@;
        if let Some((item, idx)) = lhs_iter.next() {
            let ghost before = f_matrix;
            proof {
                assert(idx@ == at);
                assert(f_matrix.strides@ == row_major_strides(fs));
                lemma_row_major_offset(at, fs);
                lemma_linear_bound(at, fs, fs.len() as int);
            }
            let _ = f_matrix.set(&idx, item);
            proof {
                assert forall|j: Seq<usize>|
                    #[trigger] in_bounds(j, ls) && linear_index(j, ls) < k + 1 implies cloned(
                    lhs.elem(j),
                    f_matrix.elem(j),
                ) by {
                    lemma_row_major_offset(j, fs);
                    if linear_index(j, ls) == k {
                        lemma_linear_injective(j, at, ls, ls.len() as int);
                        assert(j =~= at);
                    } else {
                        assert(j != at);
                        lemma_distinct_slots(j, at, fs);
                        lemma_linear_bound(j, fs, fs.len() as int);
                        assert(f_matrix.elem(j) == before.elem(j));
                    }
                }
            }
        }
        k = k + 1;
    }
    proof {
        assert forall|idx: Seq<usize>| #[trigger] in_bounds(idx, ls) implies cloned(
            lhs.elem(idx),
            f_matrix.elem(idx),
        ) by {
            lemma_linear_bound(idx, ls, ls.len() as int);
        }
    }
    let total_rhs = rhs.size();
    let mut rhs_iter = MatrixIter::new(&rhs);
    let mut k: usize = 0;
    while k < total_rhs
        invariant
            rhs.wf(),
            lhs.wf(),
            ls == lhs.shape@,
            rs == rhs.shape@,
            extent == ls[axis as int],
            axis < ls.len(),
            ls.len() == rs.len(),
            fs == concat_shape_of(ls, rs, axis),
            concat_compatible(ls, rs, axis),
            ls[axis as int] + rs[axis as int] <= usize::MAX,
            *rhs_iter.mat == rhs,
            f_matrix.is_dense(),
            f_matrix.wf(),
            f_matrix.shape@ == fs,
            f_matrix.layout == Layout::RowMajor,
            total_rhs == shape_size(rs),
            k <= total_rhs,
            k < total_rhs ==> !rhs_iter.empty && in_bounds(rhs_iter.index@, rs) && linear_index(
                rhs_iter.index@,
                rs,
            ) == k,
            forall|idx: Seq<usize>| #[trigger] in_bounds(idx, ls) ==> in_bounds(idx, fs) && linear_index(idx, ls) >= 0,
            forall|idx: Seq<usize>| #[trigger] in_bounds(idx, rs) ==> in_bounds(
                shifted(idx, axis, extent),
                fs,
            ) && linear_index(idx, rs) >= 0,
            forall|idx: Seq<usize>|
                #[trigger] in_bounds(idx, ls) ==> cloned(lhs.elem(idx), f_matrix.elem(idx)),
            forall|idx: Seq<usize>|
                #[trigger] in_bounds(idx, rs) && linear_index(idx, rs) < k ==> cloned(
                    rhs.elem(idx),
                    f_matrix.elem(shifted(idx, axis, extent)),
                ),
        decreases total_rhs - k,
    {
        let ghost at = rhs_iter.index@;
        if let Some((item, idx)) = rhs_iter.next() {
            assert(idx@ == at);
            assert(at[axis as int] < rs[axis as int]);
            let mut idx = idx;
            let moved = idx[axis] + extent;
            idx.set(axis, moved);
            let ghost target = shifted(at, axis, extent);
            assert(idx@ =~= target);
            let ghost before = f_matrix;
            proof {
                assert(f_matrix.strides@ == row_major_strides(fs));
                lemma_row_major_offset(target, fs);
                lemma_linear_bound(target, fs, fs.len() as int);
            }
            let _ = f_matrix.set(&idx, item);
            proof {
                assert forall|j: Seq<usize>| #[trigger] in_bounds(j, ls) implies cloned(
                    lhs.elem(j),
                    f_matrix.elem(j),
                ) by {
                    lemma_row_major_offset(j, fs);
                    assert(j[axis as int] < extent);
                    assert(j != target);
                    lemma_distinct_slots(j, target, fs);
                    lemma_linear_bound(j, fs, fs.len() as int);
                    assert(f_matrix.elem(j) == before.elem(j));
                }
                assert forall|j: Seq<usize>|
                    #[trigger] in_bounds(j, rs) && linear_index(j, rs) < k + 1 implies cloned(
                    rhs.elem(j),
                    f_matrix.elem(shifted(j, axis, extent)),
                ) by {
                    let sj = shifted(j, axis, extent);
                    lemma_row_major_offset(sj, fs);
                    if linear_index(j, rs) == k {
                        lemma_linear_injective(j, at, rs, rs.len() as int);
                        assert(j =~= at);
                    } else {
                        if sj == target {
                            assert forall|i: int| 0 <= i < j.len() implies j[i] == at[i] by {
                                assert(sj[i] == target[i]);
                            }
                            assert(j =~= at);
                        }
                        lemma_distinct_slots(sj, target, fs);
                        lemma_linear_bound(sj, fs, fs.len() as int);
                        assert(f_matrix.elem(sj) == before.elem(sj));
                    }
                }
            }
        }
        k = k + 1;
    }
    proof {
        assert forall|idx: Seq<usize>| #[trigger] in_bounds(idx, rhs.shape@) implies cloned(
            rhs.elem(idx),
            f_matrix.elem(shifted(idx, axis, lhs.shape@[axis as int])),
        ) by {
            lemma_linear_bound(idx, rs, rs.len() as int);
        }
        assert forall|idx: Seq<usize>| #[trigger] in_bounds(idx, lhs.shape@) implies cloned(
            lhs.elem(idx),
            f_matrix.elem(idx),
        ) by {}
    }
    Ok((f_matrix, lhs, rhs))
}

/// Multiplying any clone of `a` by any clone of `b` is allowed.
pub open spec fn mul_defined<T: Clone + Mul<Output = T>>(a: T, b: T) -> bool {
    forall|x: T, y: T| cloned(a, x) && cloned(b, y) ==> #[trigger] x.mul_req(y)
}

/// `r` is a clone of `a` times a clone of `b`.
pub open spec fn is_clone_product<T: Clone + Mul<Output = T>>(a: T, b: T, r: T) -> bool {
    exists|x: T, y: T|
        cloned(a, x) && cloned(b, y) && #[trigger] call_ensures(<T as Mul>::mul, (x, y), r)
}

/// Multiplying any clone of `a` by the integer `k` is allowed.
pub open spec fn mul_int_defined<T: Clone + Mul<i32, Output = T>>(a: T, k: i32) -> bool {
    forall|x: T| cloned(a, x) ==> #[trigger] x.mul_req(k)
}

/// `r` is a clone of `a` times the integer `k`.
pub open spec fn is_clone_int_product<T: Clone + Mul<i32, Output = T>>(a: T, k: i32, r: T) -> bool {
    exists|x: T| cloned(a, x) && #[trigger] call_ensures(<T as Mul<i32>>::mul, (x, k), r)
}

/// Multiplies every storage slot by `rhs`, in place and in physical order.
pub fn multiply_scalar<T>(lhs: Matrix<T>, rhs: T) -> (r: Matrix<T>) where
    T: Clone + Default + Mul<Output = T> + MulAssign,
    requires
        forall|i: int| 0 <= i < lhs.data.len() ==> mul_defined(#[trigger] lhs.data@[i], rhs),
    ensures
        r.shape == lhs.shape,
        r.strides == lhs.strides,
        r.layout == lhs.layout,
        r.data.len() == lhs.data.len(),
        forall|i: int|
            0 <= i < lhs.data.len() ==> is_clone_product(lhs.data@[i], rhs, #[trigger] r.data@[i]),
{
    let ghost l0 = lhs;
    let mut lhs = lhs;
    let n = lhs.data.len();
    let mut i: usize = 0;
    while i < n
        invariant
            n == lhs.data.len(),
            n == l0.data.len(),
            lhs.shape == l0.shape,
            lhs.strides == l0.strides,
            lhs.layout == l0.layout,
            i <= n,
            forall|j: int| i <= j < n ==> lhs.data@[j] == l0.data@[j],
            forall|j: int| 0 <= j < n ==> mul_defined(#[trigger] l0.data@[j], rhs),
            forall|j: int| 0 <= j < i ==> is_clone_product(l0.data@[j], rhs, #[trigger] lhs.data@[j]),
        decreases n - i,
    {
        let x = lhs.data[i].clone();
        let y = rhs.clone();
        assert(x.mul_req(y));
        let v = x * y;
        assert(call_ensures(<T as Mul>::mul, (x, y), v));
        lhs.data.set(i, v);
        i = i + 1;
    }
    lhs
}

/// Builds a matrix of the same shape and layout whose slot `i` is `rhs` times slot `i` of
/// the integer matrix `lhs`.
pub fn multiply_scalar_generic<T>(lhs: Matrix<i32>, rhs: T) -> (r: Matrix<T>) where
    T: Clone + Default + Mul<i32, Output = T>,
    requires
        lhs.shape.len() > 0,
        shape_fits(lhs.shape@),
        lhs.data.len() <= shape_size(lhs.shape@),
        forall|i: int| 0 <= i < lhs.data.len() ==> mul_int_defined(rhs, #[trigger] lhs.data@[i]),
    ensures
        r.is_dense(),
        r.shape@ == lhs.shape@,
        r.layout == lhs.layout,
        forall|i: int|
            0 <= i < lhs.data.len() ==> is_clone_int_product(rhs, lhs.data@[i], #[trigger] r.data@[i]),
        forall|i: int|
            lhs.data.len() <= i < r.data.len() ==> call_ensures(T::default, (), #[trigger] r.data@[i]),
{
    let mut new_matrix: Matrix<T> = Matrix::new(lhs.shape.clone(), lhs.layout);
    let n = lhs.data.len();
    let mut i: usize = 0;
    while i < n
        invariant
            n == lhs.data.len(),
            n <= new_matrix.data.len(),
            new_matrix.is_dense(),
            new_matrix.shape@ == lhs.shape@,
            new_matrix.layout == lhs.layout,
            i <= n,
            forall|j: int| 0 <= j < n ==> mul_int_defined(rhs, #[trigger] lhs.data@[j]),
            forall|j: int|
                0 <= j < i ==> is_clone_int_product(rhs, lhs.data@[j], #[trigger] new_matrix.data@[j]),
            forall|j: int|
                i <= j < new_matrix.data.len() ==> call_ensures(T::default, (), #[trigger] new_matrix.data@[j]),
        decreases n - i,
    {
        let x = rhs.clone();
        let k = lhs.data[i];
        assert(x.mul_req(k));
        let v = x * k;
        assert(call_ensures(<T as Mul<i32>>::mul, (x, k), v));
        new_matrix.data.set(i, v);
        i = i + 1;
    }
    new_matrix
}

/// Multiplies every storage slot by the integer `rhs`, in place and in physical order.
pub fn multiply_scalar_diff_type<T>(lhs: Matrix<T>, rhs: i32) -> (r: Matrix<T>) where
    T: Clone + Default + Mul<i32, Output = T>,
    requires
        forall|i: int| 0 <= i < lhs.data.len() ==> mul_int_defined(#[trigger] lhs.data@[i], rhs),
    ensures
        r.shape == lhs.shape,
        r.strides == lhs.strides,
        r.layout == lhs.layout,
        r.data.len() == lhs.data.len(),
        forall|i: int|
            0 <= i < lhs.data.len() ==> is_clone_int_product(lhs.data@[i], rhs, #[trigger] r.data@[i]),
{
    let ghost l0 = lhs;
    let mut lhs = lhs;
    let n = lhs.data.len();
    let mut i: usize = 0;
    while i < n
        invariant
            n == lhs.data.len(),
            n == l0.data.len(),
            lhs.shape == l0.shape,
            lhs.strides == l0.strides,
            lhs.layout == l0.layout,
            i <= n,
            forall|j: int| i <= j < n ==> lhs.data@[j] == l0.data@[j],
            forall|j: int| 0 <= j < n ==> mul_int_defined(#[trigger] l0.data@[j], rhs),
            forall|j: int|
                0 <= j < i ==> is_clone_int_product(l0.data@[j], rhs, #[trigger] lhs.data@[j]),
        decreases n - i,
    {
        let x = lhs.data[i].clone();
        assert(x.mul_req(rhs));
        let v = x * rhs;
        assert(call_ensures(<T as Mul<i32>>::mul, (x, rhs), v));
        lhs.data.set(i, v);
        i = i + 1;
    }
    lhs
}

/// Every clone of a value equals it.
pub open spec fn clones_are_copies<T: Clone>() -> bool {
    forall|a: T, b: T| #[trigger] cloned(a, b) ==> a == b
}

/// `+` and `*` of the element type follow their specifications and clones are copies, so
/// that results are determined by the operands.
pub open spec fn arithmetic_exact<T: Clone + Add<Output = T> + Mul<Output = T>>() -> bool {
    &&& T::obeys_add_spec()
    &&& T::obeys_mul_spec()
    &&& clones_are_copies::<T>()
}

/// `zero + Σ_{l < n} lhs[i, l] * rhs[l, j]` over the broadcast operands, accumulated
/// from `l = 0` upward.
pub open spec fn product_cell<T: Add<Output = T> + Mul<Output = T>>(
    lhs: Matrix<T>,
    rhs: Matrix<T>,
    i: usize,
    j: usize,
    n: nat,
    zero: T,
) -> T
    decreases n,
{
    if n == 0 {
        zero
    } else {
        let l = (n - 1) as usize;
        product_cell(lhs, rhs, i, j, (n - 1) as nat, zero).add_spec(
            lhs_at(lhs, rhs, seq![i, l]).mul_spec(rhs_at(lhs, rhs, seq![l, j])),
        )
    }
}

/// Every product and every partial sum of `product_cell` is defined.
pub open spec fn product_cell_defined<T: Add<Output = T> + Mul<Output = T>>(
    lhs: Matrix<T>,
    rhs: Matrix<T>,
    i: usize,
    j: usize,
    n: nat,
    zero: T,
) -> bool {
    forall|k: nat|
        #![trigger product_cell(lhs, rhs, i, j, k, zero)]
        k < n ==> {
            let a = lhs_at(lhs, rhs, seq![i, k as usize]);
            let c = rhs_at(lhs, rhs, seq![k as usize, j]);
            a.mul_req(c) && product_cell(lhs, rhs, i, j, k, zero).add_req(a.mul_spec(c))
        }
}

/// `r` is what accumulating `Σ_{l < n} lhs[i, l] * rhs[l, j]` from `zero` can yield, one
/// multiplication of clones and one addition per step, whatever the element type.
pub open spec fn accumulates<T: Clone + Add<Output = T> + Mul<Output = T>>(
    lhs: Matrix<T>,
    rhs: Matrix<T>,
    i: usize,
    j: usize,
    n: nat,
    zero: T,
    r: T,
) -> bool
    decreases n,
{
    if n == 0 {
        r == zero
    } else {
        let l = (n - 1) as usize;
        exists|prev: T, a: T, c: T, p: T|
            #![trigger call_ensures(<T as Mul>::mul, (a, c), p), call_ensures(<T as Add>::add, (prev, p), r)]
            accumulates(lhs, rhs, i, j, (n - 1) as nat, zero, prev) && cloned(
                lhs_at(lhs, rhs, seq![i, l]),
                a,
            ) && cloned(rhs_at(lhs, rhs, seq![l, j]), c) && call_ensures(
                <T as Mul>::mul,
                (a, c),
                p,
            ) && call_ensures(<T as Add>::add, (prev, p), r)
    }
}

/// Along every accumulation of `accumulates`, each multiplication and each addition is
/// defined.
pub open spec fn steps_defined<T: Clone + Add<Output = T> + Mul<Output = T>>(
    lhs: Matrix<T>,
    rhs: Matrix<T>,
    i: usize,
    j: usize,
    n: nat,
    zero: T,
) -> bool {
    forall|k: nat, prev: T, a: T, c: T|
        #![trigger accumulates(lhs, rhs, i, j, k, zero, prev), a.mul_req(c)]
        k < n && accumulates(lhs, rhs, i, j, k, zero, prev) && cloned(
            lhs_at(lhs, rhs, seq![i, k as usize]),
            a,
        ) && cloned(rhs_at(lhs, rhs, seq![k as usize, j]), c) ==> a.mul_req(c) && forall|p: T|
            #[trigger] call_ensures(<T as Mul>::mul, (a, c), p) ==> prev.add_req(p)
}

/// Cell `[i, j]` can be computed: every step is defined, or the arithmetic is exact and
/// every step of `product_cell` is defined.
pub open spec fn cell_defined<T: Clone + Add<Output = T> + Mul<Output = T>>(
    lhs: Matrix<T>,
    rhs: Matrix<T>,
    i: usize,
    j: usize,
    n: nat,
    zero: T,
) -> bool {
    steps_defined(lhs, rhs, i, j, n, zero) || (arithmetic_exact::<T>() && product_cell_defined(
        lhs,
        rhs,
        i,
        j,
        n,
        zero,
    ))
}

/// Cell `[i, j]` of `res` is an accumulation started from some default value, and equals
/// `product_cell` when the arithmetic is exact.
pub open spec fn product_cell_holds<T: Clone + Default + Add<Output = T> + Mul<Output = T>>(
    res: Matrix<T>,
    lhs: Matrix<T>,
    rhs: Matrix<T>,
    i: usize,
    j: usize,
    n: nat,
) -> bool {
    exists|zero: T|
        #[trigger] call_ensures(T::default, (), zero) && accumulates(
            lhs,
            rhs,
            i,
            j,
            n,
            zero,
            res.at2(i, j),
        ) && (arithmetic_exact::<T>() ==> res.at2(i, j) == product_cell(lhs, rhs, i, j, n, zero))
}

/// `zero + Σ_{i < n} m[i] * m[i]`, accumulated from `i = 0` upward.
pub open spec fn self_dot<T: Add<Output = T> + Mul<Output = T>>(m: Matrix<T>, n: nat, zero: T) -> T
    decreases n,
{
    if n == 0 {
        zero
    } else {
        let i = (n - 1) as usize;
        self_dot(m, (n - 1) as nat, zero).add_spec(m.elem(seq![i]).mul_spec(m.elem(seq![i])))
    }
}

/// Every product and every partial sum of `self_dot` is defined.
pub open spec fn self_dot_defined<T: Add<Output = T> + Mul<Output = T>>(
    m: Matrix<T>,
    n: nat,
    zero: T,
) -> bool {
    forall|k: nat|
        #![trigger self_dot(m, k, zero)]
        k < n ==> {
            let a = m.elem(seq![k as usize]);
            a.mul_req(a) && self_dot(m, k, zero).add_req(a.mul_spec(a))
        }
}

/// Two-axis product after broadcasting the operands elementwise: cell `[i, j]` of the
/// broadcast shape `[rows, cols]` is the sum over `l < cols` of `lhs[i, l] * rhs[l, j]`.
/// `MatmulShapeError` unless both operands have two axes; `BroadcastError` when their
/// shapes do not broadcast. The operands come back carrying their broadcast metadata.
pub fn multiply_2d<T>(lhs: Matrix<T>, rhs: Matrix<T>) -> (r: Result<
    (Matrix<T>, Matrix<T>, Matrix<T>),
    MatrixError,
>) where T: Clone + Default + Mul<Output = T> + Add<Output = T>
    requires
        lhs.covers_shape(),
        rhs.covers_shape(),
        lhs.shape.len() == 2 && rhs.shape.len() == 2 && broadcastable(lhs.shape@, rhs.shape@)
            ==> {
            let b = broadcast_shape(lhs.shape@, rhs.shape@);
            &&& shape_fits(b)
            &&& b[0] == 0 || b[1] <= b[0]
            &&& forall|i: usize, j: usize, zero: T|
                i < b[0] && j < b[1] && call_ensures(T::default, (), zero)
                    ==> #[trigger] cell_defined(lhs, rhs, i, j, b[1] as nat, zero)
        },
    ensures
        r is Ok <==> (lhs.shape.len() == 2 && rhs.shape.len() == 2 && broadcastable(
            lhs.shape@,
            rhs.shape@,
        )),
        r is Err && r->Err_0 == MatrixError::MatmulShapeError <==> (lhs.shape.len() != 2
            || rhs.shape.len() != 2),
        r is Err && r->Err_0 == MatrixError::BroadcastError <==> (lhs.shape.len() == 2
            && rhs.shape.len() == 2 && !broadcastable(lhs.shape@, rhs.shape@)),
        r is Ok ==> {
            let res = r->Ok_0.0;
            let b = broadcast_shape(lhs.shape@, rhs.shape@);
            &&& is_broadcast_lhs(r->Ok_0.1, lhs, rhs)
            &&& is_broadcast_rhs(r->Ok_0.2, lhs, rhs)
            &&& res.is_dense()
            &&& res.wf()
            &&& res.shape@ == b
            &&& res.layout == Layout::RowMajor
            &&& forall|i: usize, j: usize|
                i < b[0] && j < b[1] ==> #[trigger] product_cell_holds(
                    res,
                    lhs,
                    rhs,
                    i,
                    j,
                    b[1] as nat,
                )
        },
{
    if lhs.shape.len() != 2 || rhs.shape.len() != 2 {
        return Err(MatrixError::MatmulShapeError);
    }
    let ghost l0 = lhs;
    let ghost r0 = rhs;
    let (l2, r2) = match align_operands(lhs, rhs) {
        Ok(pair) => pair,
        Err(err) => {
            return Err(err);
        },
    };
    let ghost b = l2.shape@;
    let rows = l2.shape[0];
    let cols = l2.shape[1];
    let mut new_matrix: Matrix<T> = Matrix::new(l2.shape.clone(), Layout::RowMajor);
    let mut i: usize = 0;
    while i < rows
        invariant
            l2.wf(),
            r2.wf(),
            b == l2.shape@,
            b == r2.shape@,
            b.len() == 2,
            rows == b[0],
            cols == b[1],
            rows == 0 || cols <= rows,
            is_broadcast_lhs(l2, l0, r0),
            is_broadcast_rhs(r2, l0, r0),
            b == broadcast_shape(l0.shape@, r0.shape@),
            forall|p: usize, q: usize, zero: T|
                p < b[0] && q < b[1] && call_ensures(T::default, (), zero)
                    ==> #[trigger] cell_defined(l0, r0, p, q, b[1] as nat, zero),
            new_matrix.is_dense(),
            new_matrix.wf(),
            new_matrix.shape@ == b,
            new_matrix.layout == Layout::RowMajor,
            i <= rows,
            forall|p: usize, q: usize|
                p < i && q < cols ==> #[trigger] product_cell_holds(
                    new_matrix,
                    l0,
                    r0,
                    p,
                    q,
                    cols as nat,
                ),
        decreases rows - i,
    {
        let mut j: usize = 0;
        while j < cols
            invariant
                l2.wf(),
                r2.wf(),
                b == l2.shape@,
                b == r2.shape@,
                b.len() == 2,
                rows == b[0],
                cols == b[1],
                cols <= rows,
                is_broadcast_lhs(l2, l0, r0),
                is_broadcast_rhs(r2, l0, r0),
                b == broadcast_shape(l0.shape@, r0.shape@),
                forall|p: usize, q: usize, zero: T|
                    p < b[0] && q < b[1] && call_ensures(T::default, (), zero)
                        ==> #[trigger] cell_defined(l0, r0, p, q, b[1] as nat, zero),
                new_matrix.is_dense(),
                new_matrix.wf(),
                new_matrix.shape@ == b,
                new_matrix.layout == Layout::RowMajor,
                i < rows,
                j <= cols,
                forall|p: usize, q: usize|
                    (p < i && q < cols) || (p == i && q < j) ==> #[trigger] product_cell_holds(
                        new_matrix,
                        l0,
                        r0,
                        p,
                        q,
                        cols as nat,
                    ),
            decreases cols - j,
        {
            let mut curr_sum = T::default();
            let ghost zero = curr_sum;
            assert(cell_defined(l0, r0, i, j, cols as nat, zero));
            let mut l: usize = 0;
            while l < cols
                invariant
                    l2.wf(),
                    r2.wf(),
                    b == l2.shape@,
                    b == r2.shape@,
                    b.len() == 2,
                    rows == b[0],
                    cols == b[1],
                    cols <= rows,
                    is_broadcast_lhs(l2, l0, r0),
                    is_broadcast_rhs(r2, l0, r0),
                    call_ensures(T::default, (), zero),
                    cell_defined(l0, r0, i, j, cols as nat, zero),
                    accumulates(l0, r0, i, j, l as nat, zero, curr_sum),
                    i < rows,
                    j < cols,
                    l <= cols,
                    arithmetic_exact::<T>() ==> curr_sum == product_cell(
                        l0,
                        r0,
                        i,
                        j,
                        l as nat,
                        zero,
                    ),
                decreases cols - l,
            {
                let left = vec![i, l];
                let right = vec![l, j];
                assert(left@ =~= seq![i, l]);
                assert(right@ =~= seq![l, j]);
                let a = match l2.get_copy(&left) {
                    Ok(v) => v,
                    Err(err) => {
                        return Err(err);
                    },
                };
                let c = match r2.get_copy(&right) {
                    Ok(v) => v,
                    Err(err) => {
                        return Err(err);
                    },
                };
                let ghost by_steps = steps_defined(l0, r0, i, j, cols as nat, zero);
                proof {
                    let k = l as nat;
                    assert(seq![i, k as usize] =~= seq![i, l]);
                    assert(seq![k as usize, j] =~= seq![l, j]);
                    assert(l2.elem(seq![i, l]) == lhs_at(l0, r0, seq![i, l]));
                    assert(r2.elem(seq![l, j]) == rhs_at(l0, r0, seq![l, j]));
                    if by_steps {
                        assert(accumulates(l0, r0, i, j, k, zero, curr_sum));
                        assert(a.mul_req(c));
                    } else {
                        assert(arithmetic_exact::<T>());
                        assert(a == lhs_at(l0, r0, seq![i, l]));
                        assert(c == rhs_at(l0, r0, seq![l, j]));
                        assert(product_cell(l0, r0, i, j, k, zero) == curr_sum);
                        assert(k < cols as nat);
                        assert(a.mul_req(c));
                        assert(curr_sum.add_req(a.mul_spec(c)));
                    }
                }
                let term = a * c;
                proof {
                    if by_steps {
                        assert(call_ensures(<T as Mul>::mul, (a, c), term));
                        assert(curr_sum.add_req(term));
                    }
                }
                let ghost prev = curr_sum;
                curr_sum = curr_sum + term;
                proof {
                    assert(call_ensures(<T as Mul>::mul, (a, c), term));
                    assert(call_ensures(<T as Add>::add, (prev, term), curr_sum));
                    assert(cloned(lhs_at(l0, r0, seq![i, l]), a));
                    assert(cloned(rhs_at(l0, r0, seq![l, j]), c));
                    assert(accumulates(l0, r0, i, j, l as nat, zero, prev));
                    let n1 = (l + 1) as nat;
                    assert(((n1 - 1) as usize) == l);
                    assert(((n1 - 1) as nat) == l as nat);
                    assert(accumulates(l0, r0, i, j, ((n1 - 1) as nat), zero, prev));
                    assert(accumulates(l0, r0, i, j, n1, zero, curr_sum));
                    if arithmetic_exact::<T>() {
                        assert(a == lhs_at(l0, r0, seq![i, l]));
                        assert(c == rhs_at(l0, r0, seq![l, j]));
                    }
                }
                l = l + 1;
            }
            let ghost before = new_matrix;
            let at = vec![i, j];
            assert(at@ =~= seq![i, j]);
            proof {
                lemma_row_major_offset(at@, b);
                lemma_linear_bound(at@, b, 2);
            }
            let _ = new_matrix.set(&at, curr_sum);
            proof {
                assert forall|p: usize, q: usize|
                    (p < i && q < cols) || (p == i && q < j + 1) implies #[trigger] product_cell_holds(
                    new_matrix,
                    l0,
                    r0,
                    p,
                    q,
                    cols as nat,
                ) by {
                    let pq = seq![p, q];
                    lemma_row_major_offset(pq, b);
                    lemma_linear_bound(pq, b, 2);
                    if p == i && q == j {
                        assert(pq =~= at@);
                        assert(new_matrix.at2(p, q) == curr_sum);
                        assert(call_ensures(T::default, (), zero));
                    } else {
                        assert(pq != at@) by {
                            if pq == at@ {
                                assert(pq[0] == at@[0] && pq[1] == at@[1]);
                            }
                        }
                        lemma_distinct_slots(pq, at@, b);
                        assert(new_matrix.at2(p, q) == before.at2(p, q));
                        assert(product_cell_holds(before, l0, r0, p, q, cols as nat));
                        let z = choose|z: T|
                            #[trigger] call_ensures(T::default, (), z) && (arithmetic_exact::<T>()
                                ==> before.at2(p, q) == product_cell(l0, r0, p, q, cols as nat, z));
                        assert(call_ensures(T::default, (), z));
                    }
                }
            }
            j = j + 1;
        }
        i = i + 1;
    }
    Ok((new_matrix, l2, r2))
}

/// `r` is what accumulating `Σ_{i < n} m[i] * m[i]` from `zero` can yield, one
/// multiplication of two clones and one addition per step, whatever the element type.
pub open spec fn self_accumulates<T: Clone + Add<Output = T> + Mul<Output = T>>(
    m: Matrix<T>,
    n: nat,
    zero: T,
    r: T,
) -> bool
    decreases n,
{
    if n == 0 {
        r == zero
    } else {
        let i = (n - 1) as usize;
        exists|prev: T, a: T, c: T, p: T|
            #![trigger call_ensures(<T as Mul>::mul, (a, c), p), call_ensures(<T as Add>::add, (prev, p), r)]
            self_accumulates(m, (n - 1) as nat, zero, prev) && cloned(m.elem(seq![i]), a) && cloned(
                m.elem(seq![i]),
                c,
            ) && call_ensures(<T as Mul>::mul, (a, c), p) && call_ensures(
                <T as Add>::add,
                (prev, p),
                r,
            )
    }
}

/// Along every accumulation of `self_accumulates`, each multiplication and each addition
/// is defined.
pub open spec fn self_steps_defined<T: Clone + Add<Output = T> + Mul<Output = T>>(
    m: Matrix<T>,
    n: nat,
    zero: T,
) -> bool {
    forall|k: nat, prev: T, a: T, c: T|
        #![trigger self_accumulates(m, k, zero, prev), a.mul_req(c)]
        k < n && self_accumulates(m, k, zero, prev) && cloned(m.elem(seq![k as usize]), a)
            && cloned(m.elem(seq![k as usize]), c) ==> a.mul_req(c) && forall|p: T|
            #[trigger] call_ensures(<T as Mul>::mul, (a, c), p) ==> prev.add_req(p)
}

/// The accumulation over `m` can be computed: every step is defined, or the arithmetic is
/// exact and every step of `self_dot` is defined.
pub open spec fn self_dot_computable<T: Clone + Add<Output = T> + Mul<Output = T>>(
    m: Matrix<T>,
    n: nat,
    zero: T,
) -> bool {
    self_steps_defined(m, n, zero) || (arithmetic_exact::<T>() && self_dot_defined(m, n, zero))
}

/// Accumulates `lhs[i] * lhs[i]` over the axis of `lhs`; `rhs` takes part only in the
/// shape check. `MatmulShapeError` unless both operands have exactly one axis of the same
/// length. Both operands come back unchanged.
pub fn multiply_1d<T>(lhs: Matrix<T>, rhs: Matrix<T>) -> (r: Result<(T, Matrix<T>, Matrix<T>), MatrixError>) where
    T: Clone + Default + Mul<Output = T> + Add<Output = T>,
    requires
        lhs.wf(),
        rhs.wf(),
        lhs.shape.len() == 1 && rhs.shape.len() == 1 && lhs.shape@[0] == rhs.shape@[0]
            ==> forall|zero: T|
            call_ensures(T::default, (), zero) ==> #[trigger] self_dot_computable(
                lhs,
                lhs.shape@[0] as nat,
                zero,
            ),
    ensures
        r is Err <==> (lhs.shape.len() != 1 || rhs.shape.len() != 1 || lhs.shape@[0]
            != rhs.shape@[0]),
        r is Err ==> r->Err_0 == MatrixError::MatmulShapeError,
        r is Ok ==> {
            &&& r->Ok_0.1 == lhs
            &&& r->Ok_0.2 == rhs
            &&& exists|zero: T|
                #[trigger] call_ensures(T::default, (), zero) && self_accumulates(
                    lhs,
                    lhs.shape@[0] as nat,
                    zero,
                    r->Ok_0.0,
                ) && (arithmetic_exact::<T>() ==> r->Ok_0.0 == self_dot(
                    lhs,
                    lhs.shape@[0] as nat,
                    zero,
                ))
        },
{
    if lhs.shape.len() != 1 || rhs.shape.len() != 1 || lhs.shape[0] != rhs.shape[0] {
        return Err(MatrixError::MatmulShapeError);
    }
    let n = lhs.shape[0];
    let mut curr_sum: T = T::default();
    let ghost zero = curr_sum;
    assert(self_dot_computable(lhs, n as nat, zero));
    let ghost by_steps = self_steps_defined(lhs, n as nat, zero);
    let mut i: usize = 0;
    while i < n
        invariant
            lhs.wf(),
            lhs.shape.len() == 1,
            n == lhs.shape@[0],
            i <= n,
            call_ensures(T::default, (), zero),
            self_dot_computable(lhs, n as nat, zero),
            by_steps == self_steps_defined(lhs, n as nat, zero),
            self_accumulates(lhs, i as nat, zero, curr_sum),
            arithmetic_exact::<T>() ==> curr_sum == self_dot(lhs, i as nat, zero),
        decreases n - i,
    {
        let at = vec![i];
        assert(at@ =~= seq![i]);
        let a = match lhs.get_copy(&at) {
            Ok(v) => v,
            Err(err) => {
                return Err(err);
            },
        };
        let c = match lhs.get_copy(&at) {
            Ok(v) => v,
            Err(err) => {
                return Err(err);
            },
        };
        proof {
            let k = i as nat;
            assert(seq![k as usize] =~= seq![i]);
            if by_steps {
                assert(a.mul_req(c));
            } else {
                assert(a == lhs.elem(seq![i]));
                assert(c == lhs.elem(seq![i]));
                assert(self_dot(lhs, k, zero) == curr_sum);
                assert(a.mul_req(c));
                assert(curr_sum.add_req(a.mul_spec(c)));
            }
        }
        let term = a * c;
        proof {
            if by_steps {
                assert(call_ensures(<T as Mul>::mul, (a, c), term));
                assert(curr_sum.add_req(term));
            }
        }
        let ghost prev = curr_sum;
        curr_sum = curr_sum + term;
        proof {
            assert(call_ensures(<T as Mul>::mul, (a, c), term));
            assert(call_ensures(<T as Add>::add, (prev, term), curr_sum));
            let n1 = (i + 1) as nat;
            assert(((n1 - 1) as usize) == i);
            assert(self_accumulates(lhs, n1, zero, curr_sum));
            if arithmetic_exact::<T>() {
                assert(a == lhs.elem(seq![i]));
                assert(c == lhs.elem(seq![i]));
            }
        }
        i = i + 1;
    }
    assert(call_ensures(T::default, (), zero));
    Ok((curr_sum, lhs, rhs))
}

} // verus!
