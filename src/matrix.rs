use vstd::prelude::*;
use crate::errors::MatrixError;
use crate::layout::Layout;
use crate::shape_math::{
    canonical_strides, in_bounds, lemma_canonical_bound, lemma_linear_all_max,
    lemma_linear_bound, lemma_linear_step, lemma_linear_zeros, lemma_offset_monotone,
    lemma_offset_reverse, lemma_reverse_shape, lemma_size_positive, linear_index, offset,
    offset_upto, prefix_product, shape_fits, shape_size, suffix_product,
};
use crate::utils::{calc_size_from_shape, calc_strides_from_shape};

verus! {

/// An N-dimensional array: flat storage addressed through a shape and strides.
#[derive(Debug, Clone)]
pub struct Matrix<T> {
    pub shape: Vec<usize>,
    pub strides: Vec<usize>,
    pub data: Vec<T>,
    pub layout: Layout,
}

/// The sequence `v` in reverse order.
fn reversed(v: &Vec<usize>) -> (r: Vec<usize>)
    ensures
        r@ == v@.reverse(),
{
    let n = v.len();
    let mut r: Vec<usize> = Vec::new();
    let mut i: usize = n;
    while i > 0
        invariant
            n == v.len(),
            i <= n,
            r@ == v@.subrange(i as int, n as int).reverse(),
        decreases i,
    {
        i = i - 1;
        r.push(v[i]);
        assert(r@ =~= v@.subrange(i as int, n as int).reverse());
    }
    assert(v@.subrange(0, n as int) =~= v@);
    r
}

impl<T> Matrix<T> {
    /// Shape and strides agree in rank, the shape is non-empty and its partial products fit,
    /// and every in-bounds logical index addresses a slot of the storage.
    pub open spec fn wf(&self) -> bool {
        &&& self.shape.len() > 0
        &&& self.strides.len() == self.shape.len()
        &&& shape_fits(self.shape@)
        &&& forall|idx: Seq<usize>|
            in_bounds(idx, self.shape@) ==> #[trigger] offset(idx, self.strides@) < self.data.len()
    }

    /// Strides are canonical for the shape and layout, and storage holds exactly one slot
    /// per element.
    pub open spec fn is_dense(&self) -> bool {
        &&& self.shape.len() > 0
        &&& shape_fits(self.shape@)
        &&& self.strides@ == canonical_strides(self.shape@, self.layout)
        &&& self.data.len() == shape_size(self.shape@)
    }

    /// Non-empty shape whose partial products fit, with at least one storage slot per
    /// element: what canonical strides for the shape can address.
    pub open spec fn covers_shape(&self) -> bool {
        &&& self.shape.len() > 0
        &&& shape_fits(self.shape@)
        &&& self.data.len() >= shape_size(self.shape@)
    }

    /// The element that the logical index `idx` addresses.
    pub open spec fn elem(&self, idx: Seq<usize>) -> T {
        self.data@[offset(idx, self.strides@)]
    }

    /// The element at row `i`, column `j` of a two-axis matrix.
    pub open spec fn at2(&self, i: usize, j: usize) -> T {
        self.elem(seq![i, j])
    }

    /// Number of elements that the current shape describes.
    pub open spec fn spec_size(&self) -> int {
        shape_size(self.shape@)
    }

    /// A dense matrix is well-formed.
    pub proof fn lemma_dense_wf(&self)
        requires
            self.is_dense(),
        ensures
            self.wf(),
    {
        assert forall|idx: Seq<usize>| in_bounds(idx, self.shape@) implies #[trigger] offset(
            idx,
            self.strides@,
        ) < self.data.len() by {
            lemma_canonical_bound(idx, self.shape@, self.layout);
        }
    }

    /// Builds a matrix of `shape` whose storage is the first `size` items of `source`.
    pub fn from_iter(shape: Vec<usize>, source: Vec<T>, layout: Layout) -> (r: Matrix<T>)
        requires
            shape.len() > 0,
            shape_fits(shape@),
            source.len() >= shape_size(shape@),
        ensures
            r.is_dense(),
            r.wf(),
            r.shape@ == shape@,
            r.layout == layout,
            r.data@ == source@.subrange(0, shape_size(shape@)),
    {
        let size = calc_size_from_shape(&shape);
        let strides = calc_strides_from_shape(&shape, layout);
        let mut data = source;
        data.truncate(size);
        let r = Matrix { shape, strides, data, layout };
        proof {
            r.lemma_dense_wf();
        }
        r
    }

    /// Returns the number of elements, the product of the current shape.
    pub fn size(&self) -> (r: usize)
        requires
            self.shape.len() > 0,
            shape_fits(self.shape@),
        ensures
            r == self.spec_size(),
    {
        calc_size_from_shape(&self.shape)
    }

    /// Returns the shape.
    pub fn shape(&self) -> (r: &Vec<usize>)
        ensures
            r@ == self.shape@,
    {
        &self.shape
    }

    /// Returns the strides.
    pub fn strides(&self) -> (r: &Vec<usize>)
        ensures
            r@ == self.strides@,
    {
        &self.strides
    }

    /// Overwrites the strides without any check. Meant to be paired with `set_shape`.
    pub fn set_strides(&mut self, strides: &[usize])
        ensures
            final(self).strides@ == strides@,
            final(self).shape@ == old(self).shape@,
            final(self).data@ == old(self).data@,
            final(self).layout == old(self).layout,
    {
        self.strides = vstd::slice::slice_to_vec(strides);
    }

    /// Overwrites the shape without any check. Meant to be paired with `set_strides`.
    pub fn set_shape(&mut self, shape: &[usize])
        ensures
            final(self).shape@ == shape@,
            final(self).strides@ == old(self).strides@,
            final(self).data@ == old(self).data@,
            final(self).layout == old(self).layout,
    {
        self.shape = vstd::slice::slice_to_vec(shape);
    }

    /// Gives the matrix `new_shape` with canonical strides when it holds as many elements
    /// as the current shape; otherwise leaves it untouched.
    pub fn reshape(&mut self, new_shape: &Vec<usize>) -> (r: Result<(), MatrixError>)
        requires
            old(self).shape.len() > 0,
            shape_fits(old(self).shape@),
            new_shape.len() > 0,
            shape_fits(new_shape@),
        ensures
            r is Ok <==> shape_size(new_shape@) == old(self).spec_size(),
            r is Ok ==> {
                &&& final(self).shape@ == new_shape@
                &&& final(self).strides@ == canonical_strides(new_shape@, old(self).layout)
                &&& final(self).data@ == old(self).data@
                &&& final(self).layout == old(self).layout
            },
            r is Err ==> r == Err::<(), MatrixError>(MatrixError::ReshapeError) && *final(self)
                == *old(self),
            r is Ok && old(self).data.len() >= old(self).spec_size() ==> final(self).wf(),
            r is Ok && old(self).data.len() == old(self).spec_size() ==> final(self).is_dense(),
    {
        let size = calc_size_from_shape(new_shape);
        if size == self.size() {
            self.shape = new_shape.clone();
            assert(self.shape@ =~= new_shape@);
            self.strides = calc_strides_from_shape(new_shape, self.layout);
            proof {
                if self.data.len() >= self.spec_size() {
                    assert forall|idx: Seq<usize>| in_bounds(idx, self.shape@) implies #[trigger] offset(
                        idx,
                        self.strides@,
                    ) < self.data.len() by {
                        lemma_canonical_bound(idx, self.shape@, self.layout);
                    }
                }
            }
            Ok(())
        } else {
            Err(MatrixError::ReshapeError)
        }
    }

    /// `Ok(true)` when `idx` lies inside the shape, `DimError` when its rank differs,
    /// `OutOfBounds` when some coordinate reaches its extent.
    pub fn check_bounds(&self, idx: &Vec<usize>) -> (r: Result<bool, MatrixError>)
        ensures
            idx.len() != self.shape.len() ==> r == Err::<bool, MatrixError>(MatrixError::DimError),
            idx.len() == self.shape.len() && in_bounds(idx@, self.shape@) ==> r == Ok::<
                bool,
                MatrixError,
            >(true),
            idx.len() == self.shape.len() && !in_bounds(idx@, self.shape@) ==> r == Err::<
                bool,
                MatrixError,
            >(MatrixError::OutOfBounds),
    {
        if idx.len() != self.shape.len() {
            return Err(MatrixError::DimError);
        }
        let n = idx.len();
        let mut i: usize = 0;
        while i < n
            invariant
                n == idx.len(),
                n == self.shape.len(),
                i <= n,
                forall|j: int| 0 <= j < i ==> idx@[j] < self.shape@[j],
            decreases n - i,
        {
            if idx[i] >= self.shape[i] {
                return Err(MatrixError::OutOfBounds);
            }
            i = i + 1;
        }
        Ok(true)
    }

    /// Storage offset of `idx`: the sum of each coordinate times its stride, after the
    /// bounds check.
    pub fn get_physical_idx(&self, idx: &Vec<usize>) -> (r: Result<usize, MatrixError>)
        requires
            self.strides.len() == self.shape.len(),
            in_bounds(idx@, self.shape@) ==> offset(idx@, self.strides@) <= usize::MAX,
        ensures
            idx.len() != self.shape.len() ==> r == Err::<usize, MatrixError>(MatrixError::DimError),
            idx.len() == self.shape.len() && !in_bounds(idx@, self.shape@) ==> r == Err::<
                usize,
                MatrixError,
            >(MatrixError::OutOfBounds),
            in_bounds(idx@, self.shape@) ==> r == Ok::<usize, MatrixError>(
                offset(idx@, self.strides@) as usize,
            ),
            r is Ok ==> in_bounds(idx@, self.shape@) && r->Ok_0 == offset(idx@, self.strides@),
            r is Ok && self.wf() ==> r->Ok_0 < self.data.len(),
    {
        match self.check_bounds(idx) {
            Ok(_) => {
                let n = idx.len();
                let mut return_val: usize = 0;
                let mut i: usize = 0;
                while i < n
                    invariant
                        n == idx.len(),
                        self.strides.len() == self.shape.len(),
                        in_bounds(idx@, self.shape@),
                        i <= n,
                        return_val == offset_upto(idx@, self.strides@, i as int),
                        offset(idx@, self.strides@) <= usize::MAX,
                    decreases n - i,
                {
                    proof {
                        lemma_offset_monotone(idx@, self.strides@, i + 1, n as int);
                    }
                    return_val = return_val + idx[i] * self.strides[i];
                    i = i + 1;
                }
                Ok(return_val)
            },
            Err(err) => Err(err),
        }
    }

    /// A reference to the element at `idx`.
    pub fn get(&self, idx: &Vec<usize>) -> (r: Result<&T, MatrixError>)
        requires
            self.wf(),
        ensures
            idx.len() != self.shape.len() ==> r == Err::<&T, MatrixError>(MatrixError::DimError),
            idx.len() == self.shape.len() && !in_bounds(idx@, self.shape@) ==> r == Err::<
                &T,
                MatrixError,
            >(MatrixError::OutOfBounds),
            in_bounds(idx@, self.shape@) ==> r is Ok && *r->Ok_0 == self.elem(idx@),
    {
        match self.get_physical_idx(idx) {
            Ok(physical_idx) => Ok(&self.data[physical_idx]),
            Err(m_err) => Err(m_err),
        }
    }

    /// A clone of the element at `idx`.
    pub fn get_copy(&self, idx: &Vec<usize>) -> (r: Result<T, MatrixError>) where T: Clone
        requires
            self.wf(),
        ensures
            idx.len() != self.shape.len() ==> r == Err::<T, MatrixError>(MatrixError::DimError),
            idx.len() == self.shape.len() && !in_bounds(idx@, self.shape@) ==> r == Err::<
                T,
                MatrixError,
            >(MatrixError::OutOfBounds),
            in_bounds(idx@, self.shape@) ==> r is Ok && cloned(self.elem(idx@), r->Ok_0),
    {
        match self.get_physical_idx(idx) {
            Ok(physical_idx) => Ok(self.data[physical_idx].clone()),
            Err(m_err) => Err(m_err),
        }
    }

    /// A mutable reference to the element at `idx`.
    pub fn get_mut(&mut self, idx: &Vec<usize>) -> (r: Result<&mut T, MatrixError>)
        requires
            old(self).wf(),
        ensures
            idx.len() != old(self).shape.len() ==> (r is Err && r->Err_0 == MatrixError::DimError),
            idx.len() == old(self).shape.len() && !in_bounds(idx@, old(self).shape@) ==> (r is Err
                && r->Err_0 == MatrixError::OutOfBounds),
            r is Err ==> *final(self) == *old(self),
            in_bounds(idx@, old(self).shape@) ==> {
                &&& r is Ok
                &&& *r->Ok_0 == old(self).elem(idx@)
                &&& final(self).data@ == old(self).data@.update(
                    offset(idx@, old(self).strides@),
                    *final(r->Ok_0),
                )
                &&& final(self).shape == old(self).shape
                &&& final(self).strides == old(self).strides
                &&& final(self).layout == old(self).layout
            },
    {
        match self.get_physical_idx(idx) {
            Ok(physical_idx) => Ok(&mut self.data[physical_idx]),
            Err(m_err) => Err(m_err),
        }
    }

    /// Stores `value` at `idx`.
    pub fn set(&mut self, idx: &Vec<usize>, value: T) -> (r: Result<(), MatrixError>)
        requires
            old(self).wf(),
        ensures
            idx.len() != old(self).shape.len() ==> r == Err::<(), MatrixError>(MatrixError::DimError),
            idx.len() == old(self).shape.len() && !in_bounds(idx@, old(self).shape@) ==> r == Err::<
                (),
                MatrixError,
            >(MatrixError::OutOfBounds),
            r is Err ==> *final(self) == *old(self),
            in_bounds(idx@, old(self).shape@) ==> {
                &&& r is Ok
                &&& final(self).data@ == old(self).data@.update(
                    offset(idx@, old(self).strides@),
                    value,
                )
                &&& final(self).shape == old(self).shape
                &&& final(self).strides == old(self).strides
                &&& final(self).layout == old(self).layout
            },
            final(self).wf(),
    {
        match self.get_physical_idx(idx) {
            Ok(physical_idx) => {
                self.data.set(physical_idx, value);
                Ok(())
            },
            Err(m_err) => Err(m_err),
        }
    }
}

impl<T> Matrix<T> {
    /// `self` is `other` with shape and strides reversed and the layout flipped, over the
    /// same storage.
    pub open spec fn is_transpose_of(&self, other: Matrix<T>) -> bool {
        &&& self.shape@ == other.shape@.reverse()
        &&& self.strides@ == other.strides@.reverse()
        &&& self.layout == other.layout.flipped()
        &&& self.data@ == other.data@
    }

    /// Transposing twice restores the shape, strides, layout and storage.
    pub proof fn lemma_transpose_involution(m: Matrix<T>, once: Matrix<T>, twice: Matrix<T>)
        requires
            once.is_transpose_of(m),
            twice.is_transpose_of(once),
        ensures
            twice.shape@ == m.shape@,
            twice.strides@ == m.strides@,
            twice.layout == m.layout,
            twice.data@ == m.data@,
    {
        assert(m.shape@.reverse().reverse() =~= m.shape@);
        assert(m.strides@.reverse().reverse() =~= m.strides@);
        match m.layout {
            Layout::RowMajor => {},
            Layout::ColumnMajor => {},
        }
    }

    /// Transposing keeps well-formedness and density.
    pub proof fn lemma_transpose_keeps_wf(&self, other: Matrix<T>)
        requires
            self.is_transpose_of(other),
        ensures
            other.wf() ==> self.wf(),
            other.is_dense() ==> self.is_dense(),
    {
        if other.shape.len() > 0 && shape_fits(other.shape@) {
            lemma_reverse_shape(other.shape@);
        }
        if other.wf() {
            assert forall|idx: Seq<usize>| in_bounds(idx, self.shape@) implies #[trigger] offset(
                idx,
                self.strides@,
            ) < self.data.len() by {
                let orig = idx.reverse();
                assert(orig.reverse() =~= idx);
                assert(other.shape@.reverse().reverse() =~= other.shape@);
                assert(in_bounds(orig, other.shape@));
                lemma_offset_reverse(orig, other.strides@);
                assert(other.strides@.reverse() == self.strides@);
            }
        }
        if other.is_dense() {
            match other.layout {
                Layout::RowMajor => {},
                Layout::ColumnMajor => {},
            }
        }
    }

    /// Reverses shape and strides and flips the layout; no element moves.
    pub fn transpose(&mut self)
        ensures
            final(self).is_transpose_of(*old(self)),
            old(self).wf() ==> final(self).wf(),
            old(self).is_dense() ==> final(self).is_dense(),
    {
        self.shape = reversed(&self.shape);
        self.strides = reversed(&self.strides);
        match self.layout {
            Layout::RowMajor => self.layout = Layout::ColumnMajor,
            Layout::ColumnMajor => self.layout = Layout::RowMajor,
        }
        proof {
            self.lemma_transpose_keeps_wf(*old(self));
        }
    }

    /// Reshapes to the one-axis shape `[size()]`, whose stride is 1.
    pub fn flatten(&mut self)
        requires
            old(self).shape.len() > 0,
            shape_fits(old(self).shape@),
        ensures
            final(self).shape@ == seq![old(self).spec_size() as usize],
            final(self).strides@ == seq![1usize],
            final(self).data@ == old(self).data@,
            final(self).layout == old(self).layout,
            old(self).data.len() >= old(self).spec_size() ==> final(self).wf(),
            old(self).data.len() == old(self).spec_size() ==> final(self).is_dense(),
    {
        let n = self.size();
        let flat: Vec<usize> = vec![n];
        proof {
            reveal_with_fuel(prefix_product, 2);
            reveal_with_fuel(suffix_product, 2);
            assert(shape_fits(flat@));
        }
        let r = self.reshape(&flat);
        assert(r is Ok);
        proof {
            match self.layout {
                Layout::RowMajor => assert(canonical_strides(flat@, self.layout) =~= seq![1usize]),
                Layout::ColumnMajor => assert(canonical_strides(flat@, self.layout) =~= seq![1usize]),
            }
        }
    }

    /// Copies the innermost row that starts at the prefix `idx`, which names every axis
    /// but the last. `DimError` when the prefix has another length, `OutOfBounds` when it
    /// lies outside the shape and the row is not empty; the probe coordinate is then left
    /// on `idx`.
    pub fn get_copy_row(&self, idx: &mut Vec<usize>) -> (r: Result<Vec<T>, MatrixError>) where
        T: Clone,
        requires
            self.wf(),
        ensures
            old(idx).len() + 1 != self.shape.len() ==> r == Err::<Vec<T>, MatrixError>(
                MatrixError::DimError,
            ) && final(idx)@ == old(idx)@,
            old(idx).len() + 1 == self.shape.len() ==> {
                let width = self.shape@.last();
                if width == 0 || in_bounds(old(idx)@.push(0), self.shape@) {
                    &&& r is Ok
                    &&& final(idx)@ == old(idx)@
                    &&& r->Ok_0.len() == width
                    &&& forall|j: int|
                        0 <= j < width ==> cloned(
                            self.elem(old(idx)@.push(j as usize)),
                            #[trigger] r->Ok_0@[j],
                        )
                } else {
                    &&& r == Err::<Vec<T>, MatrixError>(MatrixError::OutOfBounds)
                    &&& final(idx)@ == old(idx)@.push(0)
                }
            },
    {
        if idx.len() != self.shape.len() - 1 {
            return Err(MatrixError::DimError);
        }
        let width = self.shape[self.shape.len() - 1];
        let mut result: Vec<T> = Vec::new();
        let mut i: usize = 0;
        let ghost prefix = idx@;
        while i < width
            invariant
                self.wf(),
                width == self.shape@.last(),
                prefix.len() + 1 == self.shape.len(),
                prefix == old(idx)@,
                idx@ == prefix,
                i <= width,
                result.len() == i,
                i > 0 ==> in_bounds(prefix.push(0), self.shape@),
                forall|j: int|
                    0 <= j < i ==> cloned(
                        self.elem(prefix.push(j as usize)),
                        #[trigger] result@[j],
                    ),
            decreases width - i,
        {
            idx.push(i);
            let ghost probe = idx@;
            assert(in_bounds(probe, self.shape@) <==> in_bounds(prefix.push(0), self.shape@)) by {
                assert forall|j: int| 0 <= j < prefix.len() implies probe[j] == prefix.push(0)[j] by {}
            }
            match self.get_physical_idx(idx) {
                Ok(physical_idx) => {
                    result.push(self.data[physical_idx].clone());
                },
                Err(m_err) => {
                    assert(i == 0);
                    return Err(m_err);
                },
            }
            idx.pop();
            assert(idx@ =~= prefix);
            i = i + 1;
        }
        Ok(result)
    }

    /// Calls `func` on every storage slot in physical order, which is the logical order
    /// only while the strides are canonical.
    pub fn apply<F: FnMut(&T)>(&self, mut func: F)
        requires
            forall|i: int, g: F| 0 <= i < self.data.len() ==> call_requires(g, (&self.data@[i],)),
    {
        let n = self.data.len();
        let mut i: usize = 0;
        while i < n
            invariant
                n == self.data.len(),
                i <= n,
                forall|i: int, g: F|
                    0 <= i < self.data.len() ==> call_requires(g, (&self.data@[i],)),
            decreases n - i,
        {
            func(&self.data[i]);
            i = i + 1;
        }
    }

    /// Replaces every storage slot, in physical order, by what `func` returns for it.
    pub fn apply_mut<F: FnMut(&T) -> T>(&mut self, mut func: F)
        requires
            forall|g: F, x: &T| call_requires(g, (x,)),
        ensures
            final(self).data.len() == old(self).data.len(),
            final(self).shape == old(self).shape,
            final(self).strides == old(self).strides,
            final(self).layout == old(self).layout,
            forall|k: int|
                0 <= k < old(self).data.len() ==> call_ensures(
                    func,
                    (&old(self).data@[k],),
                    #[trigger] final(self).data@[k],
                ),
    {
        let ghost f0 = func;
        let n = self.data.len();
        let mut i: usize = 0;
        while i < n
            invariant
                n == self.data.len(),
                n == old(self).data.len(),
                self.shape == old(self).shape,
                self.strides == old(self).strides,
                self.layout == old(self).layout,
                i <= n,
                func == f0,
                forall|g: F, x: &T| call_requires(g, (x,)),
                forall|j: int| i <= j < n ==> self.data@[j] == old(self).data@[j],
                forall|j: int|
                    0 <= j < i ==> call_ensures(f0, (&old(self).data@[j],), #[trigger] self.data@[j]),
            decreases n - i,
        {
            let value = func(&self.data[i]);
            proof {
                broadcast use vstd::function::axiom_fn_mut_call_ensures;

                assert(call_ensures(f0, (&old(self).data@[i as int],), value));
            }
            self.data.set(i, value);
            i = i + 1;
        }
    }
}

impl<T: Default> Matrix<T> {
    /// Builds a matrix of `shape` whose cells all hold `T::default()`.
    pub fn new(shape: Vec<usize>, layout: Layout) -> (r: Matrix<T>)
        requires
            shape.len() > 0,
            shape_fits(shape@),
        ensures
            r.is_dense(),
            r.wf(),
            r.shape@ == shape@,
            r.layout == layout,
            forall|i: int| 0 <= i < r.data.len() ==> call_ensures(T::default, (), #[trigger] r.data@[i]),
    {
        let size = calc_size_from_shape(&shape);
        let strides = calc_strides_from_shape(&shape, layout);
        let mut data: Vec<T> = Vec::new();
        let mut i: usize = 0;
        while i < size
            invariant
                i <= size,
                data.len() == i,
                forall|j: int| 0 <= j < i ==> call_ensures(T::default, (), #[trigger] data@[j]),
            decreases size - i,
        {
            data.push(T::default());
            i = i + 1;
        }
        let r = Matrix { shape, strides, data, layout };
        proof {
            r.lemma_dense_wf();
        }
        r
    }
}

/// The all-zero index of rank `n`.
pub open spec fn zero_index(n: nat) -> Seq<usize> {
    Seq::new(n, |i: int| 0usize)
}

/// Read-only odometer walk over the logical indices of a matrix, last axis fastest,
/// yielding a clone of each element with its index.
#[derive(Debug)]
pub struct MatrixIter<'a, T> {
    pub mat: &'a Matrix<T>,
    pub index: Vec<usize>,
    pub current_el: Option<(T, Vec<usize>)>,
    pub empty: bool,
}

impl<'a, T: Clone> MatrixIter<'a, T> {
    /// A walk that starts at the all-zero index of `mat`.
    pub fn new(mat: &'a Matrix<T>) -> (r: MatrixIter<'a, T>)
        ensures
            r.mat == mat,
            r.index@ == zero_index(mat.shape.len() as nat),
            r.current_el is None,
            !r.empty,
    {
        let n = mat.shape.len();
        let index: Vec<usize> = vec![0; n];
        assert(index@ =~= zero_index(n as nat));
        MatrixIter { mat, index, current_el: None, empty: false }
    }

    /// Yields the element at the current index with that index, then advances the index
    /// like an odometer; once the last index has been yielded, yields nothing.
    pub fn next(&mut self) -> (r: Option<(T, Vec<usize>)>)
        requires
            old(self).mat.wf(),
        ensures
            final(self).mat == old(self).mat,
            !old(self).empty && in_bounds(old(self).index@, old(self).mat.shape@) ==> {
                let s = old(self).mat.shape@;
                let k = old(self).index@;
                &&& r is Some
                &&& r->Some_0.1@ == k
                &&& cloned(old(self).mat.elem(k), r->Some_0.0)
                &&& final(self).empty == (linear_index(k, s) + 1 == shape_size(s))
                &&& !final(self).empty ==> in_bounds(final(self).index@, s) && linear_index(
                    final(self).index@,
                    s,
                ) == linear_index(k, s) + 1
                &&& final(self).empty ==> final(self).index@ == zero_index(s.len())
            },
            old(self).empty || !in_bounds(old(self).index@, old(self).mat.shape@) ==> r is None
                && *final(self) == *old(self),
    {
        if self.empty {
            return None;
        }
        match self.mat.check_bounds(&self.index) {
            Ok(_) => {},
            Err(_) => {
                return None;
            },
        }
        let item = match self.mat.get_copy(&self.index) {
            Ok(v) => v,
            Err(_) => {
                return None;
            },
        };
        let at = self.index.clone();
        assert(at@ =~= old(self).index@);
        self.current_el = Some((item.clone(), at.clone()));
        let ghost s = self.mat.shape@;
        let ghost k = old(self).index@;
        let n = self.index.len();
        let mut i: usize = n;
        let mut carrying = true;
        while carrying && i > 0
            invariant
                self.mat == old(self).mat,
                s == self.mat.shape@,
                in_bounds(k, s),
                n == s.len(),
                self.index.len() == n,
                !self.empty,
                i <= n,
                forall|j: int| 0 <= j < i ==> self.index@[j] == k[j],
                carrying ==> forall|j: int| i <= j < n ==> #[trigger] k[j] + 1 == s[j],
                carrying ==> forall|j: int| i <= j < n ==> #[trigger] self.index@[j] == 0,
                !carrying ==> {
                    &&& i < n
                    &&& self.index@[i as int] == k[i as int] + 1
                    &&& self.index@[i as int] < s[i as int]
                    &&& forall|j: int| i < j < n ==> #[trigger] k[j] + 1 == s[j]
                    &&& forall|j: int| i < j < n ==> #[trigger] self.index@[j] == 0
                },
            decreases i,
        {
            i = i - 1;
            assert(self.index@[i as int] == k[i as int]);
            assert(k[i as int] < s[i as int]);
            if self.index[i] + 1 < self.mat.shape[i] {
                let bumped = self.index[i] + 1;
                self.index.set(i, bumped);
                carrying = false;
            } else {
                self.index.set(i, 0);
            }
        }
        proof {
            if carrying {
                lemma_linear_all_max(k, s, n as int);
                assert(self.index@ =~= zero_index(n as nat));
            } else {
                lemma_linear_step(k, self.index@, s, i as int, n as int);
                assert forall|j: int| 0 <= j < n implies #[trigger] self.index@[j] < s[j] by {
                    if j < i {
                        assert(k[j] < s[j]);
                    } else if j > i {
                        assert(k[j] + 1 == s[j]);
                    }
                }
                assert(in_bounds(self.index@, s));
                lemma_linear_bound(self.index@, s, n as int);
            }
        }
        if carrying {
            self.empty = true;
        }
        Some((item, at))
    }
}

/// A fresh walk starts at position zero when the shape has elements, and at an index
/// outside the shape when it has none.
pub proof fn lemma_iter_start(s: Seq<usize>)
    ensures
        shape_size(s) > 0 ==> in_bounds(zero_index(s.len()), s) && linear_index(
            zero_index(s.len()),
            s,
        ) == 0,
        shape_size(s) <= 0 ==> !in_bounds(zero_index(s.len()), s),
{
    let z = zero_index(s.len());
    lemma_size_positive(s, s.len() as int);
    lemma_linear_zeros(z, s, s.len() as int);
    if shape_size(s) <= 0 {
        let i = choose|i: int| 0 <= i < s.len() && !(s[i] > 0);
        assert(!(z[i] < s[i]));
    }
}

} // verus!
