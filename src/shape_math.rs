use vstd::prelude::*;
use crate::layout::Layout;

verus! {

/// Product of the first `n` extents of `s`.
pub open spec fn prefix_product(s: Seq<usize>, n: int) -> int
    decreases n,
{
    if n <= 0 {
        1
    } else {
        prefix_product(s, n - 1) * s[n - 1]
    }
}

/// Product of the extents of `s` from axis `i` on.
pub open spec fn suffix_product(s: Seq<usize>, i: int) -> int
    decreases s.len() - i,
{
    if i >= s.len() {
        1
    } else {
        s[i] * suffix_product(s, i + 1)
    }
}

/// Number of elements that a shape describes.
pub open spec fn shape_size(s: Seq<usize>) -> int {
    prefix_product(s, s.len() as int)
}

/// Every prefix product and every suffix product of `s` fits in a `usize`,
/// so that sizes and canonical strides of `s` can be computed without overflow.
pub open spec fn shape_fits(s: Seq<usize>) -> bool {
    &&& forall|i: int| 0 <= i <= s.len() ==> #[trigger] prefix_product(s, i) <= usize::MAX
    &&& forall|i: int| 0 <= i <= s.len() ==> #[trigger] suffix_product(s, i) <= usize::MAX
}

/// Row-major strides: the last axis has stride 1.
pub open spec fn row_major_strides(s: Seq<usize>) -> Seq<usize> {
    Seq::new(s.len(), |i: int| suffix_product(s, i + 1) as usize)
}

/// Column-major strides: axis 0 has stride 1.
pub open spec fn column_major_strides(s: Seq<usize>) -> Seq<usize> {
    Seq::new(s.len(), |i: int| prefix_product(s, i) as usize)
}

/// The strides that `layout` assigns to shape `s`.
pub open spec fn canonical_strides(s: Seq<usize>, layout: Layout) -> Seq<usize> {
    match layout {
        Layout::RowMajor => row_major_strides(s),
        Layout::ColumnMajor => column_major_strides(s),
    }
}

/// `idx` has one coordinate per axis of `s`, each below its extent.
pub open spec fn in_bounds(idx: Seq<usize>, s: Seq<usize>) -> bool {
    &&& idx.len() == s.len()
    &&& forall|i: int| 0 <= i < idx.len() ==> #[trigger] idx[i] < s[i]
}

/// Sum of `idx[i] * strides[i]` over the first `n` axes.
pub open spec fn offset_upto(idx: Seq<usize>, strides: Seq<usize>, n: int) -> int
    decreases n,
{
    if n <= 0 {
        0
    } else {
        offset_upto(idx, strides, n - 1) + idx[n - 1] * strides[n - 1]
    }
}

/// Storage offset of the logical index `idx` under `strides`.
pub open spec fn offset(idx: Seq<usize>, strides: Seq<usize>) -> int {
    offset_upto(idx, strides, idx.len() as int)
}

/// Position of `idx` in odometer order (last axis fastest) over the first `n` axes.
pub open spec fn linear_upto(idx: Seq<usize>, s: Seq<usize>, n: int) -> int
    decreases n,
{
    if n <= 0 {
        0
    } else {
        linear_upto(idx, s, n - 1) * s[n - 1] + idx[n - 1]
    }
}

/// Position of `idx` in odometer order over shape `s`.
pub open spec fn linear_index(idx: Seq<usize>, s: Seq<usize>) -> int {
    linear_upto(idx, s, s.len() as int)
}

/// Prefix products are non-negative.
pub proof fn lemma_prefix_nonneg(s: Seq<usize>, n: int)
    ensures
        prefix_product(s, n) >= 0,
    decreases n,
{
    if n > 0 {
        lemma_prefix_nonneg(s, n - 1);
        let p = prefix_product(s, n - 1);
        let x = s[n - 1] as int;
        assert(p * x >= 0) by (nonlinear_arith)
            requires
                p >= 0,
                x >= 0,
        ;
    }
}

/// Suffix products are non-negative.
pub proof fn lemma_suffix_nonneg(s: Seq<usize>, i: int)
    ensures
        suffix_product(s, i) >= 0,
    decreases s.len() - i,
{
    if i < s.len() {
        lemma_suffix_nonneg(s, i + 1);
        let p = suffix_product(s, i + 1);
        let x = s[i] as int;
        assert(x * p >= 0) by (nonlinear_arith)
            requires
                p >= 0,
                x >= 0,
        ;
    }
}

/// Splitting a shape at any axis, the two partial products multiply to its size.
pub proof fn lemma_prefix_times_suffix(s: Seq<usize>, i: int)
    requires
        0 <= i <= s.len(),
    ensures
        prefix_product(s, i) * suffix_product(s, i) == shape_size(s),
    decreases s.len() - i,
{
    if i < s.len() {
        lemma_prefix_times_suffix(s, i + 1);
        let p = prefix_product(s, i);
        let x = s[i] as int;
        let q = suffix_product(s, i + 1);
        assert(p * (x * q) == (p * x) * q) by (nonlinear_arith);
    }
}

/// The canonical strides, read as integers, are the partial products.
pub proof fn lemma_strides_values(s: Seq<usize>)
    requires
        shape_fits(s),
    ensures
        forall|i: int|
            0 <= i < s.len() ==> #[trigger] row_major_strides(s)[i] as int == suffix_product(s, i + 1),
        forall|i: int|
            0 <= i < s.len() ==> #[trigger] column_major_strides(s)[i] as int == prefix_product(s, i),
{
    assert forall|i: int| 0 <= i < s.len() implies #[trigger] row_major_strides(s)[i] as int
        == suffix_product(s, i + 1) by {
        lemma_suffix_nonneg(s, i + 1);
        assert(suffix_product(s, i + 1) <= usize::MAX);
    }
    assert forall|i: int| 0 <= i < s.len() implies #[trigger] column_major_strides(s)[i] as int
        == prefix_product(s, i) by {
        lemma_prefix_nonneg(s, i);
        assert(prefix_product(s, i) <= usize::MAX);
    }
}

/// Over the first `k` axes, row-major strides give the odometer position times the
/// product of the remaining extents.
pub proof fn lemma_row_major_offset_upto(idx: Seq<usize>, s: Seq<usize>, k: int)
    requires
        shape_fits(s),
        idx.len() == s.len(),
        0 <= k <= s.len(),
    ensures
        offset_upto(idx, row_major_strides(s), k) == linear_upto(idx, s, k) * suffix_product(
            s,
            k,
        ),
    decreases k,
{
    if k > 0 {
        lemma_row_major_offset_upto(idx, s, k - 1);
        lemma_strides_values(s);
        let o = offset_upto(idx, row_major_strides(s), k - 1);
        let l = linear_upto(idx, s, k - 1);
        let x = idx[k - 1] as int;
        let e = s[k - 1] as int;
        let q = suffix_product(s, k);
        assert(suffix_product(s, k - 1) == e * q);
        assert(o + x * q == (l * e + x) * q) by (nonlinear_arith)
            requires
                o == l * (e * q),
        ;
    }
}

/// Under row-major strides the offset of an index is its odometer position.
pub proof fn lemma_row_major_offset(idx: Seq<usize>, s: Seq<usize>)
    requires
        shape_fits(s),
        idx.len() == s.len(),
    ensures
        offset(idx, row_major_strides(s)) == linear_index(idx, s),
{
    lemma_row_major_offset_upto(idx, s, s.len() as int);
}

/// An in-bounds index has an odometer position below the size.
pub proof fn lemma_linear_bound(idx: Seq<usize>, s: Seq<usize>, n: int)
    requires
        in_bounds(idx, s),
        0 <= n <= s.len(),
    ensures
        0 <= linear_upto(idx, s, n) < prefix_product(s, n),
    decreases n,
{
    if n > 0 {
        lemma_linear_bound(idx, s, n - 1);
        let l = linear_upto(idx, s, n - 1);
        let p = prefix_product(s, n - 1);
        let x = idx[n - 1] as int;
        let e = s[n - 1] as int;
        assert(x < e);
        assert(0 <= l * e + x < p * e) by (nonlinear_arith)
            requires
                0 <= l < p,
                0 <= x < e,
        ;
    }
}

/// An in-bounds index has a column-major offset below the size.
pub proof fn lemma_column_major_bound(idx: Seq<usize>, s: Seq<usize>, n: int)
    requires
        shape_fits(s),
        in_bounds(idx, s),
        0 <= n <= s.len(),
    ensures
        0 <= offset_upto(idx, column_major_strides(s), n) < prefix_product(s, n),
    decreases n,
{
    if n > 0 {
        lemma_column_major_bound(idx, s, n - 1);
        lemma_strides_values(s);
        let o = offset_upto(idx, column_major_strides(s), n - 1);
        let p = prefix_product(s, n - 1);
        let x = idx[n - 1] as int;
        let e = s[n - 1] as int;
        assert(x < e);
        assert(0 <= o + x * p < p * e) by (nonlinear_arith)
            requires
                0 <= o < p,
                0 <= x < e,
        ;
    }
}

/// An in-bounds index addresses a slot below the size under either canonical layout.
pub proof fn lemma_canonical_bound(idx: Seq<usize>, s: Seq<usize>, layout: Layout)
    requires
        shape_fits(s),
        in_bounds(idx, s),
    ensures
        0 <= offset(idx, canonical_strides(s, layout)) < shape_size(s),
{
    match layout {
        Layout::RowMajor => {
            lemma_row_major_offset(idx, s);
            lemma_linear_bound(idx, s, s.len() as int);
        },
        Layout::ColumnMajor => {
            lemma_column_major_bound(idx, s, s.len() as int);
        },
    }
}

/// The odometer position depends only on the coordinates it reads.
pub proof fn lemma_linear_congruent(a: Seq<usize>, b: Seq<usize>, s: Seq<usize>, n: int)
    requires
        0 <= n <= a.len(),
        n <= b.len(),
        forall|i: int| 0 <= i < n ==> a[i] == b[i],
    ensures
        linear_upto(a, s, n) == linear_upto(b, s, n),
    decreases n,
{
    if n > 0 {
        lemma_linear_congruent(a, b, s, n - 1);
    }
}

/// Offsets agree when every term does.
pub proof fn lemma_offset_congruent(
    a: Seq<usize>,
    sa: Seq<usize>,
    b: Seq<usize>,
    sb: Seq<usize>,
    n: int,
)
    requires
        0 <= n,
        forall|i: int| 0 <= i < n ==> a[i] * sa[i] == #[trigger] b[i] * sb[i],
    ensures
        offset_upto(a, sa, n) == offset_upto(b, sb, n),
    decreases n,
{
    if n > 0 {
        lemma_offset_congruent(a, sa, b, sb, n - 1);
        assert(a[n - 1] * sa[n - 1] == b[n - 1] * sb[n - 1]);
    }
}

/// The odometer step: raising axis `j` by one and resetting the maxed-out axes after it
/// advances the position by one.
pub proof fn lemma_linear_step(old: Seq<usize>, new: Seq<usize>, s: Seq<usize>, j: int, n: int)
    requires
        0 <= j < n <= s.len(),
        old.len() == s.len(),
        new.len() == s.len(),
        forall|i: int| 0 <= i < j ==> old[i] == new[i],
        new[j] == old[j] + 1,
        forall|i: int| j < i < n ==> old[i] + 1 == s[i] && new[i] == 0,
    ensures
        linear_upto(new, s, n) == linear_upto(old, s, n) + 1,
    decreases n,
{
    if n == j + 1 {
        lemma_linear_congruent(old, new, s, j);
    } else {
        lemma_linear_step(old, new, s, j, n - 1);
        let l = linear_upto(old, s, n - 1);
        let e = s[n - 1] as int;
        assert(old[n - 1] + 1 == e);
        assert((l + 1) * e == l * e + e) by (nonlinear_arith);
    }
}

/// With every coordinate at its maximum, the position is the last one.
pub proof fn lemma_linear_all_max(idx: Seq<usize>, s: Seq<usize>, n: int)
    requires
        0 <= n <= s.len(),
        idx.len() == s.len(),
        forall|i: int| 0 <= i < n ==> idx[i] + 1 == s[i],
    ensures
        linear_upto(idx, s, n) == prefix_product(s, n) - 1,
    decreases n,
{
    if n > 0 {
        lemma_linear_all_max(idx, s, n - 1);
        let p = prefix_product(s, n - 1);
        let e = s[n - 1] as int;
        assert(idx[n - 1] + 1 == e);
        assert((p - 1) * e + (e - 1) == p * e - 1) by (nonlinear_arith);
    }
}

/// The all-zero index is at position zero.
pub proof fn lemma_linear_zeros(idx: Seq<usize>, s: Seq<usize>, n: int)
    requires
        0 <= n <= idx.len(),
        forall|i: int| 0 <= i < n ==> idx[i] == 0,
    ensures
        linear_upto(idx, s, n) == 0,
    decreases n,
{
    if n > 0 {
        lemma_linear_zeros(idx, s, n - 1);
    }
}

/// Distinct in-bounds indices have distinct positions.
pub proof fn lemma_linear_injective(a: Seq<usize>, b: Seq<usize>, s: Seq<usize>, n: int)
    requires
        in_bounds(a, s),
        in_bounds(b, s),
        0 <= n <= s.len(),
        linear_upto(a, s, n) == linear_upto(b, s, n),
    ensures
        forall|i: int| 0 <= i < n ==> a[i] == b[i],
    decreases n,
{
    if n > 0 {
        let la = linear_upto(a, s, n - 1);
        let lb = linear_upto(b, s, n - 1);
        let xa = a[n - 1] as int;
        let xb = b[n - 1] as int;
        let e = s[n - 1] as int;
        lemma_linear_bound(a, s, n - 1);
        lemma_linear_bound(b, s, n - 1);
        assert(xa < e && xb < e);
        assert(la == lb && xa == xb) by (nonlinear_arith)
            requires
                la * e + xa == lb * e + xb,
                0 <= xa < e,
                0 <= xb < e,
                la >= 0,
                lb >= 0,
        ;
        lemma_linear_injective(a, b, s, n - 1);
    }
}

/// A shape has elements exactly when none of its extents is zero.
pub proof fn lemma_size_positive(s: Seq<usize>, n: int)
    requires
        0 <= n <= s.len(),
    ensures
        prefix_product(s, n) > 0 <==> forall|i: int| 0 <= i < n ==> s[i] > 0,
    decreases n,
{
    if n > 0 {
        lemma_size_positive(s, n - 1);
        lemma_prefix_nonneg(s, n - 1);
        let p = prefix_product(s, n - 1);
        let e = s[n - 1] as int;
        assert(p * e > 0 <==> (p > 0 && e > 0)) by (nonlinear_arith)
            requires
                p >= 0,
                e >= 0,
        ;
    }
}

/// Partial offsets are non-negative and grow with the number of axes read.
pub proof fn lemma_offset_monotone(idx: Seq<usize>, strides: Seq<usize>, k: int, n: int)
    requires
        0 <= k <= n,
    ensures
        0 <= offset_upto(idx, strides, k) <= offset_upto(idx, strides, n),
    decreases n,
{
    if n > k {
        lemma_offset_monotone(idx, strides, k, n - 1);
        let x = idx[n - 1] as int;
        let y = strides[n - 1] as int;
        assert(x * y >= 0) by (nonlinear_arith)
            requires
                x >= 0,
                y >= 0,
        ;
    } else if k > 0 {
        lemma_offset_monotone(idx, strides, k - 1, k - 1);
        let x = idx[k - 1] as int;
        let y = strides[k - 1] as int;
        assert(x * y >= 0) by (nonlinear_arith)
            requires
                x >= 0,
                y >= 0,
        ;
    }
}

/// Sum of `idx[j] * strides[j]` over the axes from `i` on.
pub open spec fn offset_from(idx: Seq<usize>, strides: Seq<usize>, i: int) -> int
    decreases idx.len() - i,
{
    if i >= idx.len() || i < 0 {
        0
    } else {
        idx[i] * strides[i] + offset_from(idx, strides, i + 1)
    }
}

proof fn lemma_offset_split(idx: Seq<usize>, strides: Seq<usize>, k: int)
    requires
        0 <= k <= idx.len(),
    ensures
        offset_upto(idx, strides, k) + offset_from(idx, strides, k) == offset(idx, strides),
    decreases idx.len() - k,
{
    if k < idx.len() {
        lemma_offset_split(idx, strides, k + 1);
    }
}

proof fn lemma_offset_reverse_upto(idx: Seq<usize>, strides: Seq<usize>, k: int)
    requires
        idx.len() == strides.len(),
        0 <= k <= idx.len(),
    ensures
        offset_upto(idx.reverse(), strides.reverse(), k) == offset_from(
            idx,
            strides,
            idx.len() - k,
        ),
    decreases k,
{
    if k > 0 {
        lemma_offset_reverse_upto(idx, strides, k - 1);
    }
}

/// Reversing index and strides together keeps the offset.
pub proof fn lemma_offset_reverse(idx: Seq<usize>, strides: Seq<usize>)
    requires
        idx.len() == strides.len(),
    ensures
        offset(idx.reverse(), strides.reverse()) == offset(idx, strides),
{
    lemma_offset_reverse_upto(idx, strides, idx.len() as int);
    lemma_offset_split(idx, strides, 0);
}

/// Partial products of a reversed shape are the opposite partial products of the shape.
pub proof fn lemma_reverse_products(s: Seq<usize>)
    ensures
        forall|i: int|
            0 <= i <= s.len() ==> #[trigger] prefix_product(s.reverse(), i) == suffix_product(
                s,
                s.len() - i,
            ),
        forall|i: int|
            0 <= i <= s.len() ==> #[trigger] suffix_product(s.reverse(), i) == prefix_product(
                s,
                s.len() - i,
            ),
{
    assert forall|i: int| 0 <= i <= s.len() implies #[trigger] prefix_product(s.reverse(), i)
        == suffix_product(s, s.len() - i) by {
        lemma_reverse_prefix(s, i);
    }
    assert forall|i: int| 0 <= i <= s.len() implies #[trigger] suffix_product(s.reverse(), i)
        == prefix_product(s, s.len() - i) by {
        lemma_reverse_suffix(s, i);
    }
}

proof fn lemma_reverse_prefix(s: Seq<usize>, i: int)
    requires
        0 <= i <= s.len(),
    ensures
        prefix_product(s.reverse(), i) == suffix_product(s, s.len() - i),
    decreases i,
{
    if i > 0 {
        lemma_reverse_prefix(s, i - 1);
        let a = suffix_product(s, s.len() - i + 1);
        let x = s[s.len() - i] as int;
        assert(a * x == x * a) by (nonlinear_arith);
    }
}

proof fn lemma_reverse_suffix(s: Seq<usize>, i: int)
    requires
        0 <= i <= s.len(),
    ensures
        suffix_product(s.reverse(), i) == prefix_product(s, s.len() - i),
    decreases s.len() - i,
{
    if i < s.len() {
        lemma_reverse_suffix(s, i + 1);
        let a = prefix_product(s, s.len() - i - 1);
        let x = s[s.len() - i - 1] as int;
        assert(a * x == x * a) by (nonlinear_arith);
    }
}

/// Reversal keeps a shape's size and its fitting in `usize`, and swaps its canonical strides.
pub proof fn lemma_reverse_shape(s: Seq<usize>)
    requires
        shape_fits(s),
    ensures
        shape_fits(s.reverse()),
        shape_size(s.reverse()) == shape_size(s),
        row_major_strides(s.reverse()) == column_major_strides(s).reverse(),
        column_major_strides(s.reverse()) == row_major_strides(s).reverse(),
{
    lemma_reverse_products(s);
    let r = s.reverse();
    assert forall|i: int| 0 <= i <= r.len() implies #[trigger] prefix_product(r, i)
        <= usize::MAX by {
        assert(suffix_product(s, s.len() - i) <= usize::MAX);
    }
    assert forall|i: int| 0 <= i <= r.len() implies #[trigger] suffix_product(r, i)
        <= usize::MAX by {
        assert(prefix_product(s, s.len() - i) <= usize::MAX);
    }
    lemma_prefix_times_suffix(s, 0);
    assert(prefix_product(s, 0) == 1);
    assert(row_major_strides(r) =~= column_major_strides(s).reverse());
    assert(column_major_strides(r) =~= row_major_strides(s).reverse());
}

/// `s` with `k` leading axes of extent 1.
pub open spec fn with_leading_ones(s: Seq<usize>, k: nat) -> Seq<usize> {
    Seq::new(k, |i: int| 1usize) + s
}

proof fn lemma_leading_ones_prefix(s: Seq<usize>, k: nat, i: int)
    requires
        0 <= i <= k + s.len(),
    ensures
        prefix_product(with_leading_ones(s, k), i) == if i <= k {
            1
        } else {
            prefix_product(s, i - k)
        },
    decreases i,
{
    if i > 0 {
        lemma_leading_ones_prefix(s, k, i - 1);
        let p = with_leading_ones(s, k);
        if i <= k {
            assert(p[i - 1] == 1);
        } else {
            assert(p[i - 1] == s[i - 1 - k]);
            if i - 1 == k {
                assert(prefix_product(s, 0) == 1);
            }
        }
    }
}

proof fn lemma_leading_ones_suffix(s: Seq<usize>, k: nat, i: int)
    requires
        0 <= i <= k + s.len(),
    ensures
        suffix_product(with_leading_ones(s, k), i) == if i >= k {
            suffix_product(s, i - k)
        } else {
            suffix_product(s, 0)
        },
    decreases k + s.len() - i,
{
    if i < k + s.len() {
        lemma_leading_ones_suffix(s, k, i + 1);
        let p = with_leading_ones(s, k);
        if i < k {
            assert(p[i] == 1);
            if i + 1 == k {
                assert(suffix_product(s, i + 1 - k) == suffix_product(s, 0));
            }
        } else {
            assert(p[i] == s[i - k]);
        }
    }
}

/// Leading axes of extent 1 change neither the size nor the fitting in `usize`.
pub proof fn lemma_leading_ones(s: Seq<usize>, k: nat)
    requires
        shape_fits(s),
    ensures
        shape_fits(with_leading_ones(s, k)),
        shape_size(with_leading_ones(s, k)) == shape_size(s),
{
    let p = with_leading_ones(s, k);
    assert forall|i: int| 0 <= i <= p.len() implies #[trigger] prefix_product(p, i)
        <= usize::MAX by {
        lemma_leading_ones_prefix(s, k, i);
        if i > k {
            assert(prefix_product(s, i - k) <= usize::MAX);
        }
    }
    assert forall|i: int| 0 <= i <= p.len() implies #[trigger] suffix_product(p, i)
        <= usize::MAX by {
        lemma_leading_ones_suffix(s, k, i);
        if i >= k {
            assert(suffix_product(s, i - k) <= usize::MAX);
        } else {
            assert(suffix_product(s, 0) <= usize::MAX);
        }
    }
    lemma_leading_ones_prefix(s, k, p.len() as int);
    if s.len() == 0 {
        assert(prefix_product(s, 0) == 1);
    }
}

/// Strides that stretch axes of extent 1: an index in bounds of the stretched shape `b`
/// still addresses a slot below the size of `p`.
pub proof fn lemma_stretched_bound(p: Seq<usize>, b: Seq<usize>, st: Seq<usize>, layout: Layout)
    requires
        shape_fits(p),
        p.len() == b.len(),
        st.len() == p.len(),
        forall|i: int|
            0 <= i < p.len() ==> (#[trigger] st[i] == 0 && p[i] == 1) || (st[i]
                == canonical_strides(p, layout)[i] && b[i] == p[i]),
    ensures
        forall|idx: Seq<usize>|
            #[trigger] in_bounds(idx, b) ==> 0 <= offset(idx, st) < shape_size(p),
{
    let c = canonical_strides(p, layout);
    assert forall|idx: Seq<usize>| #[trigger] in_bounds(idx, b) implies 0 <= offset(idx, st)
        < shape_size(p) by {
        let proj = Seq::new(p.len(), |i: int| if p[i] == 1 { 0usize } else { idx[i] });
        assert forall|i: int| 0 <= i < p.len() implies idx[i] * st[i] == #[trigger] proj[i]
            * c[i] by {
            assert(idx[i] < b[i]);
            assert((st[i] == 0 && p[i] == 1) || (st[i] == c[i] && b[i] == p[i]));
            if p[i] == 1 {
                assert(proj[i] == 0);
                assert(idx[i] * st[i] == 0) by {
                    if st[i] != 0 {
                        assert(idx[i] == 0);
                    }
                }
            } else {
                assert(proj[i] == idx[i]);
                assert(st[i] == c[i]);
            }
        }
        lemma_offset_congruent(idx, st, proj, c, p.len() as int);
        assert forall|i: int| 0 <= i < proj.len() implies #[trigger] proj[i] < p[i] by {
            assert(idx[i] < b[i]);
        }
        lemma_canonical_bound(proj, p, layout);
        lemma_offset_monotone(idx, st, 0, idx.len() as int);
    }
}

} // verus!
