use vstd::prelude::*;
use crate::errors::MatrixError;
use crate::layout::Layout;
use crate::shape_math::{
    canonical_strides, in_bounds, lemma_leading_ones, lemma_stretched_bound, offset, shape_fits,
    shape_size, with_leading_ones,
};
use crate::utils::calc_strides_from_shape;

verus! {

/// Rank of the broadcast of two shapes: the larger of the two.
pub open spec fn broadcast_rank(l: Seq<usize>, r: Seq<usize>) -> nat {
    if l.len() >= r.len() {
        l.len()
    } else {
        r.len()
    }
}

/// `s` left-padded with axes of extent 1 up to rank `n`.
pub open spec fn pad_to(s: Seq<usize>, n: nat) -> Seq<usize> {
    if s.len() >= n {
        s
    } else {
        with_leading_ones(s, (n - s.len()) as nat)
    }
}

/// Left operand's shape, padded to the broadcast rank.
pub open spec fn padded_lhs(l: Seq<usize>, r: Seq<usize>) -> Seq<usize> {
    pad_to(l, broadcast_rank(l, r))
}

/// Right operand's shape, padded to the broadcast rank.
pub open spec fn padded_rhs(l: Seq<usize>, r: Seq<usize>) -> Seq<usize> {
    pad_to(r, broadcast_rank(l, r))
}

/// After right-aligning, every axis pair is equal or one side is 1.
pub open spec fn broadcastable(l: Seq<usize>, r: Seq<usize>) -> bool {
    forall|i: int|
        0 <= i < broadcast_rank(l, r) ==> {
            let a = #[trigger] padded_lhs(l, r)[i];
            let b = padded_rhs(l, r)[i];
            a == b || a == 1 || b == 1
        }
}

/// The shape both operands take after broadcasting.
pub open spec fn broadcast_shape(l: Seq<usize>, r: Seq<usize>) -> Seq<usize> {
    Seq::new(
        broadcast_rank(l, r),
        |i: int|
            {
                let a = padded_lhs(l, r)[i];
                let b = padded_rhs(l, r)[i];
                if a == b {
                    a
                } else if a == 1 {
                    b
                } else {
                    a
                }
            },
    )
}

/// Left operand's strides after broadcasting: canonical for its padded shape, 0 on every
/// axis that it stretches.
pub open spec fn broadcast_lhs_strides(l: Seq<usize>, ll: Layout, r: Seq<usize>) -> Seq<usize> {
    Seq::new(
        broadcast_rank(l, r),
        |i: int|
            {
                let a = padded_lhs(l, r)[i];
                let b = padded_rhs(l, r)[i];
                if a != b && a == 1 {
                    0usize
                } else {
                    canonical_strides(padded_lhs(l, r), ll)[i]
                }
            },
    )
}

/// Right operand's strides after broadcasting: canonical for its padded shape, 0 on every
/// axis that it stretches.
pub open spec fn broadcast_rhs_strides(l: Seq<usize>, r: Seq<usize>, rl: Layout) -> Seq<usize> {
    Seq::new(
        broadcast_rank(l, r),
        |i: int|
            {
                let a = padded_lhs(l, r)[i];
                let b = padded_rhs(l, r)[i];
                if a != b && a != 1 && b == 1 {
                    0usize
                } else {
                    canonical_strides(padded_rhs(l, r), rl)[i]
                }
            },
    )
}

/// Left-pads `s` with axes of extent 1 up to rank `n`.
fn pad_with_ones(s: &Vec<usize>, n: usize) -> (r: Vec<usize>)
    ensures
        r@ == pad_to(s@, n as nat),
{
    if s.len() >= n {
        return s.clone();
    }
    let k = n - s.len();
    let mut r: Vec<usize> = Vec::new();
    let mut i: usize = 0;
    while i < k
        invariant
            i <= k,
            r@ == Seq::new(i as nat, |j: int| 1usize),
        decreases k - i,
    {
        r.push(1);
        i = i + 1;
        assert(r@ =~= Seq::new(i as nat, |j: int| 1usize));
    }
    let mut j: usize = 0;
    while j < s.len()
        invariant
            k == n - s.len(),
            r@ == Seq::new(k as nat, |j: int| 1usize) + s@.subrange(0, j as int),
            j <= s.len(),
        decreases s.len() - j,
    {
        r.push(s[j]);
        j = j + 1;
        assert(r@ =~= Seq::new(k as nat, |j: int| 1usize) + s@.subrange(0, j as int));
    }
    assert(s@.subrange(0, s.len() as int) =~= s@);
    r
}

/// Reconciles two shapes NumPy-style: right-align them, then on each axis keep equal
/// extents, or stretch an extent of 1 to the other side's extent by giving that side
/// stride 0. Returns the common shape and both operands' strides.
pub fn broadcast(
    lhs_shape: &Vec<usize>,
    lhs_layout: Layout,
    rhs_shape: &Vec<usize>,
    rhs_layout: Layout,
) -> (r: Result<(Vec<usize>, Vec<usize>, Vec<usize>), MatrixError>)
    requires
        shape_fits(lhs_shape@),
        shape_fits(rhs_shape@),
    ensures
        r is Ok <==> broadcastable(lhs_shape@, rhs_shape@),
        r is Err ==> r->Err_0 == MatrixError::BroadcastError,
        r is Ok ==> {
            &&& r->Ok_0.0@ == broadcast_shape(lhs_shape@, rhs_shape@)
            &&& r->Ok_0.1@ == broadcast_lhs_strides(lhs_shape@, lhs_layout, rhs_shape@)
            &&& r->Ok_0.2@ == broadcast_rhs_strides(lhs_shape@, rhs_shape@, rhs_layout)
        },
{
    let n = if lhs_shape.len() >= rhs_shape.len() {
        lhs_shape.len()
    } else {
        rhs_shape.len()
    };
    let lhs_padded = pad_with_ones(lhs_shape, n);
    let rhs_padded = pad_with_ones(rhs_shape, n);
    proof {
        if lhs_shape.len() < n {
            lemma_leading_ones(lhs_shape@, (n - lhs_shape.len()) as nat);
        }
        if rhs_shape.len() < n {
            lemma_leading_ones(rhs_shape@, (n - rhs_shape.len()) as nat);
        }
    }
    let ghost pl = padded_lhs(lhs_shape@, rhs_shape@);
    let ghost pr = padded_rhs(lhs_shape@, rhs_shape@);
    assert(lhs_padded@ == pl);
    assert(rhs_padded@ == pr);
    let mut shape: Vec<usize> = Vec::new();
    let mut lhs_strides = calc_strides_from_shape(&lhs_padded, lhs_layout);
    let mut rhs_strides = calc_strides_from_shape(&rhs_padded, rhs_layout);
    let ghost bs = broadcast_shape(lhs_shape@, rhs_shape@);
    let ghost bl = broadcast_lhs_strides(lhs_shape@, lhs_layout, rhs_shape@);
    let ghost br = broadcast_rhs_strides(lhs_shape@, rhs_shape@, rhs_layout);
    let mut i: usize = 0;
    while i < n
        invariant
            n == broadcast_rank(lhs_shape@, rhs_shape@),
            pl == padded_lhs(lhs_shape@, rhs_shape@),
            pr == padded_rhs(lhs_shape@, rhs_shape@),
            bs == broadcast_shape(lhs_shape@, rhs_shape@),
            bl == broadcast_lhs_strides(lhs_shape@, lhs_layout, rhs_shape@),
            br == broadcast_rhs_strides(lhs_shape@, rhs_shape@, rhs_layout),
            lhs_padded@ == pl,
            rhs_padded@ == pr,
            pl.len() == n,
            pr.len() == n,
            i <= n,
            shape@ == bs.subrange(0, i as int),
            lhs_strides.len() == n,
            rhs_strides.len() == n,
            forall|j: int| 0 <= j < i ==> lhs_strides@[j] == bl[j],
            forall|j: int| i <= j < n ==> lhs_strides@[j] == canonical_strides(pl, lhs_layout)[j],
            forall|j: int| 0 <= j < i ==> rhs_strides@[j] == br[j],
            forall|j: int| i <= j < n ==> rhs_strides@[j] == canonical_strides(pr, rhs_layout)[j],
            forall|j: int| 0 <= j < i ==> #[trigger] pl[j] == pr[j] || pl[j] == 1 || pr[j] == 1,
        decreases n - i,
    {
        let l = lhs_padded[i];
        let r = rhs_padded[i];
        if l == r {
            shape.push(l);
        } else if l == 1 {
            shape.push(r);
            lhs_strides.set(i, 0);
        } else if r == 1 {
            shape.push(l);
            rhs_strides.set(i, 0);
        } else {
            assert(!broadcastable(lhs_shape@, rhs_shape@)) by {
                assert(padded_lhs(lhs_shape@, rhs_shape@)[i as int] == l);
            }
            return Err(MatrixError::BroadcastError);
        }
        i = i + 1;
        assert(shape@ =~= bs.subrange(0, i as int));
    }
    assert(shape@ =~= bs);
    assert(lhs_strides@ =~= bl);
    assert(rhs_strides@ =~= br);
    Ok((shape, lhs_strides, rhs_strides))
}

proof fn lemma_padded(s: Seq<usize>, n: nat)
    requires
        shape_fits(s),
    ensures
        shape_fits(pad_to(s, n)),
        shape_size(pad_to(s, n)) == shape_size(s),
        pad_to(s, n).len() == if s.len() >= n {
            s.len()
        } else {
            n
        },
{
    if s.len() < n {
        lemma_leading_ones(s, (n - s.len()) as nat);
    }
}

/// Under its broadcast strides, the left operand addresses nothing beyond its own size.
pub proof fn lemma_broadcast_lhs_bound(l: Seq<usize>, ll: Layout, r: Seq<usize>)
    requires
        shape_fits(l),
        broadcastable(l, r),
    ensures
        forall|idx: Seq<usize>|
            #[trigger] in_bounds(idx, broadcast_shape(l, r)) ==> 0 <= offset(
                idx,
                broadcast_lhs_strides(l, ll, r),
            ) < shape_size(l),
{
    let n = broadcast_rank(l, r);
    lemma_padded(l, n);
    let p = padded_lhs(l, r);
    let q = padded_rhs(l, r);
    let b = broadcast_shape(l, r);
    let st = broadcast_lhs_strides(l, ll, r);
    assert forall|i: int| 0 <= i < p.len() implies (#[trigger] st[i] == 0 && p[i] == 1) || (st[i]
        == canonical_strides(p, ll)[i] && b[i] == p[i]) by {
        assert(p[i] == q[i] || p[i] == 1 || q[i] == 1);
    }
    lemma_stretched_bound(p, b, st, ll);
}

/// Under its broadcast strides, the right operand addresses nothing beyond its own size.
pub proof fn lemma_broadcast_rhs_bound(l: Seq<usize>, r: Seq<usize>, rl: Layout)
    requires
        shape_fits(r),
        broadcastable(l, r),
    ensures
        forall|idx: Seq<usize>|
            #[trigger] in_bounds(idx, broadcast_shape(l, r)) ==> 0 <= offset(
                idx,
                broadcast_rhs_strides(l, r, rl),
            ) < shape_size(r),
{
    let n = broadcast_rank(l, r);
    lemma_padded(r, n);
    let p = padded_lhs(l, r);
    let q = padded_rhs(l, r);
    let b = broadcast_shape(l, r);
    let st = broadcast_rhs_strides(l, r, rl);
    assert forall|i: int| 0 <= i < q.len() implies (#[trigger] st[i] == 0 && q[i] == 1) || (st[i]
        == canonical_strides(q, rl)[i] && b[i] == q[i]) by {
        assert(p[i] == q[i] || p[i] == 1 || q[i] == 1);
    }
    lemma_stretched_bound(q, b, st, rl);
}

} // verus!
