//! Shape arithmetic: axis extents, element counts, placeholder resolution,
//! and the NumPy-style broadcasting rules on shapes.
//!
//! A shape is a sequence of axis extents, axis 0 outermost; the empty shape
//! describes a scalar with exactly one element.  Broadcasting aligns two
//! shapes from the trailing (innermost) axis, treating missing leading axes
//! as extent 1.

use vstd::prelude::*;

verus! {

/// Extent of the axis at trailing position `i` (0 is the innermost axis).
/// Positions at or beyond the rank are virtual axes of extent 1.
pub open spec fn dim_at(s: Seq<usize>, i: int) -> int {
    if 0 <= i < s.len() {
        s[s.len() - 1 - i] as int
    } else {
        1
    }
}

/// Product of the trailing `n` axis extents (virtual axes contribute 1).
pub open spec fn trailing_prod(s: Seq<usize>, n: int) -> int
    decreases n,
{
    if n <= 0 {
        1
    } else {
        trailing_prod(s, n - 1) * dim_at(s, n - 1)
    }
}

/// Number of elements a shape describes: the product of all its extents.
/// The empty shape has product 1 (a scalar).
pub open spec fn prod(s: Seq<usize>) -> int {
    trailing_prod(s, s.len() as int)
}

/// Product of the extents strictly outside the trailing `i` positions.
pub open spec fn leading_prod(s: Seq<usize>, i: int) -> int
    decreases s.len() - i,
{
    if i >= s.len() {
        1
    } else {
        dim_at(s, i) * leading_prod(s, i + 1)
    }
}

/// All extents of `s` are at least 1.
pub open spec fn all_positive(s: Seq<usize>) -> bool {
    forall|i: int| 0 <= i < s.len() ==> (#[trigger] s[i]) >= 1
}

/// How many extents of `s` are 0 (placeholders in a shape handed to
/// `Tensor::from_data`).
pub open spec fn count_zeros(s: Seq<usize>) -> int
    decreases s.len(),
{
    if s.len() == 0 {
        0
    } else {
        (if s[0] == 0 {
            1int
        } else {
            0int
        }) + count_zeros(s.skip(1))
    }
}

/// Product of the nonzero extents of `s` (zeros contribute 1).
pub open spec fn nonzero_prod(s: Seq<usize>) -> int
    decreases s.len(),
{
    if s.len() == 0 {
        1
    } else {
        (if s[0] == 0 {
            1int
        } else {
            s[0] as int
        }) * nonzero_prod(s.skip(1))
    }
}

/// Index of the first zero extent of `s` (its length if there is none).
pub open spec fn zero_index(s: Seq<usize>) -> int
    decreases s.len(),
{
    if s.len() == 0 {
        0
    } else if s[0] == 0 {
        0
    } else {
        1 + zero_index(s.skip(1))
    }
}

/// Trailing products ignore the first entry as long as they do not reach it.
proof fn lemma_trailing_prod_skip(s: Seq<usize>, n: int)
    requires
        s.len() >= 1,
        n <= s.len() - 1,
    ensures
        trailing_prod(s, n) == trailing_prod(s.skip(1), n),
    decreases n,
{
    if n > 0 {
        lemma_trailing_prod_skip(s, n - 1);
        assert(dim_at(s, n - 1) == dim_at(s.skip(1), n - 1));
    }
}

/// The product of a nonempty shape is its first extent times the product of
/// the rest.
pub proof fn lemma_prod_cons(s: Seq<usize>)
    requires
        s.len() >= 1,
    ensures
        prod(s) == s[0] * prod(s.skip(1)),
{
    lemma_trailing_prod_skip(s, s.len() - 1);
    let n: int = s.len() as int;
    assert(trailing_prod(s, n) == trailing_prod(s, n - 1) * dim_at(s, n - 1));
    assert(dim_at(s, n - 1) == s[0]);
    assert(s.skip(1).len() == s.len() - 1);
    assert(prod(s.skip(1)) == trailing_prod(s.skip(1), n - 1));
    assert(trailing_prod(s, n - 1) == trailing_prod(s.skip(1), n - 1));
    assert(prod(s) == prod(s.skip(1)) * s[0]);
    assert(prod(s.skip(1)) * s[0] == s[0] * prod(s.skip(1))) by (nonlinear_arith);
}

/// Beyond the rank, trailing products stop growing.
pub proof fn lemma_trailing_prod_beyond(s: Seq<usize>, n: int)
    requires
        n >= s.len(),
    ensures
        trailing_prod(s, n) == prod(s),
    decreases n,
{
    if n > s.len() {
        lemma_trailing_prod_beyond(s, n - 1);
        assert(dim_at(s, n - 1) == 1);
    }
}

/// Trailing products of an all-positive shape are positive.
pub proof fn lemma_trailing_prod_pos(s: Seq<usize>, n: int)
    requires
        all_positive(s),
    ensures
        trailing_prod(s, n) >= 1,
    decreases n,
{
    if n > 0 {
        lemma_trailing_prod_pos(s, n - 1);
        assert(dim_at(s, n - 1) >= 1);
        assert(trailing_prod(s, n - 1) * dim_at(s, n - 1) >= 1) by (nonlinear_arith)
            requires
                trailing_prod(s, n - 1) >= 1,
                dim_at(s, n - 1) >= 1,
        ;
    }
}

/// Leading products of an all-positive shape are positive.
pub proof fn lemma_leading_prod_pos(s: Seq<usize>, i: int)
    requires
        all_positive(s),
    ensures
        leading_prod(s, i) >= 1,
    decreases s.len() - i,
{
    if i < s.len() {
        lemma_leading_prod_pos(s, i + 1);
        assert(dim_at(s, i) >= 1);
        assert(dim_at(s, i) * leading_prod(s, i + 1) >= 1) by (nonlinear_arith)
            requires
                leading_prod(s, i + 1) >= 1,
                dim_at(s, i) >= 1,
        ;
    }
}

/// A shape's product splits at any trailing position.
pub proof fn lemma_prod_split(s: Seq<usize>, i: int)
    requires
        0 <= i,
    ensures
        trailing_prod(s, i) * leading_prod(s, i) == prod(s),
    decreases s.len() - i,
{
    if i >= s.len() {
        lemma_trailing_prod_beyond(s, i);
    } else {
        lemma_prod_split(s, i + 1);
        assert(trailing_prod(s, i + 1) == trailing_prod(s, i) * dim_at(s, i));
        assert(leading_prod(s, i) == dim_at(s, i) * leading_prod(s, i + 1));
        assert(trailing_prod(s, i) * (dim_at(s, i) * leading_prod(s, i + 1)) == (trailing_prod(
            s,
            i,
        ) * dim_at(s, i)) * leading_prod(s, i + 1)) by (nonlinear_arith);
    }
}

/// For an all-positive shape, every trailing product is bounded by the full
/// product.
pub proof fn lemma_trailing_prod_le_prod(s: Seq<usize>, n: int)
    requires
        all_positive(s),
        0 <= n,
    ensures
        1 <= trailing_prod(s, n) <= prod(s),
{
    lemma_trailing_prod_pos(s, n);
    lemma_prod_split(s, n);
    lemma_leading_prod_pos(s, n);
    assert(trailing_prod(s, n) <= trailing_prod(s, n) * leading_prod(s, n)) by (nonlinear_arith)
        requires
            trailing_prod(s, n) >= 1,
            leading_prod(s, n) >= 1,
    ;
}

/// A shape without zeros is all-positive and its product is the product of
/// its nonzero extents.
pub proof fn lemma_no_zeros_prod(s: Seq<usize>)
    requires
        count_zeros(s) == 0,
    ensures
        all_positive(s),
        prod(s) == nonzero_prod(s),
    decreases s.len(),
{
    if s.len() > 0 {
        assert(count_zeros(s.skip(1)) == count_zeros(s) - (if s[0] == 0 {
            1int
        } else {
            0int
        }));
        lemma_count_zeros_nonneg(s.skip(1));
        lemma_no_zeros_prod(s.skip(1));
        lemma_prod_cons(s);
        assert forall|i: int| 0 <= i < s.len() implies (#[trigger] s[i]) >= 1 by {
            if i > 0 {
                assert(s.skip(1)[i - 1] >= 1);
            }
        }
    }
}

/// The zero count is never negative.
pub proof fn lemma_count_zeros_nonneg(s: Seq<usize>)
    ensures
        count_zeros(s) >= 0,
    decreases s.len(),
{
    if s.len() > 0 {
        lemma_count_zeros_nonneg(s.skip(1));
    }
}

/// The product of the nonzero extents is positive.
pub proof fn lemma_nonzero_prod_pos(s: Seq<usize>)
    ensures
        nonzero_prod(s) >= 1,
    decreases s.len(),
{
    if s.len() > 0 {
        lemma_nonzero_prod_pos(s.skip(1));
        let h: int = if s[0] == 0 {
            1int
        } else {
            s[0] as int
        };
        assert(h * nonzero_prod(s.skip(1)) >= 1) by (nonlinear_arith)
            requires
                h >= 1,
                nonzero_prod(s.skip(1)) >= 1,
        ;
    }
}

/// If `s` has a zero, `zero_index` names the first one.
pub proof fn lemma_zero_index(s: Seq<usize>)
    requires
        count_zeros(s) >= 1,
    ensures
        0 <= zero_index(s) < s.len(),
        s[zero_index(s)] == 0,
        forall|i: int| 0 <= i < zero_index(s) ==> (#[trigger] s[i]) != 0,
    decreases s.len(),
{
    lemma_count_zeros_nonneg(s);
    if s.len() > 0 && s[0] != 0 {
        lemma_count_zeros_nonneg(s.skip(1));
        lemma_zero_index(s.skip(1));
        assert forall|i: int| 0 <= i < zero_index(s) implies (#[trigger] s[i]) != 0 by {
            if i > 0 {
                assert(s.skip(1)[i - 1] != 0);
            }
        }
    }
}

/// A zero preceded by no other zero sits exactly at `zero_index`.
pub proof fn lemma_zero_index_first(s: Seq<usize>, z: int)
    requires
        0 <= z < s.len(),
        s[z] == 0,
        forall|i: int| 0 <= i < z ==> (#[trigger] s[i]) != 0,
    ensures
        zero_index(s) == z,
    decreases s.len(),
{
    if s[0] != 0 {
        lemma_zero_index_first(s.skip(1), z - 1);
    }
}

/// With exactly one zero, every other extent is nonzero.
pub proof fn lemma_single_zero(s: Seq<usize>)
    requires
        count_zeros(s) == 1,
    ensures
        forall|i: int|
            0 <= i < s.len() && i != zero_index(s) ==> (#[trigger] s[i]) != 0,
    decreases s.len(),
{
    lemma_zero_index(s);
    if s.len() > 0 {
        if s[0] == 0 {
            assert(count_zeros(s.skip(1)) == 0);
            lemma_no_zeros_prod(s.skip(1));
            assert forall|i: int|
                0 <= i < s.len() && i != zero_index(s) implies (#[trigger] s[i]) != 0 by {
                if i > 0 {
                    assert(s.skip(1)[i - 1] >= 1);
                }
            }
        } else {
            lemma_count_zeros_nonneg(s.skip(1));
            lemma_single_zero(s.skip(1));
            assert forall|i: int|
                0 <= i < s.len() && i != zero_index(s) implies (#[trigger] s[i]) != 0 by {
                if i > 0 {
                    assert(s.skip(1)[i - 1] != 0);
                }
            }
        }
    }
}

/// A rank-2 shape describes `rows * cols` elements.
pub proof fn lemma_prod_pair(s: Seq<usize>)
    requires
        s.len() == 2,
    ensures
        prod(s) == s[0] * s[1],
{
    assert(trailing_prod(s, 0) == 1);
    assert(trailing_prod(s, 1) == 1 * dim_at(s, 0));
    assert(dim_at(s, 0) == s[1]);
    assert(dim_at(s, 1) == s[0]);
    assert(trailing_prod(s, 2) == trailing_prod(s, 1) * dim_at(s, 1));
    assert((s[1] as int) * (s[0] as int) == (s[0] as int) * (s[1] as int)) by (nonlinear_arith);
}

/// Dropping leading axes keeps a shape all-positive.
pub proof fn lemma_all_positive_skip(s: Seq<usize>, j: int)
    requires
        all_positive(s),
        0 <= j <= s.len(),
    ensures
        all_positive(s.skip(j)),
{
    assert forall|i: int| 0 <= i < s.skip(j).len() implies (#[trigger] s.skip(j)[i]) >= 1 by {
        assert(s.skip(j)[i] == s[i + j]);
    }
}

/// An all-positive shape describes at least one element.
pub proof fn lemma_prod_pos(s: Seq<usize>)
    requires
        all_positive(s),
    ensures
        prod(s) >= 1,
{
    lemma_trailing_prod_pos(s, s.len() as int);
}

/// An all-positive shape has no zeros to count.
pub proof fn lemma_all_positive_count(s: Seq<usize>)
    requires
        all_positive(s),
    ensures
        count_zeros(s) == 0,
    decreases s.len(),
{
    if s.len() > 0 {
        assert(s[0] >= 1);
        assert(all_positive(s.skip(1))) by {
            assert forall|i: int| 0 <= i < s.skip(1).len() implies (#[trigger] s.skip(1)[i])
                >= 1 by {
                assert(s.skip(1)[i] == s[i + 1]);
            }
        }
        lemma_all_positive_count(s.skip(1));
    }
}

/// Replacing the unique zero of `s` by `v` gives a shape whose product is
/// `nonzero_prod(s) * v`.
pub proof fn lemma_update_zero_prod(s: Seq<usize>, v: usize)
    requires
        count_zeros(s) == 1,
    ensures
        prod(s.update(zero_index(s), v)) == nonzero_prod(s) * v,
    decreases s.len(),
{
    lemma_zero_index(s);
    let z = zero_index(s);
    let u = s.update(z, v);
    if s[0] == 0 {
        assert(z == 0);
        assert(u.skip(1) =~= s.skip(1));
        lemma_prod_cons(u);
        assert(count_zeros(s.skip(1)) == 0);
        lemma_no_zeros_prod(s.skip(1));
        assert(prod(u) == v * nonzero_prod(s.skip(1)));
        assert(v * nonzero_prod(s.skip(1)) == (1int * nonzero_prod(s.skip(1))) * v)
            by (nonlinear_arith);
    } else {
        lemma_count_zeros_nonneg(s.skip(1));
        assert(count_zeros(s.skip(1)) == 1);
        lemma_update_zero_prod(s.skip(1), v);
        assert(u.skip(1) =~= s.skip(1).update(z - 1, v));
        lemma_prod_cons(u);
        assert(u[0] == s[0]);
        assert(prod(u) == s[0] * (nonzero_prod(s.skip(1)) * v));
        assert(s[0] * (nonzero_prod(s.skip(1)) * v) == (s[0] * nonzero_prod(s.skip(1))) * v)
            by (nonlinear_arith);
    }
}

} // verus!
