//! The broadcasting engine: aligning two shapes from the trailing axis,
//! tiling each operand's flat buffer axis by axis with an accumulating
//! stride, and combining the expanded buffers elementwise.
//!
//! Expansion is the delicate part: the axis at trailing position `i` is
//! tiled in blocks of the size the buffer's trailing `i` axes have
//! *already* been expanded to — the running stride accumulates the result
//! extents, not the operand's own — so that the copies made for earlier
//! axes are preserved when later axes are expanded.

use vstd::prelude::*;

use crate::shape::{
    all_positive, dim_at, leading_prod, prod, trailing_prod, lemma_prod_split,
    lemma_leading_prod_pos, lemma_prod_pos, lemma_trailing_prod_pos, lemma_trailing_prod_beyond,
};
use crate::tensor::{copy_vec, zip_elems, Tensor, TensorError};
use vstd::arithmetic::div_mod::{
    lemma_basic_div, lemma_div_pos_is_pos, lemma_fundamental_div_mod,
    lemma_fundamental_div_mod_converse, lemma_mod_division_less_than_divisor,
    lemma_multiply_divide_lt, lemma_small_mod,
};

verus! {

/// The extent two broadcast operands agree on at trailing position `i`:
/// the larger of the two aligned extents.
pub open spec fn bdim(s1: Seq<usize>, s2: Seq<usize>, i: int) -> int {
    if dim_at(s1, i) >= dim_at(s2, i) {
        dim_at(s1, i)
    } else {
        dim_at(s2, i)
    }
}

/// The larger of the two ranks.
pub open spec fn max_rank(s1: Seq<usize>, s2: Seq<usize>) -> int {
    if s1.len() >= s2.len() {
        s1.len() as int
    } else {
        s2.len() as int
    }
}

/// Aligned extents are compatible when they are equal or either is 1.
pub open spec fn axes_compatible(s1: Seq<usize>, s2: Seq<usize>, i: int) -> bool {
    dim_at(s1, i) == dim_at(s2, i) || dim_at(s1, i) == 1 || dim_at(s2, i) == 1
}

/// Two shapes broadcast together when every aligned axis pair is compatible.
pub open spec fn broadcast_compatible(s1: Seq<usize>, s2: Seq<usize>) -> bool {
    forall|i: int| 0 <= i < max_rank(s1, s2) ==> #[trigger] axes_compatible(s1, s2, i)
}

/// The shape of a broadcast result: per trailing-aligned axis, the larger
/// extent.
pub open spec fn broadcast_shape(s1: Seq<usize>, s2: Seq<usize>) -> Seq<usize> {
    Seq::new(max_rank(s1, s2) as nat, |j: int| bdim(s1, s2, max_rank(s1, s2) - 1 - j) as usize)
}

/// Product of the trailing `n` result extents.
pub open spec fn bprod(s1: Seq<usize>, s2: Seq<usize>, n: int) -> int
    decreases n,
{
    if n <= 0 {
        1
    } else {
        bprod(s1, s2, n - 1) * bdim(s1, s2, n - 1)
    }
}

/// One expansion step: each `chunk`-sized block of `buf` repeated `rep`
/// times in place.
pub open spec fn tile<T>(buf: Seq<T>, chunk: int, rep: int) -> Seq<T> {
    Seq::new(
        (buf.len() * rep) as nat,
        |k: int| buf[(k / (chunk * rep)) * chunk + (k % (chunk * rep)) % chunk],
    )
}

/// The expansion step the engine applies at trailing position `i` to the
/// buffer of the operand with shape `own`, broadcast against `other`: where
/// `own` presents extent 1 against a larger extent, the buffer is tiled in
/// blocks of the size its trailing `i` axes have already been expanded to.
pub open spec fn expand_step<T>(e: Seq<T>, own: Seq<usize>, other: Seq<usize>, i: int) -> Seq<T> {
    if dim_at(own, i) == 1 && dim_at(other, i) != 1 {
        tile(e, bprod(own, other, i), dim_at(other, i))
    } else {
        e
    }
}

/// The buffer `d` after the expansion steps for trailing positions
/// `0 .. n`, innermost first.
pub open spec fn expand_upto<T>(d: Seq<T>, own: Seq<usize>, other: Seq<usize>, n: int) -> Seq<T>
    decreases n,
{
    if n <= 0 {
        d
    } else {
        expand_step(expand_upto(d, own, other, n - 1), own, other, n - 1)
    }
}

/// The fully expanded buffer of a tensor with data `d` and shape `own`,
/// broadcast against a tensor with shape `other`.
pub open spec fn expanded<T>(d: Seq<T>, own: Seq<usize>, other: Seq<usize>) -> Seq<T> {
    expand_upto(d, own, other, max_rank(own, other))
}

/// The result shape's trailing products are the `bprod` products.
proof fn lemma_bshape_trailing(s1: Seq<usize>, s2: Seq<usize>, n: int)
    requires
        0 <= n <= max_rank(s1, s2),
    ensures
        trailing_prod(broadcast_shape(s1, s2), n) == bprod(s1, s2, n),
    decreases n,
{
    let bs = broadcast_shape(s1, s2);
    if n > 0 {
        lemma_bshape_trailing(s1, s2, n - 1);
        assert(bs[bs.len() - 1 - (n - 1)] == bdim(s1, s2, n - 1) as usize);
        assert(0 <= bdim(s1, s2, n - 1) <= usize::MAX);
        assert(dim_at(bs, n - 1) == bdim(s1, s2, n - 1));
    }
}

/// `bprod` does not depend on operand order.
proof fn lemma_bprod_sym(s1: Seq<usize>, s2: Seq<usize>, n: int)
    ensures
        bprod(s1, s2, n) == bprod(s2, s1, n),
    decreases n,
{
    if n > 0 {
        lemma_bprod_sym(s1, s2, n - 1);
        assert(bdim(s1, s2, n - 1) == bdim(s2, s1, n - 1));
    }
}

/// The bookkeeping of the expansion, per trailing position count `n`: the
/// expanded buffer's length is the product of the result extents agreed so
/// far, times what is left of `own`'s leading extents.
proof fn lemma_expand_invariants<T>(d: Seq<T>, own: Seq<usize>, other: Seq<usize>, n: int)
    requires
        all_positive(own),
        all_positive(other),
        d.len() == prod(own),
        0 <= n,
        forall|i: int| 0 <= i < n ==> #[trigger] axes_compatible(own, other, i),
    ensures
        expand_upto(d, own, other, n).len() == bprod(own, other, n) * leading_prod(own, n),
        bprod(own, other, n) >= 1,
    decreases n,
{
    if n == 0 {
        lemma_prod_split(own, 0);
        assert(trailing_prod(own, 0) == 1);
        assert(1int * leading_prod(own, 0) == leading_prod(own, 0)) by (nonlinear_arith);
    } else {
        lemma_expand_invariants(d, own, other, n - 1);
        let e = expand_upto(d, own, other, n - 1);
        let el = e.len() as int;
        let bp = bprod(own, other, n - 1);
        let lp = leading_prod(own, n);
        let d1 = dim_at(own, n - 1);
        let d2 = dim_at(other, n - 1);
        assert(d1 >= 1 && d2 >= 1) by {
            if n - 1 < own.len() {
                assert(own[own.len() - 1 - (n - 1)] >= 1);
            }
            if n - 1 < other.len() {
                assert(other[other.len() - 1 - (n - 1)] >= 1);
            }
        }
        if n - 1 < own.len() {
            assert(leading_prod(own, n - 1) == d1 * lp);
        } else {
            assert(leading_prod(own, n - 1) == d1 * lp) by (nonlinear_arith)
                requires
                    leading_prod(own, n - 1) == 1,
                    d1 == 1,
                    lp == 1,
            ;
        }
        assert(axes_compatible(own, other, n - 1));
        if d1 == 1 && d2 != 1 {
            assert(bdim(own, other, n - 1) == d2);
            assert(expand_upto(d, own, other, n).len() == el * d2);
            assert(el == bp * (d1 * lp));
            assert(el * d2 == (bp * d2) * lp) by (nonlinear_arith)
                requires
                    el == bp * (d1 * lp),
                    d1 == 1,
            ;
            assert(bp * d2 >= 1) by (nonlinear_arith)
                requires
                    bp >= 1,
                    d2 >= 1,
            ;
        } else {
            assert(bdim(own, other, n - 1) == d1);
            assert(expand_upto(d, own, other, n) == e);
            assert(el == bp * (d1 * lp));
            assert(bp * (d1 * lp) == (bp * d1) * lp) by (nonlinear_arith);
            assert(bp * d1 >= 1) by (nonlinear_arith)
                requires
                    bp >= 1,
                    d1 >= 1,
            ;
        }
    }
}

/// Repeats each `chunk`-sized block of `buf` `rep` times, block after
/// block, leaving the order inside each block as it was.
fn tile_vec<T: Copy>(buf: &Vec<T>, chunk: usize, rep: usize, blocks: usize) -> (out: Vec<T>)
    requires
        chunk >= 1,
        rep >= 1,
        buf@.len() == chunk * blocks,
    ensures
        out@ == tile(buf@, chunk as int, rep as int),
{
    let ghost ci = chunk as int;
    let ghost ri = rep as int;
    let ghost cr = ci * ri;
    // pins the buffer length within the usize range for the index proofs
    let _bl = buf.len();
    proof {
        assert(ci * ri >= 1) by (nonlinear_arith)
            requires
                ci >= 1,
                ri >= 1,
        ;
    }
    let mut out: Vec<T> = Vec::new();
    let mut b: usize = 0;
    while b < blocks
        invariant
            chunk >= 1,
            rep >= 1,
            buf@.len() == chunk * blocks,
            buf@.len() <= usize::MAX,
            ci == chunk as int,
            ri == rep as int,
            cr == ci * ri,
            cr >= 1,
            0 <= b <= blocks,
            out@.len() == b * cr,
            forall|t: int|
                0 <= t < out@.len() ==> #[trigger] out@[t] == buf@[(t / cr) * ci + (t % cr) % ci],
        decreases blocks - b,
    {
        let mut r: usize = 0;
        while r < rep
            invariant
                chunk >= 1,
                rep >= 1,
                buf@.len() == chunk * blocks,
                buf@.len() <= usize::MAX,
                ci == chunk as int,
                ri == rep as int,
                cr == ci * ri,
                cr >= 1,
                0 <= b < blocks,
                0 <= r <= rep,
                out@.len() == b * cr + r * ci,
                forall|t: int|
                    0 <= t < out@.len() ==> #[trigger] out@[t] == buf@[(t / cr) * ci + (t % cr)
                        % ci],
            decreases rep - r,
        {
            let mut c: usize = 0;
            while c < chunk
                invariant
                    chunk >= 1,
                    rep >= 1,
                    buf@.len() == chunk * blocks,
                    buf@.len() <= usize::MAX,
                    ci == chunk as int,
                    ri == rep as int,
                    cr == ci * ri,
                    cr >= 1,
                    0 <= b < blocks,
                    0 <= r < rep,
                    0 <= c <= chunk,
                    out@.len() == b * cr + r * ci + c,
                    forall|t: int|
                        0 <= t < out@.len() ==> #[trigger] out@[t] == buf@[(t / cr) * ci + (t % cr)
                            % ci],
                decreases chunk - c,
            {
                proof {
                    assert((b as int) * ci + c < (blocks as int) * ci) by (nonlinear_arith)
                        requires
                            0 <= b <= (blocks as int) - 1,
                            0 <= c < ci,
                            ci >= 1,
                    ;
                    assert((blocks as int) * ci == ci * (blocks as int)) by (nonlinear_arith);
                    let t0 = (b as int) * cr + (r as int) * ci + c;
                    let off = (r as int) * ci + c;
                    assert(0 <= off && off < cr) by (nonlinear_arith)
                        requires
                            0 <= r <= ri - 1,
                            0 <= c < ci,
                            cr == ci * ri,
                            ci >= 1,
                            ri >= 1,
                            off == (r as int) * ci + c,
                    ;
                    lemma_fundamental_div_mod_converse(t0, cr, b as int, off);
                    lemma_fundamental_div_mod_converse(off, ci, r as int, c as int);
                    assert(t0 / cr == b as int && t0 % cr == off);
                    assert(off % ci == c as int);
                    assert(buf@.len() <= usize::MAX);
                    assert((b as int) * (chunk as int) + (c as int) < buf@.len());
                }
                out.push(buf[b * chunk + c]);
                c += 1;
            }
            proof {
                assert((b as int) * cr + (r as int) * ci + ci == (b as int) * cr + ((r as int) + 1)
                    * ci) by (nonlinear_arith);
            }
            r += 1;
        }
        proof {
            assert((b as int) * cr + (ri) * ci == ((b as int) + 1) * cr) by (nonlinear_arith)
                requires
                    cr == ci * ri,
            ;
        }
        b += 1;
    }
    proof {
        assert((blocks as int) * cr == (buf@.len() * ri) as int) by (nonlinear_arith)
            requires
                buf@.len() == (chunk as int) * (blocks as int),
                cr == (chunk as int) * ri,
        ;
        assert(out@ =~= tile(buf@, chunk as int, rep as int));
    }
    out
}

impl<T: Copy> Tensor<T> {
    /// Applies `op` elementwise to two tensors of possibly different shapes
    /// under NumPy-style broadcasting: shapes are aligned from the trailing
    /// axis, missing leading axes count as extent 1, and an axis of extent 1
    /// is tiled up to the other operand's extent.  The result's shape is the
    /// elementwise maximum of the aligned extents, and its element at flat
    /// position `k` is `op` of the two expanded buffers' elements there.
    ///
    /// Fails with `BroadcastError` exactly when some aligned axis pair is
    /// incompatible; the error carries the innermost such position and the
    /// two extents.
    pub fn elemwise_with_broadcast<F: Fn(T, T) -> T>(&self, other: &Tensor<T>, op: F) -> (r:
        Result<Tensor<T>, TensorError>)
        requires
            self.wf(),
            other.wf(),
            forall|x: T, y: T| #[trigger] call_requires(op, (x, y)),
        ensures
            r is Ok <==> broadcast_compatible(self.shape@, other.shape@),
            match r {
                Ok(t) => ({
                    let ea = expanded(self.data@, self.shape@, other.shape@);
                    let eb = expanded(other.data@, other.shape@, self.shape@);
                    t.wf() && t.shape@ == broadcast_shape(self.shape@, other.shape@)
                        && ea.len() == eb.len() && t.data@.len() == ea.len() && forall|k: int|
                        0 <= k < ea.len() ==> call_ensures(op, (ea[k], eb[k]), #[trigger] t.data@[k])
                }),
                Err(e) => ({
                    &&& e matches TensorError::BroadcastError { axis, dim1, dim2 }
                    &&& !axes_compatible(self.shape@, other.shape@, axis as int)
                    &&& forall|i: int|
                        0 <= i < axis ==> #[trigger] axes_compatible(self.shape@, other.shape@, i)
                    &&& dim1 as int == dim_at(self.shape@, axis as int)
                    &&& dim2 as int == dim_at(other.shape@, axis as int)
                }),
            },
    {
        let ghost s1 = self.shape@;
        let ghost s2 = other.shape@;
        let len1 = self.shape.len();
        let len2 = other.shape.len();
        // pin both data lengths within the usize range for the invariants
        let _dl1 = self.data.len();
        let _dl2 = other.data.len();
        let max_len = if len1 >= len2 {
            len1
        } else {
            len2
        };
        let mut result_shape: Vec<usize> = Vec::new();
        let mut rem1 = self.data.len();
        let mut rem2 = other.data.len();
        proof {
            lemma_prod_split(s1, 0);
            lemma_prod_split(s2, 0);
            assert(trailing_prod(s1, 0) == 1);
            assert(trailing_prod(s2, 0) == 1);
            assert(1int * leading_prod(s1, 0) == leading_prod(s1, 0)) by (nonlinear_arith);
            assert(1int * leading_prod(s2, 0) == leading_prod(s2, 0)) by (nonlinear_arith);
            lemma_prod_pos(s1);
            lemma_prod_pos(s2);
        }
        let mut e1 = copy_vec(&self.data);
        let mut e2 = copy_vec(&other.data);
        let mut i: usize = 0;
        while i < max_len
            invariant
                s1 == self.shape@,
                s2 == other.shape@,
                self.wf(),
                other.wf(),
                forall|x: T, y: T| #[trigger] call_requires(op, (x, y)),
                len1 == s1.len(),
                len2 == s2.len(),
                self.data@.len() <= usize::MAX,
                other.data@.len() <= usize::MAX,
                max_len as int == max_rank(s1, s2),
                0 <= i <= max_len,
                forall|j: int| 0 <= j < i ==> #[trigger] axes_compatible(s1, s2, j),
                rem1 as int == leading_prod(s1, i as int),
                rem2 as int == leading_prod(s2, i as int),
                1 <= rem1,
                1 <= rem2,
                e1@ == expand_upto(self.data@, s1, s2, i as int),
                e2@ == expand_upto(other.data@, s2, s1, i as int),
                result_shape@.len() == i,
                forall|j: int|
                    0 <= j < i ==> (#[trigger] result_shape@[j]) as int == bdim(
                        s1,
                        s2,
                        (i as int) - 1 - j,
                    ),
            decreases max_len - i,
        {
            let dim1 = if i < len1 {
                self.shape[len1 - 1 - i]
            } else {
                1
            };
            let dim2 = if i < len2 {
                other.shape[len2 - 1 - i]
            } else {
                1
            };
            proof {
                assert(dim1 as int == dim_at(s1, i as int));
                assert(dim2 as int == dim_at(s2, i as int));
            }
            if !(dim1 == dim2 || dim1 == 1 || dim2 == 1) {
                proof {
                    assert(!axes_compatible(s1, s2, i as int));
                }
                return Err(TensorError::BroadcastError { axis: i, dim1, dim2 });
            }
            let big = if dim1 >= dim2 {
                dim1
            } else {
                dim2
            };
            let ghost prev_shape = result_shape@;
            result_shape.insert(0, big);
            proof {
                assert(result_shape@ == prev_shape.insert(0, big as usize));
                assert forall|j: int| 0 <= j < i as int + 1 implies (#[trigger] result_shape@[j])
                    as int == bdim(s1, s2, (i as int) - j) by {
                    if j > 0 {
                        assert(result_shape@[j] == prev_shape[j - 1]);
                    }
                }
            }
            if dim1 == 1 && dim2 != 1 {
                proof {
                    lemma_expand_invariants(self.data@, s1, s2, i as int);
                    assert(dim_at(s2, i as int) >= 1) by {
                        if (i as int) < s2.len() {
                            assert(s2[s2.len() - 1 - (i as int)] >= 1);
                        }
                    }
                    assert(e1@.len() as int == bprod(s1, s2, i as int) * (rem1 as int));
                    lemma_fundamental_div_mod_converse(
                        e1@.len() as int,
                        rem1 as int,
                        bprod(s1, s2, i as int),
                        0,
                    );
                }
                let chunk1 = e1.len() / rem1;
                e1 = tile_vec(&e1, chunk1, dim2, rem1);
                proof {
                    assert(e1@ == expand_step(
                        expand_upto(self.data@, s1, s2, i as int),
                        s1,
                        s2,
                        i as int,
                    ));
                    assert(e1@ == expand_upto(self.data@, s1, s2, i as int + 1));
                }
            } else {
                proof {
                    assert(expand_step(
                        expand_upto(self.data@, s1, s2, i as int),
                        s1,
                        s2,
                        i as int,
                    ) == expand_upto(self.data@, s1, s2, i as int));
                    assert(e1@ == expand_upto(self.data@, s1, s2, i as int + 1));
                }
            }
            if dim2 == 1 && dim1 != 1 {
                proof {
                    assert forall|j: int| 0 <= j < i as int implies #[trigger] axes_compatible(
                        s2,
                        s1,
                        j,
                    ) by {
                        assert(axes_compatible(s1, s2, j));
                    }
                    lemma_expand_invariants(other.data@, s2, s1, i as int);
                    lemma_bprod_sym(s1, s2, i as int);
                    assert(dim_at(s1, i as int) >= 1) by {
                        if (i as int) < s1.len() {
                            assert(s1[s1.len() - 1 - (i as int)] >= 1);
                        }
                    }
                    assert(e2@.len() as int == bprod(s2, s1, i as int) * (rem2 as int));
                    lemma_fundamental_div_mod_converse(
                        e2@.len() as int,
                        rem2 as int,
                        bprod(s2, s1, i as int),
                        0,
                    );
                }
                let chunk2 = e2.len() / rem2;
                e2 = tile_vec(&e2, chunk2, dim1, rem2);
                proof {
                    assert(e2@ == expand_step(
                        expand_upto(other.data@, s2, s1, i as int),
                        s2,
                        s1,
                        i as int,
                    ));
                    assert(e2@ == expand_upto(other.data@, s2, s1, i as int + 1));
                }
            } else {
                proof {
                    assert(expand_step(
                        expand_upto(other.data@, s2, s1, i as int),
                        s2,
                        s1,
                        i as int,
                    ) == expand_upto(other.data@, s2, s1, i as int));
                    assert(e2@ == expand_upto(other.data@, s2, s1, i as int + 1));
                }
            }
            proof {
                lemma_leading_prod_pos(s1, i as int + 1);
                lemma_leading_prod_pos(s2, i as int + 1);
                let l1n = leading_prod(s1, i as int + 1);
                let l2n = leading_prod(s2, i as int + 1);
                assert(dim_at(s1, i as int) >= 1) by {
                    if (i as int) < s1.len() {
                        assert(s1[s1.len() - 1 - (i as int)] >= 1);
                    }
                }
                assert(dim_at(s2, i as int) >= 1) by {
                    if (i as int) < s2.len() {
                        assert(s2[s2.len() - 1 - (i as int)] >= 1);
                    }
                }
                if (i as int) < s1.len() {
                    assert(leading_prod(s1, i as int) == dim_at(s1, i as int) * l1n);
                    assert(dim_at(s1, i as int) * l1n == l1n * dim_at(s1, i as int))
                        by (nonlinear_arith);
                } else {
                    assert(leading_prod(s1, i as int) == l1n * dim_at(s1, i as int))
                        by (nonlinear_arith)
                        requires
                            leading_prod(s1, i as int) == 1,
                            l1n == 1,
                            dim_at(s1, i as int) == 1,
                    ;
                }
                if (i as int) < s2.len() {
                    assert(leading_prod(s2, i as int) == dim_at(s2, i as int) * l2n);
                    assert(dim_at(s2, i as int) * l2n == l2n * dim_at(s2, i as int))
                        by (nonlinear_arith);
                } else {
                    assert(leading_prod(s2, i as int) == l2n * dim_at(s2, i as int))
                        by (nonlinear_arith)
                        requires
                            leading_prod(s2, i as int) == 1,
                            l2n == 1,
                            dim_at(s2, i as int) == 1,
                    ;
                }
                lemma_fundamental_div_mod_converse(rem1 as int, dim1 as int, l1n, 0);
                lemma_fundamental_div_mod_converse(rem2 as int, dim2 as int, l2n, 0);
            }
            rem1 = rem1 / dim1;
            rem2 = rem2 / dim2;
            i += 1;
        }
        proof {
            lemma_expand_invariants(self.data@, s1, s2, max_len as int);
            assert forall|j: int| 0 <= j < max_len as int implies #[trigger] axes_compatible(
                s2,
                s1,
                j,
            ) by {
                assert(axes_compatible(s1, s2, j));
            }
            lemma_expand_invariants(other.data@, s2, s1, max_len as int);
            lemma_bprod_sym(s1, s2, max_len as int);
            assert(leading_prod(s1, max_len as int) == 1);
            assert(leading_prod(s2, max_len as int) == 1);
            assert(e1@.len() as int == bprod(s1, s2, max_len as int) * 1);
            assert(e2@.len() as int == bprod(s2, s1, max_len as int) * 1);
            assert(result_shape@ =~= broadcast_shape(s1, s2)) by {
                assert forall|j: int| 0 <= j < max_len as int implies result_shape@[j]
                    == broadcast_shape(s1, s2)[j] by {
                    assert(result_shape@[j] as int == bdim(s1, s2, (max_len as int) - 1 - j));
                    assert(0 <= bdim(s1, s2, (max_len as int) - 1 - j) <= usize::MAX);
                }
            }
            lemma_bshape_trailing(s1, s2, max_len as int);
            assert(prod(result_shape@) == bprod(s1, s2, max_len as int));
            assert forall|j: int| 0 <= j < result_shape@.len() implies (#[trigger] result_shape@[j])
                >= 1 by {
                let t = (max_len as int) - 1 - j;
                assert(result_shape@[j] as int == bdim(s1, s2, t));
                if 0 <= t < s1.len() {
                    assert(s1[s1.len() - 1 - t] >= 1);
                }
                if 0 <= t < s2.len() {
                    assert(s2[s2.len() - 1 - t] >= 1);
                }
            }
        }
        let data = zip_elems(&e1, &e2, op);
        Ok(Tensor { shape: result_shape, data })
    }
}

/// Broadcast shape rules are symmetric in their operands: compatibility
/// does not depend on the order, and the agreed shape is the same from
/// either side — per trailing-aligned axis the larger of the two extents.
pub proof fn lemma_broadcast_shape_symmetric(s1: Seq<usize>, s2: Seq<usize>)
    ensures
        broadcast_compatible(s1, s2) <==> broadcast_compatible(s2, s1),
        broadcast_shape(s1, s2) == broadcast_shape(s2, s1),
        broadcast_shape(s1, s2).len() == max_rank(s1, s2),
        forall|j: int|
            0 <= j < max_rank(s1, s2) ==> (#[trigger] broadcast_shape(s1, s2)[j]) as int == bdim(
                s1,
                s2,
                max_rank(s1, s2) - 1 - j,
            ),
{
    assert forall|i: int| 0 <= i < max_rank(s2, s1) && broadcast_compatible(s1, s2) implies
        #[trigger] axes_compatible(s2, s1, i) by {
        assert(axes_compatible(s1, s2, i));
    }
    assert forall|i: int| 0 <= i < max_rank(s1, s2) && broadcast_compatible(s2, s1) implies
        #[trigger] axes_compatible(s1, s2, i) by {
        assert(axes_compatible(s2, s1, i));
    }
    assert forall|j: int| 0 <= j < max_rank(s1, s2) implies (#[trigger] broadcast_shape(s1, s2)[j])
        as int == bdim(s1, s2, max_rank(s1, s2) - 1 - j) by {
        assert(0 <= bdim(s1, s2, max_rank(s1, s2) - 1 - j) <= usize::MAX);
    }
    assert(broadcast_shape(s1, s2) =~= broadcast_shape(s2, s1)) by {
        assert forall|j: int| 0 <= j < max_rank(s1, s2) implies broadcast_shape(s1, s2)[j]
            == broadcast_shape(s2, s1)[j] by {
            assert(bdim(s1, s2, max_rank(s1, s2) - 1 - j) == bdim(
                s2,
                s1,
                max_rank(s2, s1) - 1 - j,
            ));
        }
    }
}

/// The flat offset into `own`'s buffer that broadcasting reads for the
/// result position whose remainder over the trailing `n` axes is `r`: the
/// result's trailing coordinates, with the coordinate forced to 0 on every
/// axis where `own` has extent 1, re-linearised with `own`'s row-major
/// strides.
pub open spec fn source_index(own: Seq<usize>, other: Seq<usize>, r: int, n: int) -> int
    decreases n,
{
    if n <= 0 {
        0
    } else {
        let rq = r / bprod(own, other, n - 1);
        let rr = r % bprod(own, other, n - 1);
        source_index(own, other, rr, n - 1) + (if dim_at(own, n - 1) == 1 {
            0int
        } else {
            rq
        }) * trailing_prod(own, n - 1)
    }
}

/// The flat tiling agrees with explicit multi-index broadcasting: inside
/// each still-unexpanded leading block (index `q`), the expanded buffer's
/// element at trailing remainder `r` is the source element at the clipped
/// multi-index of `r`.
pub proof fn lemma_expanded_multi_index<T>(
    d: Seq<T>,
    own: Seq<usize>,
    other: Seq<usize>,
    n: int,
    q: int,
    r: int,
)
    requires
        all_positive(own),
        all_positive(other),
        d.len() == prod(own),
        0 <= n,
        forall|i: int| 0 <= i < n ==> #[trigger] axes_compatible(own, other, i),
        0 <= q < leading_prod(own, n),
        0 <= r < bprod(own, other, n),
    ensures
        0 <= source_index(own, other, r, n) < trailing_prod(own, n),
        expand_upto(d, own, other, n)[q * bprod(own, other, n) + r] == d[q * trailing_prod(own, n)
            + source_index(own, other, r, n)],
    decreases n,
{
    if n == 0 {
        assert(bprod(own, other, 0) == 1);
        assert(trailing_prod(own, 0) == 1);
        assert(r == 0);
        assert(q * bprod(own, other, 0) == q * trailing_prod(own, 0));
    } else {
        lemma_expand_invariants(d, own, other, n - 1);
        let bp1 = bprod(own, other, n - 1);
        let bd = bdim(own, other, n - 1);
        let tp1 = trailing_prod(own, n - 1);
        let lpn = leading_prod(own, n);
        let d1 = dim_at(own, n - 1);
        let d2 = dim_at(other, n - 1);
        let e = expand_upto(d, own, other, n - 1);
        lemma_trailing_prod_pos(own, n - 1);
        lemma_leading_prod_pos(own, n);
        assert(d1 >= 1 && d2 >= 1) by {
            if n - 1 < own.len() {
                assert(own[own.len() - 1 - (n - 1)] >= 1);
            }
            if n - 1 < other.len() {
                assert(other[other.len() - 1 - (n - 1)] >= 1);
            }
        }
        if n - 1 < own.len() {
            assert(leading_prod(own, n - 1) == d1 * lpn);
        } else {
            assert(leading_prod(own, n - 1) == d1 * lpn) by (nonlinear_arith)
                requires
                    leading_prod(own, n - 1) == 1,
                    d1 == 1,
                    lpn == 1,
            ;
        }
        assert(bprod(own, other, n) == bp1 * bd);
        assert(trailing_prod(own, n) == tp1 * d1);
        assert(axes_compatible(own, other, n - 1));
        let rq = r / bp1;
        let rr = r % bp1;
        lemma_fundamental_div_mod(r, bp1);
        lemma_mod_division_less_than_divisor(r, bp1);
        lemma_div_pos_is_pos(r, bp1);
        lemma_multiply_divide_lt(r, bp1, bd);
        if d1 == 1 && d2 != 1 {
            assert(bd == d2);
            assert(expand_upto(d, own, other, n) == tile(e, bp1, d2));
            let k = q * bprod(own, other, n) + r;
            lemma_fundamental_div_mod_converse(k, bprod(own, other, n), q, r);
            assert(bp1 * d2 == bprod(own, other, n));
            assert(e.len() as int == bp1 * (d1 * lpn));
            assert(k < e.len() * d2 && 0 <= k) by (nonlinear_arith)
                requires
                    k == q * (bp1 * d2) + r,
                    0 <= q <= lpn - 1,
                    0 <= r < bp1 * d2,
                    e.len() as int == bp1 * (d1 * lpn),
                    d1 == 1,
                    bp1 >= 1,
                    d2 >= 1,
                    lpn >= 1,
            ;
            assert(tile(e, bp1, d2)[k] == e[(k / (bp1 * d2)) * bp1 + (k % (bp1 * d2)) % bp1]);
            assert(k / (bp1 * d2) == q && k % (bp1 * d2) == r);
            assert(tile(e, bp1, d2)[k] == e[q * bp1 + rr]);
            assert(q < leading_prod(own, n - 1)) by (nonlinear_arith)
                requires
                    q < lpn,
                    leading_prod(own, n - 1) == d1 * lpn,
                    d1 == 1,
            ;
            lemma_expanded_multi_index(d, own, other, n - 1, q, rr);
            assert(trailing_prod(own, n) == tp1) by (nonlinear_arith)
                requires
                    trailing_prod(own, n) == tp1 * d1,
                    d1 == 1,
            ;
            assert((0int) * tp1 == 0) by (nonlinear_arith);
            assert(source_index(own, other, r, n) == source_index(own, other, rr, n - 1));
            assert(q * trailing_prod(own, n) == q * tp1);
        } else {
            assert(bd == d1);
            assert(expand_upto(d, own, other, n) == e);
            let q2 = q * d1 + rq;
            assert(0 <= q2 && q2 < leading_prod(own, n - 1)) by (nonlinear_arith)
                requires
                    q2 == q * d1 + rq,
                    0 <= q <= lpn - 1,
                    0 <= rq <= d1 - 1,
                    d1 >= 1,
                    lpn >= 1,
                    leading_prod(own, n - 1) == d1 * lpn,
            ;
            lemma_expanded_multi_index(d, own, other, n - 1, q2, rr);
            assert(q * bprod(own, other, n) + r == q2 * bp1 + rr) by (nonlinear_arith)
                requires
                    bprod(own, other, n) == bp1 * bd,
                    bd == d1,
                    r == bp1 * rq + rr,
                    q2 == q * d1 + rq,
            ;
            if d1 == 1 {
                assert(rq == 0);
                assert((0int) * tp1 == 0) by (nonlinear_arith);
            }
            assert(source_index(own, other, r, n) == source_index(own, other, rr, n - 1) + rq
                * tp1);
            assert(q2 * tp1 + source_index(own, other, rr, n - 1) == q * trailing_prod(own, n)
                + source_index(own, other, r, n)) by (nonlinear_arith)
                requires
                    q2 == q * d1 + rq,
                    trailing_prod(own, n) == tp1 * d1,
                    source_index(own, other, r, n) == source_index(own, other, rr, n - 1) + rq
                        * tp1,
            ;
            assert(0 <= source_index(own, other, r, n) < trailing_prod(own, n))
                by (nonlinear_arith)
                requires
                    0 <= source_index(own, other, rr, n - 1) < tp1,
                    0 <= rq <= d1 - 1,
                    source_index(own, other, r, n) == source_index(own, other, rr, n - 1) + rq
                        * tp1,
                    trailing_prod(own, n) == tp1 * d1,
                    tp1 >= 1,
                    d1 >= 1,
            ;
        }
    }
}

/// At full rank the correspondence reads: element `k` of the expanded
/// buffer is the source element at the clipped multi-index of result
/// position `k`.
pub proof fn lemma_expanded_reads_clipped_index<T>(
    d: Seq<T>,
    own: Seq<usize>,
    other: Seq<usize>,
    k: int,
)
    requires
        all_positive(own),
        all_positive(other),
        d.len() == prod(own),
        broadcast_compatible(own, other),
        0 <= k < prod(broadcast_shape(own, other)),
    ensures
        0 <= source_index(own, other, k, max_rank(own, other)) < d.len(),
        expanded(d, own, other)[k] == d[source_index(own, other, k, max_rank(own, other))],
{
    let n = max_rank(own, other);
    lemma_bshape_trailing(own, other, n);
    assert(broadcast_shape(own, other).len() == n);
    assert(prod(broadcast_shape(own, other)) == bprod(own, other, n));
    assert(leading_prod(own, n) == 1);
    lemma_expanded_multi_index(d, own, other, n, 0, k);
    assert((0int) * bprod(own, other, n) == 0) by (nonlinear_arith);
    assert((0int) * trailing_prod(own, n) == 0) by (nonlinear_arith);
    lemma_trailing_prod_beyond(own, n);
}

/// An operand that never presents extent 1 against a larger extent is not
/// tiled at all: its buffer passes through the expansion unchanged.  In
/// particular, whenever the other operand's shape is dominated axis by
/// axis, `elemwise_with_broadcast` combines this operand's elements in
/// place, in their original order.
pub proof fn lemma_expand_identity<T>(d: Seq<T>, own: Seq<usize>, other: Seq<usize>, n: int)
    requires
        forall|i: int|
            0 <= i < n ==> (#[trigger] dim_at(own, i)) != 1 || dim_at(other, i) == 1,
    ensures
        expand_upto(d, own, other, n) == d,
    decreases n,
{
    if n > 0 {
        lemma_expand_identity(d, own, other, n - 1);
        assert(dim_at(own, n - 1) != 1 || dim_at(other, n - 1) == 1);
    }
}

/// Scalar broadcast: a one-element tensor of shape `[1]` broadcast against
/// shape `[n]` expands to `n` copies of its single element, while the other
/// operand's buffer stays exactly as it is and the agreed shape is `[n]`.
/// Together with `elemwise_with_broadcast`'s contract, every element of the
/// combined result is `op` applied to the scalar and the matching element
/// of the other operand.
pub proof fn lemma_scalar_broadcast<T>(d1: Seq<T>, d2: Seq<T>, n: usize)
    requires
        d1.len() == 1,
        d2.len() == n,
        n >= 1,
    ensures
        broadcast_compatible(seq![1usize], seq![n]),
        broadcast_shape(seq![1usize], seq![n]) == seq![n],
        expanded(d1, seq![1usize], seq![n]) == Seq::new(n as nat, |i: int| d1[0]),
        expanded(d2, seq![n], seq![1usize]) == d2,
{
    let s1 = seq![1usize];
    let s2 = seq![n];
    assert(s1.len() == 1 && s2.len() == 1);
    assert(max_rank(s1, s2) == 1);
    assert(dim_at(s1, 0) == 1);
    assert(dim_at(s2, 0) == n);
    assert forall|i: int| 0 <= i < 1 implies #[trigger] axes_compatible(s1, s2, i) by {
        assert(dim_at(s1, 0) == 1);
    }
    assert(broadcast_shape(s1, s2) =~= seq![n]);
    assert(expand_upto(d1, s1, s2, 0) == d1);
    assert(expand_upto(d2, s2, s1, 0) == d2);
    assert(bprod(s1, s2, 0) == 1);
    if n == 1 {
        assert(expand_upto(d1, s1, s2, 1) == d1);
        assert(d1 =~= Seq::new(1 as nat, |i: int| d1[0]));
    } else {
        let ni = n as int;
        assert(expand_upto(d1, s1, s2, 1) == tile(d1, 1, ni));
        let t = tile(d1, 1, ni);
        assert(t.len() == ni);
        assert forall|k: int| 0 <= k < ni implies t[k] == d1[0] by {
            assert(1 * ni == ni);
            lemma_basic_div(k, ni);
            lemma_small_mod(k as nat, n as nat);
            assert(k % ni == k);
            lemma_fundamental_div_mod_converse(k, 1, k, 0);
            assert((k / ni) * 1 + (k % ni) % 1 == 0);
        }
        assert(t =~= Seq::new(n as nat, |i: int| d1[0]));
    }
    assert(expand_upto(d2, s2, s1, 1) == expand_step(d2, s2, s1, 0));
    assert(dim_at(s2, 0) == n && dim_at(s1, 0) == 1);
    assert(expand_step(d2, s2, s1, 0) == d2);
}

} // verus!
