//! The `Tensor` type: an owning, flat-buffer-backed N-dimensional array,
//! generic over its element type.  Element arithmetic is supplied by the
//! caller as closures, so the structural contracts here hold for any element
//! type, including floating point elements chosen by an unverified caller.

use vstd::prelude::*;

use crate::shape::{
    all_positive, count_zeros, nonzero_prod, prod, zero_index, lemma_all_positive_skip,
    lemma_prod_pos, lemma_prod_cons, lemma_nonzero_prod_pos, lemma_count_zeros_nonneg,
    lemma_zero_index_first, lemma_single_zero, lemma_update_zero_prod, lemma_no_zeros_prod,
    lemma_all_positive_count,
};
use crate::shape::lemma_prod_pair;
use vstd::arithmetic::div_mod::{lemma_basic_div, lemma_fundamental_div_mod};

verus! {

/// Why a tensor operation was refused.
#[derive(Clone, Copy, Debug, PartialEq, Eq, Structural)]
pub enum TensorError {
    /// A zero axis extent where none is allowed, or more than one placeholder.
    InvalidShape,
    /// A data length that does not match the shape's product, or unequal
    /// shapes handed to `matadd` / `matsub`.
    ShapeMismatch,
    /// Two axis extents that cannot be broadcast together; `axis` counts from
    /// the trailing (innermost) end, and `dim1` / `dim2` are the extents the
    /// two operands present there.
    BroadcastError { axis: usize, dim1: usize, dim2: usize },
    /// A `matmul` operand that is not a 2-D matrix.
    RankError,
    /// `matmul` operands whose inner dimensions differ.
    DimensionMismatch,
}

/// An N-dimensional array: `shape` lists the axis extents, axis 0 outermost,
/// and `data` holds the elements flat in row-major (C) order.
#[derive(Debug)]
pub struct Tensor<T> {
    pub shape: Vec<usize>,
    pub data: Vec<T>,
}

impl<T: Copy> Tensor<T> {
    /// The construction invariant: every axis extent is positive and the
    /// flat buffer holds exactly `prod(shape)` elements.
    pub open spec fn wf(self) -> bool {
        &&& self.data@.len() == prod(self.shape@)
        &&& all_positive(self.shape@)
    }
}

/// What `Tensor::from_data` makes of a shape handed to it together with
/// `len` elements of data: the stored shape, or the error.  At most one
/// extent may be 0; that placeholder is replaced by `len` divided by the
/// product of the other extents; the resolved shape must describe exactly
/// `len` elements, all of its extents positive.
pub open spec fn resolve_shape(s: Seq<usize>, len: int) -> Result<Seq<usize>, TensorError> {
    if count_zeros(s) > 1 {
        Err(TensorError::InvalidShape)
    } else {
        let s2 = if count_zeros(s) == 1 {
            s.update(zero_index(s), (len / nonzero_prod(s)) as usize)
        } else {
            s
        };
        if prod(s2) != len {
            Err(TensorError::ShapeMismatch)
        } else if !all_positive(s2) {
            Err(TensorError::InvalidShape)
        } else {
            Ok(s2)
        }
    }
}

/// Product of an all-positive shape's extents, computed leading to trailing.
pub(crate) fn positive_prod(shape: &Vec<usize>) -> (p: usize)
    requires
        all_positive(shape@),
        prod(shape@) <= usize::MAX,
    ensures
        p as int == prod(shape@),
{
    let mut acc: usize = 1;
    let mut j: usize = 0;
    proof {
        assert(shape@.skip(0) =~= shape@);
    }
    while j < shape.len()
        invariant
            all_positive(shape@),
            prod(shape@) <= usize::MAX,
            0 <= j <= shape@.len(),
            acc >= 1,
            prod(shape@) == acc * prod(shape@.skip(j as int)),
        decreases shape@.len() - j,
    {
        proof {
            let rest = shape@.skip(j as int);
            let rest2 = shape@.skip(j as int + 1);
            lemma_all_positive_skip(shape@, j as int);
            lemma_all_positive_skip(shape@, j as int + 1);
            lemma_prod_cons(rest);
            assert(rest.skip(1) =~= rest2);
            assert(rest[0] == shape@[j as int]);
            lemma_prod_pos(rest2);
            let a = acc as int;
            let d = shape@[j as int] as int;
            let r2 = prod(rest2);
            assert(prod(shape@) == a * (d * r2));
            assert(a * (d * r2) == (a * d) * r2) by (nonlinear_arith);
            assert(a * d >= 1 && (a * d) * r2 >= a * d) by (nonlinear_arith)
                requires
                    a >= 1,
                    d >= 1,
                    r2 >= 1,
            ;
        }
        acc = acc * shape[j];
        j += 1;
    }
    proof {
        assert(shape@.skip(shape@.len() as int) =~= Seq::<usize>::empty());
    }
    acc
}

impl<T: Copy> Tensor<T> {
    /// A tensor of the given shape with every element set to `fill`.
    ///
    /// Fails with `InvalidShape` exactly when some axis extent is 0.
    pub fn new(shape: Vec<usize>, fill: T) -> (r: Result<Tensor<T>, TensorError>)
        requires
            prod(shape@) <= usize::MAX,
        ensures
            match r {
                Ok(t) => all_positive(shape@) && t.wf() && t.shape@ == shape@ && t.data@
                    == Seq::new(prod(shape@) as nat, |k: int| fill),
                Err(e) => !all_positive(shape@) && e == TensorError::InvalidShape,
            },
    {
        let mut j: usize = 0;
        while j < shape.len()
            invariant
                0 <= j <= shape@.len(),
                forall|m: int| 0 <= m < j ==> (#[trigger] shape@[m]) >= 1,
            decreases shape@.len() - j,
        {
            if shape[j] == 0 {
                return Err(TensorError::InvalidShape);
            }
            j += 1;
        }
        let total = positive_prod(&shape);
        let mut data: Vec<T> = Vec::new();
        let mut c: usize = 0;
        while c < total
            invariant
                data@.len() == c,
                0 <= c <= total,
                forall|m: int| 0 <= m < c ==> data@[m] == fill,
            decreases total - c,
        {
            data.push(fill);
            c += 1;
        }
        proof {
            assert(data@ =~= Seq::new(prod(shape@) as nat, |k: int| fill));
        }
        Ok(Tensor { shape, data })
    }

    /// A tensor owning the given shape and data.
    ///
    /// At most one extent of `shape` may be 0: such a placeholder is
    /// inferred as `data.len()` divided by the product of the remaining
    /// extents.  Fails with `InvalidShape` on more than one placeholder or
    /// when a zero extent would remain, and with `ShapeMismatch` when the
    /// resolved shape does not describe exactly `data.len()` elements.
    pub fn from_data(shape: Vec<usize>, data: Vec<T>) -> (r: Result<Tensor<T>, TensorError>)
        ensures
            match r {
                Ok(t) => resolve_shape(shape@, data@.len() as int) == Ok::<
                    Seq<usize>,
                    TensorError,
                >(t.shape@) && t.data@ == data@ && t.wf(),
                Err(e) => resolve_shape(shape@, data@.len() as int) == Err::<
                    Seq<usize>,
                    TensorError,
                >(e),
            },
    {
        let ghost s = shape@;
        // pins the data length within the usize range for the proofs below
        let _dlen = data.len();
        let mut zc: usize = 0;
        let mut zidx: usize = 0;
        let mut acc: usize = 1;
        let mut ovf: bool = false;
        let mut j: usize = 0;
        proof {
            assert(s.skip(0) =~= s);
        }
        while j < shape.len()
            invariant
                s == shape@,
                0 <= j <= s.len(),
                zc <= j,
                count_zeros(s) == zc + count_zeros(s.skip(j as int)),
                zc >= 1 ==> zidx < j && s[zidx as int] == 0 && forall|m: int|
                    0 <= m < zidx ==> (#[trigger] s[m]) != 0,
                zc == 0 ==> forall|m: int| 0 <= m < j ==> (#[trigger] s[m]) != 0,
                !ovf ==> acc >= 1 && nonzero_prod(s) == acc * nonzero_prod(s.skip(j as int)),
                ovf ==> nonzero_prod(s) > usize::MAX,
            decreases s.len() - j,
        {
            proof {
                let rest = s.skip(j as int);
                let rest2 = s.skip(j as int + 1);
                assert(rest.skip(1) =~= rest2);
                assert(rest[0] == s[j as int]);
                lemma_nonzero_prod_pos(rest2);
                lemma_count_zeros_nonneg(rest2);
                assert(count_zeros(rest) == (if rest[0] == 0 {
                    1int
                } else {
                    0int
                }) + count_zeros(rest2));
                assert(nonzero_prod(rest) == (if rest[0] == 0 {
                    1int
                } else {
                    rest[0] as int
                }) * nonzero_prod(rest2));
                if rest[0] == 0 {
                    assert(1int * nonzero_prod(rest2) == nonzero_prod(rest2))
                        by (nonlinear_arith);
                }
            }
            let d = shape[j];
            if d == 0 {
                if zc == 0 {
                    zidx = j;
                }
                zc = zc + 1;
            } else {
                if !ovf {
                    let q = usize::MAX / d;
                    proof {
                        lemma_fundamental_div_mod(usize::MAX as int, d as int);
                    }
                    if acc > q {
                        ovf = true;
                        proof {
                            let a = acc as int;
                            let di = d as int;
                            let qi = q as int;
                            let np2 = nonzero_prod(s.skip(j as int + 1));
                            assert(a * di >= (qi + 1) * di) by (nonlinear_arith)
                                requires
                                    a >= qi + 1,
                                    di >= 1,
                            ;
                            assert((qi + 1) * di == qi * di + di) by (nonlinear_arith);
                            assert(di * qi + usize::MAX as int % di == usize::MAX as int);
                            assert(di * qi == qi * di) by (nonlinear_arith);
                            assert(a * di > usize::MAX);
                            assert(nonzero_prod(s) == a * (di * np2));
                            assert(a * (di * np2) == (a * di) * np2) by (nonlinear_arith);
                            assert((a * di) * np2 >= a * di) by (nonlinear_arith)
                                requires
                                    a * di >= 1,
                                    np2 >= 1,
                            ;
                        }
                    } else {
                        proof {
                            let a = acc as int;
                            let di = d as int;
                            let qi = q as int;
                            assert(a * di <= qi * di) by (nonlinear_arith)
                                requires
                                    0 <= a <= qi,
                                    di >= 1,
                            ;
                            assert(di * qi == qi * di) by (nonlinear_arith);
                            assert(di * qi + usize::MAX as int % di == usize::MAX as int);
                            assert(usize::MAX as int % di >= 0);
                            let np2 = nonzero_prod(s.skip(j as int + 1));
                            assert(nonzero_prod(s) == a * (di * np2));
                            assert(a * (di * np2) == (a * di) * np2) by (nonlinear_arith);
                            assert(a * di >= 1) by (nonlinear_arith)
                                requires
                                    a >= 1,
                                    di >= 1,
                            ;
                        }
                        acc = acc * d;
                    }
                }
            }
            j += 1;
        }
        proof {
            assert(s.skip(s.len() as int) =~= Seq::<usize>::empty());
        }
        if zc > 1 {
            return Err(TensorError::InvalidShape);
        }
        if zc == 1 {
            proof {
                lemma_zero_index_first(s, zidx as int);
                lemma_single_zero(s);
                lemma_nonzero_prod_pos(s);
            }
            if ovf {
                proof {
                    lemma_basic_div(data@.len() as int, nonzero_prod(s));
                    lemma_update_zero_prod(s, 0usize);
                    assert(nonzero_prod(s) * 0 == 0) by (nonlinear_arith);
                    assert(s.update(zero_index(s), 0usize)[zero_index(s)] == 0);
                }
                if data.len() == 0 {
                    return Err(TensorError::InvalidShape);
                } else {
                    return Err(TensorError::ShapeMismatch);
                }
            }
            let known = acc;
            let inferred = data.len() / known;
            proof {
                lemma_fundamental_div_mod(data@.len() as int, known as int);
                let ki = known as int;
                let vi = inferred as int;
                assert(data@.len() as int == ki * vi + data@.len() as int % ki);
                assert(data@.len() as int % ki >= 0);
                assert(ki * vi == vi * ki) by (nonlinear_arith);
                lemma_update_zero_prod(s, inferred);
                assert(prod(s.update(zero_index(s), inferred)) == ki * vi);
            }
            let prodv = known * inferred;
            if prodv != data.len() {
                return Err(TensorError::ShapeMismatch);
            }
            if inferred == 0 {
                proof {
                    assert(s.update(zero_index(s), inferred)[zero_index(s)] == 0);
                }
                return Err(TensorError::InvalidShape);
            }
            let ghost s2 = s.update(zero_index(s), inferred);
            let mut shape2 = shape;
            shape2.set(zidx, inferred);
            proof {
                assert(shape2@ == s2);
                assert forall|i: int| 0 <= i < s2.len() implies (#[trigger] s2[i]) >= 1 by {
                    if i != zero_index(s) {
                        assert(s2[i] == s[i]);
                        assert(s[i] != 0);
                    }
                }
            }
            return Ok(Tensor { shape: shape2, data });
        }
        // no placeholder: the shape must already match the data length
        proof {
            lemma_no_zeros_prod(s);
        }
        if ovf {
            return Err(TensorError::ShapeMismatch);
        }
        if acc != data.len() {
            return Err(TensorError::ShapeMismatch);
        }
        Ok(Tensor { shape, data })
    }
}

/// With exactly one placeholder and a data length the other extents divide,
/// `from_data` infers the placeholder extent: handing it the shape with the
/// quotient already written in that axis resolves to the very same shape.
pub proof fn lemma_infer_axis(s: Seq<usize>, len: int)
    requires
        count_zeros(s) == 1,
        1 <= len <= usize::MAX,
        len % nonzero_prod(s) == 0,
    ensures
        resolve_shape(s, len) is Ok,
        resolve_shape(s, len) == resolve_shape(
            s.update(zero_index(s), (len / nonzero_prod(s)) as usize),
            len,
        ),
{
    let np = nonzero_prod(s);
    lemma_nonzero_prod_pos(s);
    lemma_fundamental_div_mod(len, np);
    let v = len / np;
    assert(len == np * v);
    assert(v >= 1) by (nonlinear_arith)
        requires
            np >= 1,
            len >= 1,
            len == np * v,
    ;
    assert(v <= len) by (nonlinear_arith)
        requires
            np >= 1,
            v >= 1,
            len == np * v,
    ;
    let vu = v as usize;
    lemma_update_zero_prod(s, vu);
    let s2 = s.update(zero_index(s), vu);
    assert(prod(s2) == np * v);
    crate::shape::lemma_zero_index(s);
    lemma_single_zero(s);
    assert forall|i: int| 0 <= i < s2.len() implies (#[trigger] s2[i]) >= 1 by {
        if i != zero_index(s) {
            assert(s2[i] == s[i]);
            assert(s[i] != 0);
        }
    }
    assert(resolve_shape(s, len) == Ok::<Seq<usize>, TensorError>(s2));
    // the pre-resolved shape has no zeros left, so it resolves to itself
    lemma_all_positive_count(s2);
    assert(resolve_shape(s2, len) == Ok::<Seq<usize>, TensorError>(s2));
}

/// A fresh vector holding the same elements as `v`.
pub(crate) fn copy_vec<T: Copy>(v: &Vec<T>) -> (out: Vec<T>)
    ensures
        out@ == v@,
{
    let mut out: Vec<T> = Vec::new();
    let mut k: usize = 0;
    while k < v.len()
        invariant
            0 <= k <= v.len(),
            out@.len() == k,
            forall|m: int| 0 <= m < k ==> out@[m] == v@[m],
        decreases v.len() - k,
    {
        out.push(v[k]);
        k += 1;
    }
    assert(out@ =~= v@);
    out
}

/// Whether two shapes are equal entry for entry.
pub(crate) fn shapes_equal(x: &Vec<usize>, y: &Vec<usize>) -> (b: bool)
    ensures
        b <==> x@ == y@,
{
    if x.len() != y.len() {
        assert(x@ != y@);
        return false;
    }
    let mut k: usize = 0;
    while k < x.len()
        invariant
            0 <= k <= x.len(),
            x@.len() == y@.len(),
            forall|m: int| 0 <= m < k ==> x@[m] == y@[m],
        decreases x.len() - k,
    {
        if x[k] != y[k] {
            return false;
        }
        k += 1;
    }
    assert(x@ =~= y@);
    true
}

/// The elementwise combination of two equally long buffers through `op`,
/// position by position.
pub(crate) fn zip_elems<T: Copy, F: Fn(T, T) -> T>(x: &Vec<T>, y: &Vec<T>, op: F) -> (out: Vec<
    T,
>)
    requires
        x@.len() == y@.len(),
        forall|a: T, b: T| #[trigger] call_requires(op, (a, b)),
    ensures
        out@.len() == x@.len(),
        forall|k: int| 0 <= k < x@.len() ==> call_ensures(op, (x@[k], y@[k]), #[trigger] out@[k]),
{
    let mut out: Vec<T> = Vec::new();
    let mut k: usize = 0;
    while k < x.len()
        invariant
            x@.len() == y@.len(),
            forall|a: T, b: T| #[trigger] call_requires(op, (a, b)),
            0 <= k <= x@.len(),
            out@.len() == k,
            forall|m: int| 0 <= m < k ==> call_ensures(op, (x@[m], y@[m]), #[trigger] out@[m]),
        decreases x@.len() - k,
    {
        let v = op(x[k], y[k]);
        out.push(v);
        k += 1;
    }
    out
}

/// Row `i` of an `m` x `n` matrix stored flat in row-major order.
pub open spec fn row_seq<T>(data: Seq<T>, n: int, i: int) -> Seq<T> {
    data.subrange(i * n, i * n + n)
}

/// Column `j` of an `n` x `p` matrix stored flat in row-major order.
pub open spec fn col_seq<T>(data: Seq<T>, n: int, p: int, j: int) -> Seq<T> {
    Seq::new(n as nat, |k: int| data[k * p + j])
}

/// The value an ordered multiply-accumulate chain can reach: starting from
/// `acc`, each step multiplies the aligned pair of `xs` and `ys` through
/// `times` and folds the product in through `plus`, front to back.
pub open spec fn dot_rel<T, FP: Fn(T, T) -> T, FT: Fn(T, T) -> T>(
    plus: FP,
    times: FT,
    xs: Seq<T>,
    ys: Seq<T>,
    acc: T,
    out: T,
) -> bool
    decreases xs.len(),
{
    if xs.len() == 0 {
        out == acc
    } else {
        exists|pv: T, acc2: T|
            #![trigger call_ensures(plus, (acc, pv), acc2)]
            call_ensures(times, (xs[0], ys[0]), pv) && call_ensures(plus, (acc, pv), acc2)
                && dot_rel(plus, times, xs.skip(1), ys.skip(1), acc2, out)
    }
}

/// Extending a multiply-accumulate chain by one aligned pair extends the
/// relation by one `times` / `plus` step.
proof fn lemma_dot_rel_push<T, FP: Fn(T, T) -> T, FT: Fn(T, T) -> T>(
    plus: FP,
    times: FT,
    xs: Seq<T>,
    ys: Seq<T>,
    acc: T,
    mid: T,
    x: T,
    y: T,
    pv: T,
    out: T,
)
    requires
        xs.len() == ys.len(),
        dot_rel(plus, times, xs, ys, acc, mid),
        call_ensures(times, (x, y), pv),
        call_ensures(plus, (mid, pv), out),
    ensures
        dot_rel(plus, times, xs.push(x), ys.push(y), acc, out),
    decreases xs.len(),
{
    if xs.len() == 0 {
        assert(mid == acc);
        assert(xs.push(x)[0] == x && ys.push(y)[0] == y);
        assert(xs.push(x).skip(1) =~= Seq::<T>::empty());
        assert(ys.push(y).skip(1) =~= Seq::<T>::empty());
        assert(dot_rel(plus, times, xs.push(x).skip(1), ys.push(y).skip(1), out, out));
    } else {
        let (pv0, acc2) = choose|pv0: T, acc2: T|
            #![trigger call_ensures(plus, (acc, pv0), acc2)]
            call_ensures(times, (xs[0], ys[0]), pv0) && call_ensures(plus, (acc, pv0), acc2)
                && dot_rel(plus, times, xs.skip(1), ys.skip(1), acc2, mid);
        lemma_dot_rel_push(plus, times, xs.skip(1), ys.skip(1), acc2, mid, x, y, pv, out);
        assert(xs.skip(1).push(x) =~= xs.push(x).skip(1));
        assert(ys.skip(1).push(y) =~= ys.push(y).skip(1));
        assert(xs.push(x)[0] == xs[0] && ys.push(y)[0] == ys[0]);
        assert(dot_rel(plus, times, xs.push(x).skip(1), ys.push(y).skip(1), acc2, out));
    }
}

impl<T: Copy> Tensor<T> {
    /// Matrix addition, with the elementwise sum supplied as `op`: both
    /// shapes must match exactly, with no broadcasting.
    ///
    /// Fails with `ShapeMismatch` exactly when the shapes differ.
    pub fn matadd<F: Fn(T, T) -> T>(&self, other: &Tensor<T>, op: F) -> (r: Result<
        Tensor<T>,
        TensorError,
    >)
        requires
            self.wf(),
            other.wf(),
            forall|a: T, b: T| #[trigger] call_requires(op, (a, b)),
        ensures
            match r {
                Ok(t) => self.shape@ == other.shape@ && t.wf() && t.shape@ == self.shape@
                    && t.data@.len() == self.data@.len() && forall|k: int|
                    0 <= k < self.data@.len() ==> call_ensures(
                        op,
                        (self.data@[k], other.data@[k]),
                        #[trigger] t.data@[k],
                    ),
                Err(e) => self.shape@ != other.shape@ && e == TensorError::ShapeMismatch,
            },
    {
        if !shapes_equal(&self.shape, &other.shape) {
            return Err(TensorError::ShapeMismatch);
        }
        let data = zip_elems(&self.data, &other.data, op);
        Ok(Tensor { shape: copy_vec(&self.shape), data })
    }

    /// Matrix subtraction, with the elementwise difference supplied as
    /// `op`: both shapes must match exactly, with no broadcasting.
    ///
    /// Fails with `ShapeMismatch` exactly when the shapes differ.
    pub fn matsub<F: Fn(T, T) -> T>(&self, other: &Tensor<T>, op: F) -> (r: Result<
        Tensor<T>,
        TensorError,
    >)
        requires
            self.wf(),
            other.wf(),
            forall|a: T, b: T| #[trigger] call_requires(op, (a, b)),
        ensures
            match r {
                Ok(t) => self.shape@ == other.shape@ && t.wf() && t.shape@ == self.shape@
                    && t.data@.len() == self.data@.len() && forall|k: int|
                    0 <= k < self.data@.len() ==> call_ensures(
                        op,
                        (self.data@[k], other.data@[k]),
                        #[trigger] t.data@[k],
                    ),
                Err(e) => self.shape@ != other.shape@ && e == TensorError::ShapeMismatch,
            },
    {
        if !shapes_equal(&self.shape, &other.shape) {
            return Err(TensorError::ShapeMismatch);
        }
        let data = zip_elems(&self.data, &other.data, op);
        Ok(Tensor { shape: copy_vec(&self.shape), data })
    }

    /// Strict 2-D matrix multiplication: both operands must be matrices
    /// (`RankError` otherwise) with matching inner dimensions
    /// (`DimensionMismatch` otherwise).  Entry `(i, j)` of the result is the
    /// multiply-accumulate of row `i` and column `j`, folded from `zero` in
    /// index order through the supplied `plus` and `times`.
    pub fn matmul<FP: Fn(T, T) -> T, FT: Fn(T, T) -> T>(
        &self,
        other: &Tensor<T>,
        plus: FP,
        times: FT,
        zero: T,
    ) -> (r: Result<Tensor<T>, TensorError>)
        requires
            self.wf(),
            other.wf(),
            forall|a: T, b: T| #[trigger] call_requires(plus, (a, b)),
            forall|a: T, b: T| #[trigger] call_requires(times, (a, b)),
        ensures
            match r {
                Ok(t) => ({
                    let m = self.shape@[0] as int;
                    let n = self.shape@[1] as int;
                    let p = other.shape@[1] as int;
                    self.shape@.len() == 2 && other.shape@.len() == 2 && self.shape@[1]
                        == other.shape@[0] && t.wf() && t.shape@ == seq![
                        self.shape@[0],
                        other.shape@[1],
                    ] && t.data@.len() == m * p && forall|i: int, j: int|
                        0 <= i < m && 0 <= j < p ==> dot_rel(
                            plus,
                            times,
                            row_seq(self.data@, n, i),
                            col_seq(other.data@, n, p, j),
                            zero,
                            #[trigger] t.data@[i * p + j],
                        )
                }),
                Err(e) => match e {
                    TensorError::RankError => self.shape@.len() != 2 || other.shape@.len() != 2,
                    TensorError::DimensionMismatch => self.shape@.len() == 2
                        && other.shape@.len() == 2 && self.shape@[1] != other.shape@[0],
                    _ => false,
                },
            },
    {
        if self.shape.len() != 2 || other.shape.len() != 2 {
            return Err(TensorError::RankError);
        }
        if self.shape[1] != other.shape[0] {
            return Err(TensorError::DimensionMismatch);
        }
        let m = self.shape[0];
        let n = self.shape[1];
        let p = other.shape[1];
        // pin both data lengths within the usize range for the invariants
        let _dl1 = self.data.len();
        let _dl2 = other.data.len();
        proof {
            lemma_prod_pair(self.shape@);
            lemma_prod_pair(other.shape@);
            assert(self.shape@[0] >= 1 && self.shape@[1] >= 1 && other.shape@[1] >= 1);
        }
        let mut out: Vec<T> = Vec::new();
        let mut i: usize = 0;
        while i < m
            invariant
                self.wf(),
                other.wf(),
                forall|a: T, b: T| #[trigger] call_requires(plus, (a, b)),
                forall|a: T, b: T| #[trigger] call_requires(times, (a, b)),
                self.shape@.len() == 2,
                other.shape@.len() == 2,
                m == self.shape@[0],
                n == self.shape@[1],
                n == other.shape@[0],
                p == other.shape@[1],
                self.data@.len() == m * n,
                other.data@.len() == n * p,
                self.data@.len() <= usize::MAX,
                other.data@.len() <= usize::MAX,
                0 <= i <= m,
                out@.len() == i * p,
                forall|a: int, b: int|
                    0 <= a < i && 0 <= b < p ==> dot_rel(
                        plus,
                        times,
                        row_seq(self.data@, n as int, a),
                        col_seq(other.data@, n as int, p as int, b),
                        zero,
                        #[trigger] out@[a * p + b],
                    ),
            decreases m - i,
        {
            let mut j: usize = 0;
            while j < p
                invariant
                    self.wf(),
                    other.wf(),
                    forall|a: T, b: T| #[trigger] call_requires(plus, (a, b)),
                    forall|a: T, b: T| #[trigger] call_requires(times, (a, b)),
                    self.shape@.len() == 2,
                    other.shape@.len() == 2,
                    m == self.shape@[0],
                    n == self.shape@[1],
                    n == other.shape@[0],
                    p == other.shape@[1],
                    self.data@.len() == m * n,
                    other.data@.len() == n * p,
                    self.data@.len() <= usize::MAX,
                    other.data@.len() <= usize::MAX,
                    0 <= i < m,
                    0 <= j <= p,
                    out@.len() == i * p + j,
                    forall|a: int, b: int|
                        0 <= a < i && 0 <= b < p ==> dot_rel(
                            plus,
                            times,
                            row_seq(self.data@, n as int, a),
                            col_seq(other.data@, n as int, p as int, b),
                            zero,
                            #[trigger] out@[a * p + b],
                        ),
                    forall|b: int|
                        0 <= b < j ==> dot_rel(
                            plus,
                            times,
                            row_seq(self.data@, n as int, i as int),
                            col_seq(other.data@, n as int, p as int, b),
                            zero,
                            #[trigger] out@[i * p + b],
                        ),
                decreases p - j,
            {
                let ghost row = row_seq(self.data@, n as int, i as int);
                let ghost col = col_seq(other.data@, n as int, p as int, j as int);
                proof {
                    assert((i as int) * (n as int) + (n as int) <= (m as int) * (n as int))
                        by (nonlinear_arith)
                        requires
                            0 <= i < m,
                            0 < n,
                    ;
                    assert(row.take(0) =~= Seq::<T>::empty());
                    assert(col.take(0) =~= Seq::<T>::empty());
                }
                let mut sum = zero;
                let mut k: usize = 0;
                while k < n
                    invariant
                        forall|a: T, b: T| #[trigger] call_requires(plus, (a, b)),
                        forall|a: T, b: T| #[trigger] call_requires(times, (a, b)),
                        self.data@.len() == m * n,
                        other.data@.len() == n * p,
                        self.data@.len() <= usize::MAX,
                        other.data@.len() <= usize::MAX,
                        0 <= i < m,
                        0 <= j < p,
                        0 <= k <= n,
                        row == row_seq(self.data@, n as int, i as int),
                        col == col_seq(other.data@, n as int, p as int, j as int),
                        (i as int) * (n as int) + (n as int) <= (m as int) * (n as int),
                        row.len() == n,
                        col.len() == n,
                        dot_rel(plus, times, row.take(k as int), col.take(k as int), zero, sum),
                    decreases n - k,
                {
                    proof {
                        assert((k as int) * (p as int) + (j as int) < (n as int) * (p as int))
                            by (nonlinear_arith)
                            requires
                                0 <= k < n,
                                0 <= j < p,
                        ;
                        assert((i as int) * (n as int) + (k as int) < (i as int) * (n as int) + (
                        n as int));
                        assert(row[k as int] == self.data@[(i as int) * (n as int) + (k as int)]);
                        assert(col[k as int] == other.data@[(k as int) * (p as int) + (j as int)]);
                    }
                    let pv = times(self.data[i * n + k], other.data[k * p + j]);
                    let new_sum = plus(sum, pv);
                    proof {
                        lemma_dot_rel_push(
                            plus,
                            times,
                            row.take(k as int),
                            col.take(k as int),
                            zero,
                            sum,
                            row[k as int],
                            col[k as int],
                            pv,
                            new_sum,
                        );
                        assert(row.take(k as int).push(row[k as int]) =~= row.take(k as int + 1));
                        assert(col.take(k as int).push(col[k as int]) =~= col.take(k as int + 1));
                    }
                    sum = new_sum;
                    k += 1;
                }
                proof {
                    assert(row.take(n as int) =~= row);
                    assert(col.take(n as int) =~= col);
                }
                let ghost prev = out@;
                out.push(sum);
                proof {
                    assert forall|a: int, b: int| 0 <= a < i as int && 0 <= b < p as int implies
                        dot_rel(
                        plus,
                        times,
                        row_seq(self.data@, n as int, a),
                        col_seq(other.data@, n as int, p as int, b),
                        zero,
                        #[trigger] out@[a * (p as int) + b],
                    ) by {
                        assert(a * (p as int) + b < (i as int) * (p as int)) by (nonlinear_arith)
                            requires
                                0 <= a <= (i as int) - 1,
                                0 <= b <= (p as int) - 1,
                                p >= 1,
                        ;
                        assert(out@[a * (p as int) + b] == prev[a * (p as int) + b]);
                    }
                }
                j += 1;
            }
            proof {
                assert((i as int) * (p as int) + (p as int) == (i as int + 1) * (p as int))
                    by (nonlinear_arith);
                assert forall|a: int, b: int|
                    0 <= a < (i as int) + 1 && 0 <= b < p as int implies dot_rel(
                    plus,
                    times,
                    row_seq(self.data@, n as int, a),
                    col_seq(other.data@, n as int, p as int, b),
                    zero,
                    #[trigger] out@[a * (p as int) + b],
                ) by {
                    if a < i as int {
                        assert(dot_rel(
                            plus,
                            times,
                            row_seq(self.data@, n as int, a),
                            col_seq(other.data@, n as int, p as int, b),
                            zero,
                            out@[a * (p as int) + b],
                        ));
                    } else {
                        assert(dot_rel(
                            plus,
                            times,
                            row_seq(self.data@, n as int, i as int),
                            col_seq(other.data@, n as int, p as int, b),
                            zero,
                            out@[(i as int) * (p as int) + b],
                        ));
                    }
                }
            }
            i += 1;
        }
        let mut rshape: Vec<usize> = Vec::new();
        rshape.push(m);
        rshape.push(p);
        proof {
            lemma_prod_pair(rshape@);
            assert(rshape@ == seq![self.shape@[0], other.shape@[1]]);
        }
        Ok(Tensor { shape: rshape, data: out })
    }
}

impl<T: Copy> Clone for Tensor<T> {
    /// A full deep copy: the clone has equal shape and data, in storage of
    /// its own.
    fn clone(&self) -> (r: Self)
        ensures
            r.shape@ == self.shape@,
            r.data@ == self.data@,
    {
        Tensor { shape: copy_vec(&self.shape), data: copy_vec(&self.data) }
    }
}

} // verus!
