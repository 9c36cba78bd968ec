//! The ring laws of polynomial multiplication: the product does not depend
//! on the order of its factors, nor on how three factors are grouped.

use vstd::prelude::*;
use vstd::arithmetic::div_mod::{lemma_add_mod_noop, lemma_mod_twice, lemma_mul_mod_noop};
use crate::ring::{coef, conv, conv_sum, lemma_conv_sum_low, lemma_conv_sum_zero, poly_mul};

verus! {

/// The product of two polynomials over the integers, without reduction.
pub open spec fn int_mul(a: Seq<int>, b: Seq<int>) -> Seq<int> {
    Seq::new((a.len() + b.len() - 1) as nat, |t: int| conv(a, b, t))
}

/// A partial convolution sum is the sum of its two parts.
pub proof fn lemma_conv_sum_split(a: Seq<int>, b: Seq<int>, t: int, lo: int, mid: int, hi: int)
    requires
        lo <= mid <= hi,
    ensures
        conv_sum(a, b, t, lo, hi) == conv_sum(a, b, t, lo, mid) + conv_sum(a, b, t, mid, hi),
    decreases hi - mid,
{
    if mid < hi {
        lemma_conv_sum_split(a, b, t, lo, mid, hi - 1);
    }
}

/// Terms that vanish can be left out at both ends of a partial convolution
/// sum.
pub proof fn lemma_conv_sum_restrict(
    a: Seq<int>,
    b: Seq<int>,
    t: int,
    lo: int,
    hi: int,
    lo2: int,
    hi2: int,
)
    requires
        lo <= lo2 <= hi2 <= hi,
        forall|i: int|
            lo <= i < lo2 || hi2 <= i < hi ==> coef(a, i) == 0 || #[trigger] coef(b, t - i) == 0,
    ensures
        conv_sum(a, b, t, lo, hi) == conv_sum(a, b, t, lo2, hi2),
{
    lemma_conv_sum_split(a, b, t, lo, lo2, hi);
    lemma_conv_sum_split(a, b, t, lo2, hi2, hi);
    assert forall|i: int| lo <= i < lo2 implies coef(a, i) == 0 || #[trigger] coef(b, t - i)
        == 0 by {}
    lemma_conv_sum_zero(a, b, t, lo, lo2);
    assert forall|i: int| hi2 <= i < hi implies coef(a, i) == 0 || #[trigger] coef(b, t - i)
        == 0 by {}
    lemma_conv_sum_zero(a, b, t, hi2, hi);
}

/// A partial convolution sum, read from the other factor's side.
proof fn lemma_conv_sum_mirror(a: Seq<int>, b: Seq<int>, t: int, lo: int, hi: int)
    requires
        lo <= hi,
    ensures
        conv_sum(a, b, t, lo, hi) == conv_sum(b, a, t, t - hi + 1, t - lo + 1),
    decreases hi - lo,
{
    if lo < hi {
        lemma_conv_sum_mirror(a, b, t, lo, hi - 1);
        lemma_conv_sum_low(b, a, t, t - hi + 1, t - lo + 1);
        assert(coef(a, hi - 1) * coef(b, t - (hi - 1)) == coef(b, t - hi + 1) * coef(
            a,
            t - (t - hi + 1),
        )) by (nonlinear_arith);
    }
}

/// Every coefficient of a product is the same with the factors exchanged.
pub proof fn lemma_conv_commutative(a: Seq<int>, b: Seq<int>, t: int)
    ensures
        conv(a, b, t) == conv(b, a, t),
{
    let la = a.len() as int;
    let lb = b.len() as int;
    lemma_conv_sum_mirror(a, b, t, 0, la);
    // Both ranges hold every term that does not vanish; widen them to one range.
    let lo = if t - la + 1 < 0 {
        t - la + 1
    } else {
        0
    };
    let hi = if t + 1 > lb {
        t + 1
    } else {
        lb
    };
    assert forall|j: int| lo <= j < 0 || lb <= j < hi implies coef(b, j) == 0 || #[trigger] coef(
        a,
        t - j,
    ) == 0 by {}
    lemma_conv_sum_restrict(b, a, t, lo, hi, 0, lb);
    assert forall|j: int| lo <= j < t - la + 1 || t + 1 <= j < hi implies coef(b, j) == 0
        || #[trigger] coef(a, t - j) == 0 by {}
    lemma_conv_sum_restrict(b, a, t, lo, hi, t - la + 1, t + 1);
}

/// Multiplication is commutative.
pub proof fn lemma_poly_mul_commutative(a: Seq<int>, b: Seq<int>, m: int)
    ensures
        poly_mul(a, b, m) == poly_mul(b, a, m),
{
    assert forall|t: int| 0 <= t < poly_mul(a, b, m).len() implies #[trigger] poly_mul(a, b, m)[t]
        == poly_mul(b, a, m)[t] by {
        lemma_conv_commutative(a, b, t);
    }
    assert(poly_mul(a, b, m) =~= poly_mul(b, a, m));
}

/// Outside the product's own degrees the convolution vanishes, so that a
/// coefficient of the product over the integers is the convolution at any
/// degree.
pub proof fn lemma_int_mul_coef(a: Seq<int>, b: Seq<int>, u: int)
    requires
        a.len() >= 1,
        b.len() >= 1,
    ensures
        coef(int_mul(a, b), u) == conv(a, b, u),
{
    if !(0 <= u < a.len() + b.len() - 1) {
        assert forall|i: int| 0 <= i < a.len() implies coef(a, i) == 0 || #[trigger] coef(b, u - i)
            == 0 by {}
        lemma_conv_sum_zero(a, b, u, 0, a.len() as int);
    }
}

/// A partial convolution sum is additive in its first factor.
proof fn lemma_conv_sum_linear(
    x: Seq<int>,
    y: Seq<int>,
    z: Seq<int>,
    k: int,
    c: Seq<int>,
    t: int,
    lo: int,
    hi: int,
)
    requires
        forall|u: int| lo <= u < hi ==> #[trigger] coef(x, u) == coef(y, u) + k * coef(z, u),
    ensures
        conv_sum(x, c, t, lo, hi) == conv_sum(y, c, t, lo, hi) + k * conv_sum(z, c, t, lo, hi),
    decreases hi - lo,
{
    if lo < hi {
        lemma_conv_sum_linear(x, y, z, k, c, t, lo, hi - 1);
        let u = hi - 1;
        let w = coef(c, t - u);
        let sy = conv_sum(y, c, t, lo, hi - 1);
        let sz = conv_sum(z, c, t, lo, hi - 1);
        assert(coef(x, u) == coef(y, u) + k * coef(z, u));
        assert((coef(y, u) + k * coef(z, u)) * w + sy + k * sz == (sy + coef(y, u) * w) + k * (sz
            + coef(z, u) * w)) by (nonlinear_arith);
    } else {
        assert(k * 0 == 0);
    }
}

/// `b` moved up by `n` degrees, cut or padded to `len` coefficients.
spec fn shifted(b: Seq<int>, n: int, len: nat) -> Seq<int> {
    Seq::new(len, |u: int| coef(b, u - n))
}

/// A partial convolution sum with a shifted first factor is the sum, over
/// the shifted range, at the degree lowered by the shift.
proof fn lemma_conv_sum_shift(b: Seq<int>, n: int, len: nat, c: Seq<int>, t: int, lo: int, hi: int)
    requires
        0 <= lo <= hi <= len,
    ensures
        conv_sum(shifted(b, n, len), c, t, lo, hi) == conv_sum(b, c, t - n, lo - n, hi - n),
    decreases hi - lo,
{
    if lo < hi {
        lemma_conv_sum_shift(b, n, len, c, t, lo, hi - 1);
        assert(coef(shifted(b, n, len), hi - 1) == coef(b, hi - 1 - n));
    }
}

/// The part of the product of `a` and `b` over the integers that comes from
/// the `n` lowest coefficients of `a`.
spec fn partial_mul(a: Seq<int>, b: Seq<int>, n: int) -> Seq<int> {
    Seq::new((a.len() + b.len() - 1) as nat, |u: int| conv_sum(a, b, u, 0, n))
}

/// Multiplying the partial product of `a` and `b` by `c` gives the part of
/// the product of `a` with the product of `b` and `c` that comes from the
/// same coefficients of `a`.
proof fn lemma_partial_associative(a: Seq<int>, b: Seq<int>, c: Seq<int>, t: int, n: int)
    requires
        a.len() >= 1,
        b.len() >= 1,
        c.len() >= 1,
        0 <= n <= a.len(),
    ensures
        conv(partial_mul(a, b, n), c, t) == conv_sum(a, int_mul(b, c), t, 0, n),
    decreases n,
{
    let len = (a.len() + b.len() - 1) as nat;
    if n == 0 {
        assert forall|u: int| 0 <= u < len implies coef(partial_mul(a, b, 0), u) == 0
            || #[trigger] coef(c, t - u) == 0 by {
            assert(coef(partial_mul(a, b, 0), u) == 0);
        }
        lemma_conv_sum_zero(partial_mul(a, b, 0), c, t, 0, len as int);
    } else {
        let i = n - 1;
        lemma_partial_associative(a, b, c, t, i);
        let x = partial_mul(a, b, n);
        let y = partial_mul(a, b, i);
        let z = shifted(b, i, len);
        assert forall|u: int| 0 <= u < len implies #[trigger] coef(x, u) == coef(y, u) + a[i]
            * coef(z, u) by {
            assert(conv_sum(a, b, u, 0, n) == conv_sum(a, b, u, 0, i) + coef(a, i) * coef(
                b,
                u - i,
            ));
        }
        lemma_conv_sum_linear(x, y, z, a[i], c, t, 0, len as int);
        lemma_conv_sum_shift(b, i, len, c, t, 0, len as int);
        // The shifted range holds all the degrees of `b`.
        assert forall|j: int| -i <= j < 0 || b.len() <= j < len - i implies coef(b, j) == 0
            || #[trigger] coef(c, t - i - j) == 0 by {}
        lemma_conv_sum_restrict(b, c, t - i, -i, len - i, 0, b.len() as int);
        lemma_int_mul_coef(b, c, t - i);
        assert(conv_sum(a, int_mul(b, c), t, 0, n) == conv_sum(a, int_mul(b, c), t, 0, i) + coef(
            a,
            i,
        ) * coef(int_mul(b, c), t - i));
    }
}

/// Over the integers, every coefficient of a product of three factors is
/// the same for both groupings.
pub proof fn lemma_conv_associative(a: Seq<int>, b: Seq<int>, c: Seq<int>, t: int)
    requires
        a.len() >= 1,
        b.len() >= 1,
        c.len() >= 1,
    ensures
        conv(int_mul(a, b), c, t) == conv(a, int_mul(b, c), t),
{
    lemma_partial_associative(a, b, c, t, a.len() as int);
    assert(partial_mul(a, b, a.len() as int) =~= int_mul(a, b));
}

/// A partial convolution sum keeps its residue when the coefficients of its
/// first factor are replaced by others with the same residues.
proof fn lemma_conv_sum_congruent(
    a: Seq<int>,
    a2: Seq<int>,
    b: Seq<int>,
    t: int,
    lo: int,
    hi: int,
    m: int,
)
    requires
        0 < m,
        forall|i: int| lo <= i < hi ==> #[trigger] coef(a, i) % m == coef(a2, i) % m,
    ensures
        conv_sum(a, b, t, lo, hi) % m == conv_sum(a2, b, t, lo, hi) % m,
    decreases hi - lo,
{
    if lo < hi {
        lemma_conv_sum_congruent(a, a2, b, t, lo, hi - 1, m);
        let i = hi - 1;
        let w = coef(b, t - i);
        assert(coef(a, i) % m == coef(a2, i) % m);
        lemma_mul_mod_noop(coef(a, i), w, m);
        lemma_mul_mod_noop(coef(a2, i), w, m);
        lemma_add_mod_noop(conv_sum(a, b, t, lo, hi - 1), coef(a, i) * w, m);
        lemma_add_mod_noop(conv_sum(a2, b, t, lo, hi - 1), coef(a2, i) * w, m);
    }
}

/// The reduced product has the residues of the product over the integers.
proof fn lemma_poly_mul_residues(a: Seq<int>, b: Seq<int>, m: int)
    requires
        0 < m,
    ensures
        poly_mul(a, b, m).len() == int_mul(a, b).len(),
        forall|u: int| #[trigger] coef(poly_mul(a, b, m), u) % m == coef(int_mul(a, b), u) % m,
{
    assert forall|u: int| #[trigger] coef(poly_mul(a, b, m), u) % m == coef(int_mul(a, b), u)
        % m by {
        if 0 <= u < int_mul(a, b).len() {
            lemma_mod_twice(conv(a, b, u), m);
        }
    }
}

/// Multiplication is associative.
pub proof fn lemma_poly_mul_associative(a: Seq<int>, b: Seq<int>, c: Seq<int>, m: int)
    requires
        a.len() >= 1,
        b.len() >= 1,
        c.len() >= 1,
        0 < m,
    ensures
        poly_mul(poly_mul(a, b, m), c, m) == poly_mul(a, poly_mul(b, c, m), m),
{
    let left = poly_mul(poly_mul(a, b, m), c, m);
    let right = poly_mul(a, poly_mul(b, c, m), m);
    lemma_poly_mul_residues(a, b, m);
    lemma_poly_mul_residues(b, c, m);
    assert forall|t: int| 0 <= t < left.len() implies #[trigger] left[t] == right[t] by {
        // Left: reduce the inner product or not, the residue is the same.
        lemma_conv_sum_congruent(
            poly_mul(a, b, m),
            int_mul(a, b),
            c,
            t,
            0,
            int_mul(a, b).len() as int,
            m,
        );
        // Right: the same, with the inner product as the first factor.
        lemma_conv_commutative(a, poly_mul(b, c, m), t);
        lemma_conv_commutative(a, int_mul(b, c), t);
        lemma_conv_sum_congruent(
            poly_mul(b, c, m),
            int_mul(b, c),
            a,
            t,
            0,
            int_mul(b, c).len() as int,
            m,
        );
        lemma_conv_associative(a, b, c, t);
    }
    assert(left =~= right);
}

} // verus!
