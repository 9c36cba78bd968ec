//! The mathematics of coefficient sequences: convolution, long division by
//! a polynomial whose leading coefficient is a unit modulo 512, and the laws
//! that connect them.

use vstd::prelude::*;
use vstd::arithmetic::div_mod::{
    lemma_add_mod_noop,
    lemma_sub_mod_noop,
    lemma_small_mod,
    lemma_mod_bound,
};
use crate::arith::{
    inverse_mod,
    lemma_divisor_of_modulus,
    lemma_inverse_mod,
    lemma_odd_coprime,
    lemma_scaled_digit_clears,
};

verus! {

/// The modulus under which the inverse of a divisor's leading coefficient is
/// taken, and the modulus of every cipher state.
pub const EXT_MODULUS: i64 = 512;

/// Every entry of `s` lies in `[0, m)`.
pub open spec fn reduced(s: Seq<int>, m: int) -> bool {
    forall|i: int| 0 <= i < s.len() ==> 0 <= #[trigger] s[i] < m
}

/// The coefficient of degree `i`, which is zero outside the sequence.
pub open spec fn coef(a: Seq<int>, i: int) -> int {
    if 0 <= i < a.len() {
        a[i]
    } else {
        0
    }
}

/// The part of the degree-`t` coefficient of the product of `a` and `b` that
/// comes from the coefficients of `a` with degree in `[lo, hi)`.
pub open spec fn conv_sum(a: Seq<int>, b: Seq<int>, t: int, lo: int, hi: int) -> int
    decreases hi - lo,
{
    if hi <= lo {
        0
    } else {
        conv_sum(a, b, t, lo, hi - 1) + coef(a, hi - 1) * coef(b, t - (hi - 1))
    }
}

/// The degree-`t` coefficient of the product of `a` and `b` over the integers.
pub open spec fn conv(a: Seq<int>, b: Seq<int>, t: int) -> int {
    conv_sum(a, b, t, 0, a.len() as int)
}

/// The product of two polynomials with coefficients reduced modulo `m`.
pub open spec fn poly_mul(a: Seq<int>, b: Seq<int>, m: int) -> Seq<int> {
    Seq::new((a.len() + b.len() - 1) as nat, |t: int| conv(a, b, t) % m)
}

/// A partial convolution sum can be taken apart at its lowest term.
pub proof fn lemma_conv_sum_low(a: Seq<int>, b: Seq<int>, t: int, lo: int, hi: int)
    requires
        lo < hi,
    ensures
        conv_sum(a, b, t, lo, hi) == coef(a, lo) * coef(b, t - lo) + conv_sum(a, b, t, lo + 1, hi),
    decreases hi - lo,
{
    if lo + 1 < hi {
        lemma_conv_sum_low(a, b, t, lo, hi - 1);
    } else {
        assert(conv_sum(a, b, t, lo, lo) == 0);
        assert(conv_sum(a, b, t, lo + 1, hi) == 0);
    }
}

/// A partial convolution sum vanishes when every term has a zero factor.
pub proof fn lemma_conv_sum_zero(a: Seq<int>, b: Seq<int>, t: int, lo: int, hi: int)
    requires
        forall|i: int| lo <= i < hi ==> coef(a, i) == 0 || #[trigger] coef(b, t - i) == 0,
    ensures
        conv_sum(a, b, t, lo, hi) == 0,
    decreases hi - lo,
{
    if lo < hi {
        lemma_conv_sum_zero(a, b, t, lo, hi - 1);
        assert(coef(a, hi - 1) == 0 || coef(b, t - (hi - 1)) == 0);
        assert(coef(a, hi - 1) * coef(b, t - (hi - 1)) == 0) by (nonlinear_arith)
            requires
                coef(a, hi - 1) == 0 || coef(b, t - (hi - 1)) == 0,
        ;
    }
}

/// `w` with `d` times the polynomial `k`, shifted up by `s` degrees, taken
/// away from it modulo `m`.
pub open spec fn sub_row(w: Seq<int>, k: Seq<int>, s: int, d: int, m: int) -> Seq<int> {
    Seq::new(w.len(), |t: int| (w[t] - d * coef(k, t - s)) % m)
}

/// The quotient digit of degree `s` that long division by `k` reads off the
/// working remainder `w`: the coefficient of `w` that stands against the
/// leading coefficient of `k`, times the inverse of that leading coefficient
/// modulo 512.
pub open spec fn step_digit(w: Seq<int>, k: Seq<int>, s: int) -> int {
    (inverse_mod(k.last(), EXT_MODULUS as int) * w[s + k.len() - 1]) % (EXT_MODULUS as int)
}

/// The working remainder of the long division of `w` by `k` modulo `m` after
/// its `c` highest steps.
pub open spec fn div_steps(w: Seq<int>, k: Seq<int>, m: int, c: nat) -> Seq<int>
    decreases c,
{
    if c == 0 {
        w
    } else {
        let prev = div_steps(w, k, m, (c - 1) as nat);
        let s = w.len() - k.len() + 1 - c;
        sub_row(prev, k, s, step_digit(prev, k, s), m)
    }
}

/// The number of steps in the long division of a polynomial with `n`
/// coefficients by one with `kl` coefficients.
pub open spec fn div_count(n: nat, kl: nat) -> nat {
    if n + 1 >= kl {
        (n + 1 - kl) as nat
    } else {
        0
    }
}

/// The quotient of the long division of `w` by `k` modulo `m`, lowest degree
/// first.
pub open spec fn div_quot(w: Seq<int>, k: Seq<int>, m: int) -> Seq<int> {
    let count = div_count(w.len(), k.len());
    Seq::new(count, |s: int| step_digit(div_steps(w, k, m, (count - 1 - s) as nat), k, s))
}

/// The remainder of the long division of `w` by `k` modulo `m`, with as many
/// coefficients as `w`.
pub open spec fn div_rem(w: Seq<int>, k: Seq<int>, m: int) -> Seq<int> {
    div_steps(w, k, m, div_count(w.len(), k.len()))
}

/// Every working remainder of a division has the length of the dividend and
/// stays reduced.
pub proof fn lemma_div_steps_reduced(w: Seq<int>, k: Seq<int>, m: int, c: nat)
    requires
        1 <= m,
        reduced(w, m),
    ensures
        div_steps(w, k, m, c).len() == w.len(),
        reduced(div_steps(w, k, m, c), m),
    decreases c,
{
    if c > 0 {
        lemma_div_steps_reduced(w, k, m, (c - 1) as nat);
        let prev = div_steps(w, k, m, (c - 1) as nat);
        let s = w.len() - k.len() + 1 - c;
        let d = step_digit(prev, k, s);
        assert forall|t: int| 0 <= t < w.len() implies 0 <= #[trigger] div_steps(w, k, m, c)[t]
            < m by {
            lemma_mod_bound(prev[t] - d * coef(k, t - s), m);
        }
    }
}

/// The quotient has one digit for each step, and every digit lies in
/// `[0, 512)`.
pub proof fn lemma_div_quot_reduced(w: Seq<int>, k: Seq<int>, m: int)
    ensures
        div_quot(w, k, m).len() == div_count(w.len(), k.len()),
        reduced(div_quot(w, k, m), EXT_MODULUS as int),
{
    let count = div_count(w.len(), k.len());
    let q = div_quot(w, k, m);
    assert forall|s: int| 0 <= s < q.len() implies 0 <= #[trigger] q[s] < EXT_MODULUS by {
        let prev = div_steps(w, k, m, (count - 1 - s) as nat);
        lemma_mod_bound(
            inverse_mod(k.last(), EXT_MODULUS as int) * prev[s + k.len() - 1],
            EXT_MODULUS as int,
        );
    }
}

/// After `c` steps the working remainder is the dividend less the product
/// of the divisor with the quotient digits found so far.
proof fn lemma_div_steps_identity(w: Seq<int>, k: Seq<int>, m: int, c: nat)
    requires
        1 <= m,
        reduced(w, m),
        c <= div_count(w.len(), k.len()),
    ensures
        forall|t: int|
            0 <= t < w.len() ==> #[trigger] div_steps(w, k, m, c)[t] == (w[t] - conv_sum(
                div_quot(w, k, m),
                k,
                t,
                div_count(w.len(), k.len()) - c,
                div_count(w.len(), k.len()) as int,
            )) % m,
    decreases c,
{
    let count = div_count(w.len(), k.len());
    let q = div_quot(w, k, m);
    if c == 0 {
        assert forall|t: int| 0 <= t < w.len() implies #[trigger] div_steps(w, k, m, c)[t] == (w[t]
            - conv_sum(q, k, t, count - c, count as int)) % m by {
            lemma_small_mod(w[t] as nat, m as nat);
        }
    } else {
        lemma_div_steps_identity(w, k, m, (c - 1) as nat);
        lemma_div_steps_reduced(w, k, m, (c - 1) as nat);
        let prev = div_steps(w, k, m, (c - 1) as nat);
        let s = count - c;
        let d = step_digit(prev, k, s);
        assert(q[s] == d);
        assert forall|t: int| 0 <= t < w.len() implies #[trigger] div_steps(w, k, m, c)[t] == (w[t]
            - conv_sum(q, k, t, count - c, count as int)) % m by {
            let done = conv_sum(q, k, t, s + 1, count as int);
            let term = d * coef(k, t - s);
            lemma_conv_sum_low(q, k, t, s, count as int);
            assert(conv_sum(q, k, t, s, count as int) == term + done);
            assert(prev[t] == (w[t] - done) % m);
            lemma_sub_mod_noop(w[t] - done, term, m);
            lemma_sub_mod_noop(prev[t], term, m);
            lemma_small_mod(prev[t] as nat, m as nat);
            lemma_mod_bound(w[t] - done, m);
            lemma_small_mod(((w[t] - done) % m) as nat, m as nat);
        }
    }
}

/// The division law: the dividend is the product of quotient and divisor
/// plus the remainder, coefficient by coefficient modulo `m`.
pub proof fn lemma_division_identity(w: Seq<int>, k: Seq<int>, m: int)
    requires
        1 <= m,
        reduced(w, m),
    ensures
        div_rem(w, k, m).len() == w.len(),
        reduced(div_rem(w, k, m), m),
        forall|t: int|
            0 <= t < w.len() ==> #[trigger] w[t] == (div_rem(w, k, m)[t] + conv(
                div_quot(w, k, m),
                k,
                t,
            )) % m,
{
    let count = div_count(w.len(), k.len());
    let q = div_quot(w, k, m);
    let r = div_rem(w, k, m);
    lemma_div_steps_identity(w, k, m, count);
    lemma_div_steps_reduced(w, k, m, count);
    assert forall|t: int| 0 <= t < w.len() implies #[trigger] w[t] == (r[t] + conv(q, k, t))
        % m by {
        let whole = conv(q, k, t);
        assert(r[t] == (w[t] - whole) % m);
        lemma_add_mod_noop(w[t] - whole, whole, m);
        lemma_add_mod_noop(r[t], whole, m);
        lemma_small_mod(r[t] as nat, m as nat);
        lemma_small_mod(w[t] as nat, m as nat);
    }
}

/// Once a step has cleared a coefficient, that coefficient stays zero: after
/// `c` steps the `c` highest coefficients of the working remainder vanish.
proof fn lemma_div_steps_cleared(w: Seq<int>, k: Seq<int>, m: int, c: nat)
    requires
        1 <= m,
        (EXT_MODULUS as int) % m == 0,
        reduced(w, m),
        k.len() >= 1,
        0 <= k.last(),
        k.last() % 2 == 1,
        c <= div_count(w.len(), k.len()),
    ensures
        forall|t: int| w.len() - c <= t < w.len() ==> #[trigger] div_steps(w, k, m, c)[t] == 0,
    decreases c,
{
    if c > 0 {
        lemma_div_steps_cleared(w, k, m, (c - 1) as nat);
        lemma_div_steps_reduced(w, k, m, (c - 1) as nat);
        let prev = div_steps(w, k, m, (c - 1) as nat);
        let s = w.len() - k.len() + 1 - c;
        let d = step_digit(prev, k, s);
        let inv = inverse_mod(k.last(), EXT_MODULUS as int);
        lemma_odd_coprime(k.last());
        lemma_inverse_mod(k.last(), EXT_MODULUS as int);
        assert forall|t: int| w.len() - c <= t < w.len() implies #[trigger] div_steps(w, k, m, c)[t]
            == 0 by {
            if t == w.len() - c {
                assert(coef(k, t - s) == k.last());
                lemma_scaled_digit_clears(prev[t], k.last(), inv, EXT_MODULUS as int);
                lemma_divisor_of_modulus(prev[t] - d * k.last(), EXT_MODULUS as int, m);
            } else {
                assert(coef(k, t - s) == 0);
                assert(d * coef(k, t - s) == 0) by (nonlinear_arith)
                    requires
                        coef(k, t - s) == 0,
                ;
                lemma_small_mod(0, m as nat);
            }
        }
    }
}

/// Where the modulus divides 512 and the divisor's leading coefficient is
/// odd, the remainder has a lower degree than the divisor.
pub proof fn lemma_remainder_degree(w: Seq<int>, k: Seq<int>, m: int)
    requires
        1 <= m,
        (EXT_MODULUS as int) % m == 0,
        reduced(w, m),
        k.len() >= 1,
        0 <= k.last(),
        k.last() % 2 == 1,
    ensures
        forall|t: int| k.len() - 1 <= t < w.len() ==> #[trigger] div_rem(w, k, m)[t] == 0,
{
    lemma_div_steps_cleared(w, k, m, div_count(w.len(), k.len()));
}

} // verus!
