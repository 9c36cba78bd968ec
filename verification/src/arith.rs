//! Integer arithmetic behind the ring operations: greatest common divisors,
//! Bezout coefficients and modular inverses.

use vstd::prelude::*;
use vstd::arithmetic::div_mod::*;

verus! {

/// The greatest common divisor of two non-negative integers.
pub open spec fn gcd(x: int, y: int) -> int
    decreases y,
{
    if y <= 0 {
        x
    } else {
        gcd(y, x % y)
    }
}

/// The Bezout coefficients `(s, t)` of two non-negative integers, the pair
/// with `s * x + t * y == gcd(x, y)` that Euclid's algorithm arrives at.
pub open spec fn bezout(x: int, y: int) -> (int, int)
    decreases y,
{
    if y <= 0 {
        (1, 0)
    } else {
        let (s, t) = bezout(y, x % y);
        (t, s - (x / y) * t)
    }
}

/// The residue in `[0, m)` that `mod_inv` computes for `a`: the first Bezout
/// coefficient of `(a, m)`, reduced. It is the inverse of `a` modulo `m`
/// whenever `gcd(a, m) == 1`.
pub open spec fn inverse_mod(a: int, m: int) -> int {
    bezout(a, m).0 % m
}

/// The Bezout coefficients combine the two arguments into their gcd.
pub proof fn lemma_bezout_identity(x: int, y: int)
    requires
        0 <= x,
        0 <= y,
    ensures
        bezout(x, y).0 * x + bezout(x, y).1 * y == gcd(x, y),
    decreases y,
{
    if y > 0 {
        let q = x / y;
        let r = x % y;
        lemma_fundamental_div_mod(x, y);
        lemma_bezout_identity(y, r);
        let (s, t) = bezout(y, r);
        assert(bezout(x, y) == (t, s - q * t));
        assert(s * y + t * r == gcd(y, r));
        assert(t * x + (s - q * t) * y == s * y + t * r) by (nonlinear_arith)
            requires
                x == y * q + r,
        ;
    } else {
        assert(bezout(x, y) == (1int, 0int));
        assert(1 * x + 0 * y == x);
    }
}

/// The gcd is non-negative, is positive unless both arguments are zero, and
/// divides both arguments.
pub proof fn lemma_gcd_divides(x: int, y: int)
    requires
        0 <= x,
        0 <= y,
    ensures
        0 <= gcd(x, y),
        x > 0 || y > 0 ==> gcd(x, y) > 0,
        gcd(x, y) > 0 ==> x % gcd(x, y) == 0 && y % gcd(x, y) == 0,
    decreases y,
{
    if y > 0 {
        let q = x / y;
        let r = x % y;
        lemma_fundamental_div_mod(x, y);
        lemma_gcd_divides(y, r);
        let g = gcd(y, r);
        assert(g > 0);
        lemma_fundamental_div_mod(y, g);
        lemma_fundamental_div_mod(r, g);
        let yq = y / g;
        let rq = r / g;
        assert(x == g * (yq * q + rq)) by (nonlinear_arith)
            requires
                x == y * q + r,
                y == g * yq,
                r == g * rq,
        ;
        lemma_mod_multiples_basic(yq * q + rq, g);
        assert(g * (yq * q + rq) == (yq * q + rq) * g) by (nonlinear_arith);
    } else if x > 0 {
        lemma_mod_self_0(x);
    }
}

/// Every common divisor of two numbers divides their gcd.
pub proof fn lemma_gcd_greatest(x: int, y: int, d: int)
    requires
        0 <= x,
        0 <= y,
        0 < d,
        x % d == 0,
        y % d == 0,
    ensures
        gcd(x, y) % d == 0,
{
    let (s, t) = bezout(x, y);
    lemma_bezout_identity(x, y);
    lemma_fundamental_div_mod(x, d);
    lemma_fundamental_div_mod(y, d);
    let xq = x / d;
    let yq = y / d;
    assert(s * x + t * y == (s * xq + t * yq) * d) by (nonlinear_arith)
        requires
            x == d * xq,
            y == d * yq,
    ;
    lemma_mod_multiples_basic(s * xq + t * yq, d);
}

/// When `a` and `m` are coprime, `inverse_mod(a, m)` is the inverse of `a`
/// modulo `m`.
pub proof fn lemma_inverse_mod(a: int, m: int)
    requires
        0 <= a,
        0 < m,
        gcd(a, m) == 1,
    ensures
        0 <= inverse_mod(a, m) < m,
        (a * inverse_mod(a, m)) % m == 1int % m,
        (inverse_mod(a, m) * a) % m == 1int % m,
{
    let (s, t) = bezout(a, m);
    lemma_bezout_identity(a, m);
    let i = inverse_mod(a, m);
    lemma_mul_mod_noop_right(a, s, m);
    assert(a * s == 1 + (-t) * m) by (nonlinear_arith)
        requires
            s * a + t * m == 1,
    ;
    lemma_mod_multiples_vanish(-t, 1, m);
    assert(m * (-t) == (-t) * m) by (nonlinear_arith);
    assert(a * i == i * a) by (nonlinear_arith);
}

/// No residue other than `inverse_mod(a, m)` inverts `a` modulo `m`.
pub proof fn lemma_inverse_mod_unique(a: int, m: int, r: int)
    requires
        0 <= a,
        0 < m,
        gcd(a, m) == 1,
        0 <= r < m,
        (a * r) % m == 1int % m,
    ensures
        r == inverse_mod(a, m),
{
    let i = inverse_mod(a, m);
    lemma_inverse_mod(a, m);
    // r == r * (a * i) == (r * a) * i == i   (mod m)
    lemma_mul_mod_noop_right(r, a * i, m);
    lemma_mul_mod_noop_left(a * r, i, m);
    assert(r * (a * i) == (a * r) * i) by (nonlinear_arith);
    lemma_mul_mod_noop_right(r, 1, m);
    lemma_mul_mod_noop_left(1, i, m);
    assert(r * 1 == r && 1 * i == i);
    lemma_small_mod(r as nat, m as nat);
    lemma_small_mod(i as nat, m as nat);
}

/// Scaling by an inverse and then by the inverted number gives back the
/// residue that one started from.
pub proof fn lemma_scaled_digit_clears(x: int, lead: int, inv: int, n: int)
    requires
        0 < n,
        (inv * lead) % n == 1int % n,
    ensures
        (x - ((inv * x) % n) * lead) % n == 0,
{
    let d = (inv * x) % n;
    lemma_mul_mod_noop_left(inv * x, lead, n);
    assert((inv * x) * lead == x * (inv * lead)) by (nonlinear_arith);
    lemma_mul_mod_noop_right(x, inv * lead, n);
    lemma_mul_mod_noop_right(x, 1, n);
    assert(x * 1 == x);
    assert((d * lead) % n == x % n);
    lemma_sub_mod_noop(x, d * lead, n);
    lemma_small_mod(0, n as nat);
}

/// A unit can be cancelled: two residues with the same product with an
/// invertible `lead` are the same residue.
pub proof fn lemma_unit_cancel(x: int, y: int, lead: int, inv: int, n: int)
    requires
        0 < n,
        0 <= x < n,
        0 <= y < n,
        (inv * lead) % n == 1int % n,
        (x * lead) % n == (y * lead) % n,
    ensures
        x == y,
{
    // x == x * (lead * inv) == (x * lead) * inv, and the same for y.
    lemma_mul_mod_noop_right(x, inv * lead, n);
    lemma_mul_mod_noop_right(y, inv * lead, n);
    lemma_mul_mod_noop_right(x, 1, n);
    lemma_mul_mod_noop_right(y, 1, n);
    assert(x * 1 == x && y * 1 == y);
    assert(x * (inv * lead) == (x * lead) * inv) by (nonlinear_arith);
    assert(y * (inv * lead) == (y * lead) * inv) by (nonlinear_arith);
    lemma_mul_mod_noop_left(x * lead, inv, n);
    lemma_mul_mod_noop_left(y * lead, inv, n);
    lemma_small_mod(x as nat, n as nat);
    lemma_small_mod(y as nat, n as nat);
}

/// A multiple of `n` is a multiple of every divisor of `n`.
pub proof fn lemma_divisor_of_modulus(y: int, n: int, m: int)
    requires
        0 < m,
        0 < n,
        n % m == 0,
        y % n == 0,
    ensures
        y % m == 0,
{
    lemma_fundamental_div_mod(n, m);
    assert(n / m > 0) by (nonlinear_arith)
        requires
            n == m * (n / m),
            0 < n,
            0 < m,
    ;
    lemma_mod_mod(y, m, n / m);
    lemma_small_mod(0, m as nat);
}

/// An odd number is coprime to the power of two 512.
pub proof fn lemma_odd_coprime(a: int)
    requires
        0 <= a,
        a % 2 == 1,
    ensures
        gcd(a, 512) == 1,
{
    lemma_gcd_divides(a, 512);
    let g = gcd(a, 512);
    if g > 512 {
        lemma_small_mod(512, g as nat);
    }
    let gu = g as u32;
    assert(gu == 1 || gu % 2 == 0) by (bit_vector)
        requires
            0 < gu <= 512,
            512u32 % gu == 0,
    ;
    if g % 2 == 0 {
        lemma_fundamental_div_mod(g, 2);
        lemma_mod_mod(a, 2, g / 2);
    }
}

/// The extended Euclidean algorithm: the gcd of `x` and `y` with the Bezout
/// coefficients that produce it.
pub fn egcd(x: i64, y: i64) -> (r: (i64, i64, i64))
    requires
        0 <= x,
        0 <= y,
    ensures
        r.0 == gcd(x as int, y as int),
        (r.1 as int, r.2 as int) == bezout(x as int, y as int),
        r.0 == r.1 * x + r.2 * y,
        -(y as int) <= r.1 <= y || r.1 == 1,
{
    let ghost x0 = x as int;
    let ghost y0 = y as int;
    let mut x: i64 = x;
    let mut y: i64 = y;
    let mut a0: i64 = 1;
    let mut a1: i64 = 0;
    let mut b0: i64 = 0;
    let mut b1: i64 = 1;
    let ghost mut flip = false;
    while y != 0
        invariant
            0 <= x,
            0 <= y,
            0 <= x0 <= i64::MAX,
            0 <= y0 <= i64::MAX,
            gcd(x as int, y as int) == gcd(x0, y0),
            x == a0 * x0 + b0 * y0,
            y == a1 * x0 + b1 * y0,
            !flip ==> a0 >= 0 && a1 <= 0 && b0 <= 0 && b1 >= 0 && y0 == a0 * y - a1 * x && x0 == b1
                * x - b0 * y,
            flip ==> a0 <= 0 && a1 >= 0 && b0 >= 0 && b1 <= 0 && y0 == a1 * x - a0 * y && x0 == b0
                * y - b1 * x,
            -y0 <= a1 <= y0,
            -y0 <= a0 <= y0 || a0 == 1,
            bezout(x0, y0) == (
                bezout(x as int, y as int).0 * a0 + bezout(x as int, y as int).1 * a1,
                bezout(x as int, y as int).0 * b0 + bezout(x as int, y as int).1 * b1,
            ),
        decreases y,
    {
        let q: i64 = x / y;
        let r: i64 = x % y;
        proof {
            lemma_fundamental_div_mod(x as int, y as int);
            let (s, t) = bezout(y as int, r as int);
            let xi = x as int;
            let yi = y as int;
            let qi = q as int;
            let ri = r as int;
            let (a0i, a1i, b0i, b1i) = (a0 as int, a1 as int, b0 as int, b1 as int);
            assert(qi >= 0) by (nonlinear_arith)
                requires
                    xi == yi * qi + ri,
                    0 <= ri < yi,
                    0 <= xi,
            ;
            // The products below stay within the bounds that the sign pattern gives.
            if !flip {
                assert(-y0 <= qi * a1i <= 0 && 0 <= a0i - qi * a1i <= y0 && y0 == (a0i - qi * a1i)
                    * yi - a1i * ri) by (nonlinear_arith)
                    requires
                        xi == yi * qi + ri,
                        0 <= ri < yi,
                        qi >= 0,
                        a0i >= 0,
                        a1i <= 0,
                        y0 == a0i * yi - a1i * xi,
                ;
                assert(0 <= qi * b1i <= x0 && -x0 <= b0i - qi * b1i <= 0 && x0 == b1i * ri - (b0i
                    - qi * b1i) * yi) by (nonlinear_arith)
                    requires
                        xi == yi * qi + ri,
                        0 <= ri < yi,
                        qi >= 0,
                        b0i <= 0,
                        b1i >= 0,
                        x0 == b1i * xi - b0i * yi,
                ;
            } else {
                assert(0 <= qi * a1i <= y0 && -y0 <= a0i - qi * a1i <= 0 && y0 == a1i * ri - (a0i
                    - qi * a1i) * yi) by (nonlinear_arith)
                    requires
                        xi == yi * qi + ri,
                        0 <= ri < yi,
                        qi >= 0,
                        a0i <= 0,
                        a1i >= 0,
                        y0 == a1i * xi - a0i * yi,
                ;
                assert(-x0 <= qi * b1i <= 0 && 0 <= b0i - qi * b1i <= x0 && x0 == (b0i - qi * b1i)
                    * yi - b1i * ri) by (nonlinear_arith)
                    requires
                        xi == yi * qi + ri,
                        0 <= ri < yi,
                        qi >= 0,
                        b0i >= 0,
                        b1i <= 0,
                        x0 == b0i * yi - b1i * xi,
                ;
            }
            assert(ri == (a0i - qi * a1i) * x0 + (b0i - qi * b1i) * y0) by (nonlinear_arith)
                requires
                    xi == yi * qi + ri,
                    xi == a0i * x0 + b0i * y0,
                    yi == a1i * x0 + b1i * y0,
            ;
            // bezout(x, y) == (t, s - q * t), so the combination carries over.
            assert(t * a0i + (s - qi * t) * a1i == s * a1i + t * (a0i - qi * a1i))
                by (nonlinear_arith);
            assert(t * b0i + (s - qi * t) * b1i == s * b1i + t * (b0i - qi * b1i))
                by (nonlinear_arith);
        }
        let c: i64 = a0 - q * a1;
        let d: i64 = b0 - q * b1;
        x = y;
        y = r;
        a0 = a1;
        a1 = c;
        b0 = b1;
        b1 = d;
        proof {
            flip = !flip;
        }
    }
    (x, a0, b0)
}

/// The inverse of `a` modulo `m`, where one exists: the first Bezout
/// coefficient of `(a, m)` brought into `[0, m)`.
pub fn mod_inv(a: i64, m: i64) -> (r: i64)
    requires
        0 <= a,
        0 < m,
    ensures
        r == inverse_mod(a as int, m as int),
        0 <= r < m,
        gcd(a as int, m as int) == 1 ==> (a * r) % (m as int) == 1int % (m as int),
{
    let (_g, s, _t) = egcd(a, m);
    proof {
        if gcd(a as int, m as int) == 1 {
            lemma_inverse_mod(a as int, m as int);
        }
        lemma_mod_bound(s as int, m as int);
    }
    if s >= 0 {
        s % m
    } else {
        let t: i64 = (-s) % m;
        proof {
            lemma_fundamental_div_mod(-(s as int), m as int);
            let k = (-(s as int)) / (m as int);
            if t == 0 {
                assert(s as int == (-k) * m + 0) by (nonlinear_arith)
                    requires
                        -(s as int) == m * k,
                ;
                lemma_fundamental_div_mod_converse(s as int, m as int, -k, 0);
            } else {
                assert(s as int == (-k - 1) * m + (m - t)) by (nonlinear_arith)
                    requires
                        -(s as int) == m * k + t,
                ;
                lemma_fundamental_div_mod_converse(s as int, m as int, -k - 1, m - t);
            }
        }
        if t == 0 {
            0
        } else {
            m - t
        }
    }
}

} // verus!
