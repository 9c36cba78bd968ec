//! Polynomials over the integers modulo a fixed modulus, as coefficient
//! vectors with the constant term first.

use vstd::prelude::*;
use vstd::arithmetic::div_mod::{
    lemma_add_mod_noop,
    lemma_fundamental_div_mod,
    lemma_fundamental_div_mod_converse,
    lemma_mod_bound,
    lemma_small_mod,
};
use crate::arith::{inverse_mod, mod_inv};
use crate::error::CipherError;
use crate::ring::{
    coef,
    conv,
    conv_sum,
    div_count,
    div_quot,
    div_rem,
    div_steps,
    lemma_div_quot_reduced,
    lemma_div_steps_reduced,
    lemma_division_identity,
    lemma_remainder_degree,
    poly_mul,
    reduced,
    step_digit,
    sub_row,
    EXT_MODULUS,
};

verus! {

/// A polynomial with coefficients modulo `p`; `data[i]` is the coefficient
/// of degree `i`.
#[derive(Debug, PartialEq, Eq)]
pub struct Polynomial {
    pub data: Vec<i64>,
    pub p: i64,
}

/// What a `Polynomial` stands for: its coefficients and its modulus as
/// mathematical integers.
pub struct PolyModel {
    pub coeffs: Seq<int>,
    pub modulus: int,
}

/// The entries of a vector of machine integers as mathematical integers.
pub open spec fn ints(s: Seq<i64>) -> Seq<int> {
    Seq::new(s.len(), |i: int| s[i] as int)
}

impl PolyModel {
    /// A ring element has at least one coefficient, a positive modulus, and
    /// every coefficient in `[0, modulus)`.
    pub open spec fn wf(self) -> bool {
        &&& self.coeffs.len() >= 1
        &&& self.modulus >= 1
        &&& reduced(self.coeffs, self.modulus)
    }
}

impl View for Polynomial {
    type V = PolyModel;

    open spec fn view(&self) -> PolyModel {
        PolyModel { coeffs: ints(self.data@), modulus: self.p as int }
    }
}

impl Clone for Polynomial {
    fn clone(&self) -> (r: Self)
        ensures
            r@ == self@,
            r.data@ == self.data@,
            r.p == self.p,
    {
        Polynomial { data: copy_of(&self.data), p: self.p }
    }
}

/// A vector of `n` zeros.
pub(crate) fn zeros(n: usize) -> (v: Vec<i64>)
    ensures
        v@.len() == n,
        forall|i: int| 0 <= i < n ==> v@[i] == 0,
{
    let mut v: Vec<i64> = Vec::new();
    let mut i: usize = 0;
    while i < n
        invariant
            i <= n,
            v@.len() == i,
            forall|j: int| 0 <= j < i ==> v@[j] == 0,
        decreases n - i,
    {
        v.push(0);
        i = i + 1;
    }
    v
}

/// Appends `n` zeros to `v`.
pub(crate) fn pad_zeros(v: &mut Vec<i64>, n: usize)
    ensures
        final(v)@ == old(v)@ + Seq::new(n as nat, |i: int| 0i64),
{
    let mut i: usize = 0;
    while i < n
        invariant
            i <= n,
            v@ == old(v)@ + Seq::new(i as nat, |j: int| 0i64),
        decreases n - i,
    {
        v.push(0);
        i = i + 1;
        assert(v@ =~= old(v)@ + Seq::new(i as nat, |j: int| 0i64));
    }
}

/// A copy of a coefficient vector.
pub(crate) fn copy_of(v: &Vec<i64>) -> (r: Vec<i64>)
    ensures
        r@ == v@,
{
    let mut r: Vec<i64> = Vec::new();
    let mut i: usize = 0;
    while i < v.len()
        invariant
            i <= v.len(),
            r@.len() == i,
            forall|j: int| 0 <= j < i ==> r@[j] == v@[j],
        decreases v.len() - i,
    {
        r.push(v[i]);
        i = i + 1;
    }
    assert(r@ =~= v@);
    r
}

/// The residue of `v` modulo `m` in `[0, m)`, also for a negative `v`.
pub(crate) fn mod_floor(v: i128, m: i64) -> (r: i64)
    requires
        0 < m,
        v > i128::MIN,
    ensures
        r == (v as int) % (m as int),
        0 <= r < m,
{
    let wide: i128 = m as i128;
    proof {
        lemma_mod_bound(v as int, m as int);
    }
    if v >= 0 {
        (v % wide) as i64
    } else {
        let t: i128 = (-v) % wide;
        proof {
            lemma_fundamental_div_mod(-(v as int), m as int);
            let k = (-(v as int)) / (m as int);
            if t == 0 {
                assert(v as int == (-k) * m + 0) by (nonlinear_arith)
                    requires
                        -(v as int) == m * k,
                ;
                lemma_fundamental_div_mod_converse(v as int, m as int, -k, 0);
            } else {
                assert(v as int == (-k - 1) * m + (m - t)) by (nonlinear_arith)
                    requires
                        -(v as int) == m * k + t,
                ;
                lemma_fundamental_div_mod_converse(v as int, m as int, -k - 1, m - t);
            }
        }
        if t == 0 {
            0
        } else {
            (wide - t) as i64
        }
    }
}

/// Adds `c` times `row`, shifted up by `shift` places, to `acc` modulo `m`.
pub(crate) fn add_scaled_row(acc: &mut Vec<i64>, row: &Vec<i64>, shift: usize, c: i64, m: i64)
    requires
        0 < m,
        shift + row.len() <= old(acc).len(),
        c > i64::MIN,
        forall|i: int| 0 <= i < row.len() ==> row@[i] > i64::MIN,
    ensures
        final(acc)@.len() == old(acc)@.len(),
        forall|t: int|
            0 <= t < old(acc)@.len() ==> #[trigger] final(acc)@[t] == if shift <= t < shift
                + row.len() {
                (old(acc)@[t] + c * row@[t - shift]) % (m as int)
            } else {
                old(acc)@[t] as int
            },
{
    let mut j: usize = 0;
    while j < row.len()
        invariant
            0 < m,
            j <= row.len(),
            shift + row.len() <= acc.len(),
            acc.len() == old(acc).len(),
            c > i64::MIN,
            forall|i: int| 0 <= i < row.len() ==> row@[i] > i64::MIN,
            forall|t: int|
                0 <= t < acc@.len() ==> #[trigger] acc@[t] == if shift <= t < shift + j {
                    (old(acc)@[t] + c * row@[t - shift]) % (m as int)
                } else {
                    old(acc)@[t] as int
                },
        decreases row.len() - j,
    {
        let x: i128 = acc[shift + j] as i128;
        let y: i128 = row[j] as i128;
        assert(-0x4000_0000_0000_0000_0000_0000_0000_0000 < c * y
            < 0x4000_0000_0000_0000_0000_0000_0000_0000) by (nonlinear_arith)
            requires
                -0x8000_0000_0000_0000 < c < 0x8000_0000_0000_0000,
                -0x8000_0000_0000_0000 < y < 0x8000_0000_0000_0000,
        ;
        let v: i128 = x + (c as i128) * y;
        let r: i64 = mod_floor(v, m);
        acc.set(shift + j, r);
        j = j + 1;
    }
}

impl Polynomial {
    /// Whether this is a ring element: see `PolyModel::wf`.
    pub open spec fn wf(&self) -> bool {
        self@.wf()
    }

    /// The stored coefficients of a ring element lie in `[0, p)`.
    pub proof fn lemma_coefficients(&self)
        requires
            self.wf(),
        ensures
            forall|i: int| 0 <= i < self.data@.len() ==> 0 <= #[trigger] self.data@[i] < self.p,
    {
        assert forall|i: int| 0 <= i < self.data@.len() implies 0 <= #[trigger] self.data@[i]
            < self.p by {
            assert(self@.coeffs[i] == self.data@[i]);
        }
    }

    /// The polynomial with the given coefficients and modulus. It is a
    /// ring element if the coefficients are at least one and lie in
    /// `[0, p)`; `is_valid` tells.
    pub fn new(data: Vec<i64>, p: i64) -> (r: Self)
        ensures
            r.data == data,
            r.p == p,
            r@.coeffs == ints(data@),
            r@.modulus == p,
    {
        Polynomial { data, p }
    }

    /// The degree: one less than the number of coefficients.
    pub fn deg(&self) -> (d: usize)
        requires
            self.data@.len() >= 1,
        ensures
            d == self.data@.len() - 1,
    {
        self.data.len() - 1
    }

    /// The product of two polynomials, which have to be over the same ring.
    /// That the product is commutative and associative is shown in
    /// `product_laws`.
    pub fn mult(&self, other: &Polynomial) -> (r: Result<Polynomial, CipherError>)
        requires
            self.wf(),
            other.wf(),
        ensures
            match r {
                Ok(prod) => {
                    &&& self.p == other.p
                    &&& prod.wf()
                    &&& prod@.modulus == self@.modulus
                    &&& prod@.coeffs == poly_mul(self@.coeffs, other@.coeffs, self@.modulus)
                },
                Err(e) => self.p != other.p && e == CipherError::RingMismatch,
            },
    {
        if self.p != other.p {
            return Err(CipherError::RingMismatch);
        }
        Ok(self.product(other))
    }

    /// The product of two polynomials over one ring: the convolution of
    /// their coefficients, reduced.
    pub fn product(&self, other: &Polynomial) -> (prod: Polynomial)
        requires
            self.wf(),
            other.wf(),
            self.p == other.p,
        ensures
            prod.wf(),
            prod@.modulus == self@.modulus,
            prod@.coeffs == poly_mul(self@.coeffs, other@.coeffs, self@.modulus),
    {
        let n: usize = self.data.len();
        let mut res: Vec<i64> = zeros(n - 1);
        pad_zeros(&mut res, other.data.len());
        let ghost a = self@.coeffs;
        let ghost b = other@.coeffs;
        let ghost m = self.p as int;
        proof {
            lemma_small_mod(0, m as nat);
            self.lemma_coefficients();
            other.lemma_coefficients();
        }
        let mut i: usize = 0;
        while i < n
            invariant
                i <= n,
                n == self.data@.len(),
                self.wf(),
                other.wf(),
                self.p == other.p,
                a == self@.coeffs,
                b == other@.coeffs,
                m == self.p as int,
                res@.len() == n + other.data@.len() - 1,
                forall|j: int| 0 <= j < n ==> 0 <= #[trigger] self.data@[j] < self.p,
                forall|j: int| 0 <= j < other.data@.len() ==> 0 <= #[trigger] other.data@[j] < other.p,
                forall|t: int|
                    0 <= t < res@.len() ==> #[trigger] res@[t] == conv_sum(a, b, t, 0, i as int)
                        % m,
            decreases n - i,
        {
            let ghost before = res@;
            add_scaled_row(&mut res, &other.data, i, self.data[i], self.p);
            proof {
                assert forall|t: int| 0 <= t < res@.len() implies #[trigger] res@[t] == conv_sum(
                    a,
                    b,
                    t,
                    0,
                    i + 1,
                ) % m by {
                    let prev = conv_sum(a, b, t, 0, i as int);
                    let term = coef(a, i as int) * coef(b, t - i);
                    assert(before[t] == prev % m);
                    assert(a[i as int] == self.data@[i as int]);
                    if i <= t < i + other.data@.len() {
                        assert(b[t - i] == other.data@[t - i]);
                        lemma_add_mod_noop(prev, term, m);
                        lemma_add_mod_noop(prev % m, term, m);
                        lemma_mod_bound(prev, m);
                        lemma_small_mod((prev % m) as nat, m as nat);
                    } else {
                        assert(term == 0) by (nonlinear_arith)
                            requires
                                term == coef(a, i as int) * coef(b, t - i),
                                coef(b, t - i) == 0,
                        ;
                        lemma_mod_bound(prev, m);
                        lemma_small_mod((prev % m) as nat, m as nat);
                    }
                }
            }
            i = i + 1;
        }
        proof {
            assert forall|t: int| 0 <= t < res@.len() implies 0 <= #[trigger] ints(res@)[t] < m by {
                lemma_mod_bound(conv(a, b, t), m);
            }
            assert(ints(res@) =~= poly_mul(a, b, m));
        }
        Polynomial { data: res, p: self.p }
    }

    /// Long division of `self` by `other`: the remainder, with as many
    /// coefficients as `self`, and the quotient's coefficients, lowest
    /// degree first. Each step scales by the inverse of the divisor's leading
    /// coefficient modulo 512, so that coefficient has to be odd as soon as
    /// there is a step to take.
    pub fn rem(&self, other: &Polynomial) -> (r: Result<(Polynomial, Vec<i64>), CipherError>)
        requires
            self.wf(),
            other.wf(),
        ensures
            match r {
                Ok((rest, quot)) => {
                    &&& self.p == other.p
                    &&& self.data@.len() >= other.data@.len() ==> other@.coeffs.last() % 2 == 1
                    &&& rest.wf()
                    &&& rest@.modulus == self@.modulus
                    &&& rest@.coeffs == div_rem(self@.coeffs, other@.coeffs, self@.modulus)
                    &&& ints(quot@) == div_quot(self@.coeffs, other@.coeffs, self@.modulus)
                    &&& rest@.coeffs.len() == self@.coeffs.len()
                    &&& quot@.len() == div_count(self@.coeffs.len(), other@.coeffs.len())
                    &&& reduced(ints(quot@), EXT_MODULUS as int)
                    &&& forall|t: int|
                        0 <= t < self@.coeffs.len() ==> #[trigger] self@.coeffs[t] == (
                        rest@.coeffs[t] + conv(ints(quot@), other@.coeffs, t)) % self@.modulus
                    &&& (EXT_MODULUS as int) % self@.modulus == 0 ==> forall|t: int|
                        other@.coeffs.len() - 1 <= t < self@.coeffs.len()
                            ==> #[trigger] rest@.coeffs[t] == 0
                },
                Err(e) => if self.p != other.p {
                    e == CipherError::RingMismatch
                } else {
                    &&& self.data@.len() >= other.data@.len()
                    &&& other@.coeffs.last() % 2 == 0
                    &&& e == CipherError::NonInvertibleLeadingCoefficient
                },
            },
    {
        if self.p != other.p {
            return Err(CipherError::RingMismatch);
        }
        let n: usize = self.data.len();
        let kl: usize = other.data.len();
        let ghost w = self@.coeffs;
        let ghost k = other@.coeffs;
        let ghost m = self.p as int;
        proof {
            self.lemma_coefficients();
            other.lemma_coefficients();
            lemma_division_identity(w, k, m);
        }
        if n < kl {
            let rest = self.clone();
            proof {
                assert(rest@.coeffs =~= div_rem(w, k, m));
                assert(ints(Seq::<i64>::empty()) =~= div_quot(w, k, m));
            }
            return Ok((rest, Vec::new()));
        }
        let lead: i64 = other.data[kl - 1];
        assert(k.last() == lead);
        if lead % 2 == 0 {
            return Err(CipherError::NonInvertibleLeadingCoefficient);
        }
        let inv: i64 = mod_inv(lead, EXT_MODULUS);
        let count: usize = n - kl + 1;
        let mut res: Vec<i64> = copy_of(&self.data);
        let mut quot: Vec<i64> = zeros(count);
        let mut c: usize = 0;
        assert(ints(res@) =~= div_steps(w, k, m, 0));
        while c < count
            invariant
                c <= count,
                count == n - kl + 1,
                count == div_count(w.len(), k.len()),
                1 <= kl <= n,
                n == self.data@.len(),
                kl == other.data@.len(),
                w == self@.coeffs,
                k == other@.coeffs,
                m == self.p as int,
                1 <= m,
                reduced(w, m),
                0 <= inv < EXT_MODULUS,
                inv == inverse_mod(k.last(), EXT_MODULUS as int),
                forall|j: int| 0 <= j < kl ==> 0 <= #[trigger] other.data@[j] < other.p,
                res@.len() == n,
                quot@.len() == count,
                ints(res@) == div_steps(w, k, m, c as nat),
                forall|s: int|
                    count - c <= s < count ==> #[trigger] quot@[s] == div_quot(w, k, m)[s],
            decreases count - c,
        {
            let s: usize = count - 1 - c;
            let ghost prev = ints(res@);
            proof {
                lemma_div_steps_reduced(w, k, m, c as nat);
                assert(prev[s + kl - 1] == res@[s + kl - 1]);
            }
            let top: i64 = res[s + kl - 1];
            assert(0 <= inv * top < 0x4000_0000_0000_0000_0000_0000_0000_0000) by (nonlinear_arith)
                requires
                    0 <= inv < 512,
                    0 <= top < 0x8000_0000_0000_0000,
            ;
            let d: i64 = mod_floor((inv as i128) * (top as i128), EXT_MODULUS);
            assert(d == step_digit(prev, k, s as int));
            quot.set(s, d);
            add_scaled_row(&mut res, &other.data, s, -d, self.p);
            proof {
                assert forall|t: int| 0 <= t < n implies #[trigger] ints(res@)[t] == sub_row(
                    prev,
                    k,
                    s as int,
                    d as int,
                    m,
                )[t] by {
                    if s <= t < s + kl {
                        assert(k[t - s] == other.data@[t - s]);
                        assert((-d) * other.data@[t - s] == -(d * k[t - s])) by (nonlinear_arith)
                            requires
                                k[t - s] == other.data@[t - s],
                        ;
                    } else {
                        assert(d * coef(k, t - s) == 0) by (nonlinear_arith)
                            requires
                                coef(k, t - s) == 0,
                        ;
                        lemma_small_mod(prev[t] as nat, m as nat);
                    }
                }
                assert(ints(res@) =~= sub_row(prev, k, s as int, d as int, m));
                assert(div_steps(w, k, m, (c + 1) as nat) == sub_row(
                    prev,
                    k,
                    s as int,
                    d as int,
                    m,
                ));
            }
            c = c + 1;
        }
        proof {
            assert(ints(quot@) =~= div_quot(w, k, m));
            lemma_div_quot_reduced(w, k, m);
            if (EXT_MODULUS as int) % m == 0 {
                lemma_remainder_degree(w, k, m);
            }
        }
        Ok((Polynomial { data: res, p: self.p }, quot))
    }

    /// Reinterprets the coefficients under a larger modulus `p`, which has
    /// to be a positive multiple of the current one.
    pub fn extend(&mut self, p: i64) -> (r: Result<(), CipherError>)
        requires
            old(self).wf(),
        ensures
            final(self).data@ == old(self).data@,
            match r {
                Ok(()) => 0 < p && p % old(self).p == 0 && final(self).p == p && final(self).wf(),
                Err(e) => {
                    &&& !(0 < p && p % old(self).p == 0)
                    &&& e == CipherError::InvalidModulusExtension
                    &&& final(self).p == old(self).p
                },
            },
    {
        if p <= 0 || p % self.p != 0 {
            return Err(CipherError::InvalidModulusExtension);
        }
        proof {
            self.lemma_coefficients();
            if p < self.p {
                lemma_small_mod(p as nat, self.p as nat);
            }
        }
        self.p = p;
        proof {
            assert forall|i: int| 0 <= i < self@.coeffs.len() implies 0 <= #[trigger] self@.coeffs[i]
                < self@.modulus by {
                assert(self@.coeffs[i] == self.data@[i]);
            }
        }
        Ok(())
    }

    /// Whether every coefficient lies in `[0, bound)`.
    pub fn coefficients_below(&self, bound: i64) -> (ok: bool)
        ensures
            ok == reduced(self@.coeffs, bound as int),
    {
        let mut i: usize = 0;
        while i < self.data.len()
            invariant
                i <= self.data@.len(),
                forall|j: int| 0 <= j < i ==> 0 <= #[trigger] self@.coeffs[j] < bound,
            decreases self.data@.len() - i,
        {
            if self.data[i] < 0 || self.data[i] >= bound {
                assert(!(0 <= self@.coeffs[i as int] < bound));
                return false;
            }
            i = i + 1;
        }
        true
    }

    /// Whether the stored values form a ring element.
    pub fn is_valid(&self) -> (ok: bool)
        ensures
            ok == self.wf(),
    {
        self.data.len() >= 1 && self.p >= 1 && self.coefficients_below(self.p)
    }
}

} // verus!
