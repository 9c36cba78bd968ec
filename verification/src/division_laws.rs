//! Long division modulo 512 by a polynomial with an odd leading coefficient
//! has one result only: quotient and remainder are fixed by the division law
//! and the remainder's degree.

use vstd::prelude::*;
use vstd::arithmetic::div_mod::{lemma_small_mod, lemma_sub_mod_noop};
use crate::arith::{inverse_mod, lemma_inverse_mod, lemma_odd_coprime, lemma_unit_cancel};
use crate::product_laws::lemma_conv_sum_split;
use crate::ring::{
    coef,
    conv,
    conv_sum,
    div_count,
    div_quot,
    div_rem,
    lemma_conv_sum_low,
    lemma_conv_sum_zero,
    lemma_div_quot_reduced,
    lemma_division_identity,
    lemma_remainder_degree,
    reduced,
    EXT_MODULUS,
};

verus! {

/// Whether `quot` and `rest` are a quotient and a remainder of `w` by `k`
/// modulo 512: of the right lengths, reduced, the remainder of lower degree
/// than `k`, and together with `k` making up `w`.
pub open spec fn divides_into(w: Seq<int>, k: Seq<int>, quot: Seq<int>, rest: Seq<int>) -> bool {
    &&& quot.len() == div_count(w.len(), k.len())
    &&& rest.len() == w.len()
    &&& reduced(quot, EXT_MODULUS as int)
    &&& reduced(rest, EXT_MODULUS as int)
    &&& forall|t: int| k.len() - 1 <= t < w.len() ==> #[trigger] rest[t] == 0
    &&& forall|t: int|
        0 <= t < w.len() ==> #[trigger] w[t] == (rest[t] + conv(quot, k, t)) % (EXT_MODULUS as int)
}

/// A partial convolution sum is the same for two first factors that agree
/// on the degrees it runs over.
proof fn lemma_conv_sum_agree(a: Seq<int>, a2: Seq<int>, b: Seq<int>, t: int, lo: int, hi: int)
    requires
        forall|i: int| lo <= i < hi ==> #[trigger] coef(a, i) == coef(a2, i),
    ensures
        conv_sum(a, b, t, lo, hi) == conv_sum(a2, b, t, lo, hi),
    decreases hi - lo,
{
    if lo < hi {
        lemma_conv_sum_agree(a, a2, b, t, lo, hi - 1);
        assert(coef(a, hi - 1) == coef(a2, hi - 1));
    }
}

/// The coefficient of a product with `k` at the degree that stands against
/// the quotient digit `s`: that digit times the leading coefficient of `k`,
/// and what the higher digits contribute.
proof fn lemma_conv_at_digit(q: Seq<int>, k: Seq<int>, s: int)
    requires
        k.len() >= 1,
        0 <= s < q.len(),
    ensures
        conv(q, k, s + k.len() - 1) == q[s] * k.last() + conv_sum(
            q,
            k,
            s + k.len() - 1,
            s + 1,
            q.len() as int,
        ),
{
    let t = s + k.len() - 1;
    lemma_conv_sum_split(q, k, t, 0, s, q.len() as int);
    assert forall|i: int| 0 <= i < s implies coef(q, i) == 0 || #[trigger] coef(k, t - i)
        == 0 by {}
    lemma_conv_sum_zero(q, k, t, 0, s);
    lemma_conv_sum_low(q, k, t, s, q.len() as int);
}

/// Two quotients of the same division agree from the digit `s` upwards.
proof fn lemma_quotients_agree(
    w: Seq<int>,
    k: Seq<int>,
    q1: Seq<int>,
    r1: Seq<int>,
    q2: Seq<int>,
    r2: Seq<int>,
    s: int,
)
    requires
        k.len() >= 1,
        0 <= k.last(),
        k.last() % 2 == 1,
        divides_into(w, k, q1, r1),
        divides_into(w, k, q2, r2),
        0 <= s <= q1.len(),
    ensures
        forall|i: int| s <= i < q1.len() ==> #[trigger] q1[i] == q2[i],
    decreases q1.len() - s,
{
    if s < q1.len() {
        lemma_quotients_agree(w, k, q1, r1, q2, r2, s + 1);
        let m = EXT_MODULUS as int;
        let t = s + k.len() - 1;
        let count = q1.len() as int;
        lemma_conv_at_digit(q1, k, s);
        lemma_conv_at_digit(q2, k, s);
        assert forall|i: int| s + 1 <= i < count implies #[trigger] coef(q1, i) == coef(q2, i) by {
            assert(q1[i] == q2[i]);
        }
        lemma_conv_sum_agree(q1, q2, k, t, s + 1, count);
        let higher = conv_sum(q1, k, t, s + 1, count);
        assert(r1[t] == 0 && r2[t] == 0);
        assert(w[t] == (r1[t] + conv(q1, k, t)) % m);
        assert(w[t] == (r2[t] + conv(q2, k, t)) % m);
        // Take the higher digits' part away on both sides.
        lemma_sub_mod_noop(q1[s] * k.last() + higher, higher, m);
        lemma_sub_mod_noop(q2[s] * k.last() + higher, higher, m);
        assert((q1[s] * k.last()) % m == (q2[s] * k.last()) % m);
        lemma_odd_coprime(k.last());
        lemma_inverse_mod(k.last(), m);
        lemma_unit_cancel(q1[s], q2[s], k.last(), inverse_mod(k.last(), m), m);
    }
}

/// Division has one result: any two pairs of quotient and remainder of `w`
/// by `k` are the same pair.
pub proof fn lemma_division_determined(
    w: Seq<int>,
    k: Seq<int>,
    q1: Seq<int>,
    r1: Seq<int>,
    q2: Seq<int>,
    r2: Seq<int>,
)
    requires
        k.len() >= 1,
        0 <= k.last(),
        k.last() % 2 == 1,
        divides_into(w, k, q1, r1),
        divides_into(w, k, q2, r2),
    ensures
        q1 == q2,
        r1 == r2,
{
    let m = EXT_MODULUS as int;
    lemma_quotients_agree(w, k, q1, r1, q2, r2, 0);
    assert(q1 =~= q2);
    assert forall|t: int| 0 <= t < w.len() implies #[trigger] r1[t] == r2[t] by {
        let whole = conv(q1, k, t);
        assert(w[t] == (r1[t] + whole) % m);
        assert(w[t] == (r2[t] + conv(q2, k, t)) % m);
        lemma_sub_mod_noop(r1[t] + whole, whole, m);
        lemma_sub_mod_noop(r2[t] + whole, whole, m);
        lemma_small_mod(r1[t] as nat, m as nat);
        lemma_small_mod(r2[t] as nat, m as nat);
    }
    assert(r1 =~= r2);
}

/// What `div_quot` and `div_rem` compute modulo 512 is the quotient and the
/// remainder, and there are no others.
pub proof fn lemma_division_unique(w: Seq<int>, k: Seq<int>, quot: Seq<int>, rest: Seq<int>)
    requires
        reduced(w, EXT_MODULUS as int),
        k.len() >= 1,
        0 <= k.last(),
        k.last() % 2 == 1,
    ensures
        divides_into(
            w,
            k,
            div_quot(w, k, EXT_MODULUS as int),
            div_rem(w, k, EXT_MODULUS as int),
        ),
        divides_into(w, k, quot, rest) ==> quot == div_quot(w, k, EXT_MODULUS as int) && rest
            == div_rem(w, k, EXT_MODULUS as int),
{
    let m = EXT_MODULUS as int;
    lemma_division_identity(w, k, m);
    lemma_div_quot_reduced(w, k, m);
    lemma_remainder_degree(w, k, m);
    if divides_into(w, k, quot, rest) {
        lemma_division_determined(w, k, quot, rest, div_quot(w, k, m), div_rem(w, k, m));
    }
}

} // verus!
