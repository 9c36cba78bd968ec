//! The round transform: one reversible mixing step of the cipher, and the
//! step that undoes it.

use vstd::prelude::*;
use vstd::arithmetic::div_mod::{lemma_mod_bound, lemma_small_mod};
use crate::error::CipherError;
use crate::graph::{key_of, keystream_of, Graph};
use crate::polynomials::{add_scaled_row, copy_of, ints, pad_zeros, PolyModel, Polynomial};
use crate::ring::{
    coef,
    conv,
    conv_sum,
    div_quot,
    div_rem,
    lemma_div_quot_reduced,
    lemma_division_identity,
    lemma_remainder_degree,
    reduced,
    EXT_MODULUS,
};

verus! {

/// Bitwise exclusive or, on the integers that fit a machine word.
pub open spec fn xor(a: int, b: int) -> int {
    ((a as i64) ^ (b as i64)) as int
}

/// `v` with each entry masked by the keystream value at the same position,
/// the keystream being repeated as often as needed.
pub open spec fn mask(v: Seq<int>, ks: Seq<int>) -> Seq<int> {
    Seq::new(v.len(), |i: int| xor(v[i], ks[i % (ks.len() as int)]))
}

/// A keystream that a round can use: not empty, with values in `[0, 512)`.
pub open spec fn usable_keystream(ks: Seq<int>) -> bool {
    ks.len() > 0 && reduced(ks, EXT_MODULUS as int)
}

/// `v` in reverse order in a round with an odd index, and as it is in one
/// with an even index.
pub open spec fn flip(v: Seq<int>, num: int) -> Seq<int> {
    if num % 2 == 1 {
        v.reverse()
    } else {
        v
    }
}

/// The state that the forward round with index `num` makes of `state`: mask,
/// divide by the key, put the quotient behind the low part of the remainder,
/// reverse in an odd round, mask again.
pub open spec fn round_forward(state: Seq<int>, key: Seq<int>, ks: Seq<int>, num: int) -> Seq<
    int,
> {
    let masked = mask(state, ks);
    let rest = div_rem(masked, key, EXT_MODULUS as int);
    let quot = div_quot(masked, key, EXT_MODULUS as int);
    mask(flip(rest.take(key.len() - 1) + quot, num), ks)
}

/// The polynomial `low + quot * key` modulo 512, with as many coefficients
/// as `low` and `quot` have together.
pub open spec fn rebuild(low: Seq<int>, quot: Seq<int>, key: Seq<int>) -> Seq<int> {
    Seq::new(
        low.len() + quot.len(),
        |t: int| (coef(low, t) + conv(quot, key, t)) % (EXT_MODULUS as int),
    )
}

/// The state that the inverse round with index `num` makes of `state`:
/// unmask, reverse in an odd round, split into low remainder and quotient,
/// multiply out, mask again.
pub open spec fn round_inverse(state: Seq<int>, key: Seq<int>, ks: Seq<int>, num: int) -> Seq<
    int,
> {
    let v = flip(mask(state, ks), num);
    let low = v.take(key.len() - 1);
    let quot = v.skip(key.len() - 1);
    mask(rebuild(low, quot, key), ks)
}

/// Why the forward round refuses a state, if it does: its modulus is not
/// 512; or it is shorter than the degree of the key; or there is a division
/// step to take and the key's leading coefficient is even.
pub open spec fn forward_failure(state: PolyModel, key: Seq<int>) -> Option<CipherError> {
    if state.modulus != EXT_MODULUS {
        Some(CipherError::RingMismatch)
    } else if state.coeffs.len() + 1 < key.len() {
        Some(CipherError::LengthMismatch)
    } else if state.coeffs.len() >= key.len() && key.last() % 2 == 0 {
        Some(CipherError::NonInvertibleLeadingCoefficient)
    } else {
        None
    }
}

/// Why the inverse round refuses a state, if it does: its modulus is not
/// 512, or it is shorter than the degree of the key.
pub open spec fn inverse_failure(state: PolyModel, key: Seq<int>) -> Option<CipherError> {
    if state.modulus != EXT_MODULUS {
        Some(CipherError::RingMismatch)
    } else if state.coeffs.len() + 1 < key.len() {
        Some(CipherError::LengthMismatch)
    } else {
        None
    }
}

/// Masking keeps values below 512 below 512, and masking twice with the
/// same value changes nothing.
pub proof fn lemma_xor(a: int, b: int)
    requires
        0 <= a < EXT_MODULUS,
        0 <= b < EXT_MODULUS,
    ensures
        0 <= xor(a, b) < EXT_MODULUS,
        xor(xor(a, b), b) == a,
{
    let x = a as i64;
    let y = b as i64;
    assert(0 <= (x ^ y) < 512 && ((x ^ y) ^ y) == x) by (bit_vector)
        requires
            0 <= x < 512,
            0 <= y < 512,
    ;
}

/// Masking a reduced state gives a reduced state of the same length, and
/// masking that again gives back the first.
pub proof fn lemma_mask(v: Seq<int>, ks: Seq<int>)
    requires
        reduced(v, EXT_MODULUS as int),
        usable_keystream(ks),
    ensures
        mask(v, ks).len() == v.len(),
        reduced(mask(v, ks), EXT_MODULUS as int),
        mask(mask(v, ks), ks) == v,
{
    let once = mask(v, ks);
    assert forall|i: int| 0 <= i < v.len() implies 0 <= #[trigger] once[i] < EXT_MODULUS && xor(
        once[i],
        ks[i % (ks.len() as int)],
    ) == v[i] by {
        lemma_mod_bound(i, ks.len() as int);
        lemma_xor(v[i], ks[i % (ks.len() as int)]);
    }
    assert(mask(once, ks) =~= v);
}

/// Reversal keeps a state reduced, and the reversal of a round is undone by
/// the reversal of the same round.
pub proof fn lemma_flip(v: Seq<int>, num: int)
    requires
        reduced(v, EXT_MODULUS as int),
    ensures
        flip(v, num).len() == v.len(),
        reduced(flip(v, num), EXT_MODULUS as int),
        flip(flip(v, num), num) == v,
{
    assert(v.reverse().reverse() =~= v);
    assert forall|i: int| 0 <= i < v.reverse().len() implies 0 <= #[trigger] v.reverse()[i]
        < EXT_MODULUS by {
        assert(v.reverse()[i] == v[v.len() - 1 - i]);
    }
}

/// The low part of the remainder with the quotient behind it is as long as
/// the dividend, and reduced.
proof fn lemma_joined(masked: Seq<int>, key: Seq<int>)
    requires
        reduced(masked, EXT_MODULUS as int),
        key.len() >= 1,
        masked.len() + 1 >= key.len(),
    ensures
        (div_rem(masked, key, EXT_MODULUS as int).take(key.len() - 1) + div_quot(
            masked,
            key,
            EXT_MODULUS as int,
        )).len() == masked.len(),
        reduced(
            div_rem(masked, key, EXT_MODULUS as int).take(key.len() - 1) + div_quot(
                masked,
                key,
                EXT_MODULUS as int,
            ),
            EXT_MODULUS as int,
        ),
{
    let rest = div_rem(masked, key, EXT_MODULUS as int);
    let quot = div_quot(masked, key, EXT_MODULUS as int);
    lemma_division_identity(masked, key, EXT_MODULUS as int);
    lemma_div_quot_reduced(masked, key, EXT_MODULUS as int);
    let joined = rest.take(key.len() - 1) + quot;
    assert forall|t: int| 0 <= t < joined.len() implies 0 <= #[trigger] joined[t]
        < EXT_MODULUS by {
        if t < key.len() - 1 {
            assert(joined[t] == rest[t]);
        } else {
            assert(joined[t] == quot[t - (key.len() - 1)]);
        }
    }
}

/// What the forward round produces is again a state: as long as the state
/// it was given, with coefficients in `[0, 512)`.
pub proof fn lemma_round_forward_state(state: Seq<int>, key: Seq<int>, ks: Seq<int>, num: int)
    requires
        reduced(state, EXT_MODULUS as int),
        key.len() >= 1,
        state.len() + 1 >= key.len(),
        usable_keystream(ks),
    ensures
        round_forward(state, key, ks, num).len() == state.len(),
        reduced(round_forward(state, key, ks, num), EXT_MODULUS as int),
{
    let masked = mask(state, ks);
    lemma_mask(state, ks);
    lemma_joined(masked, key);
    let joined = div_rem(masked, key, EXT_MODULUS as int).take(key.len() - 1) + div_quot(
        masked,
        key,
        EXT_MODULUS as int,
    );
    lemma_flip(joined, num);
    lemma_mask(flip(joined, num), ks);
}

/// The inverse round undoes the forward round: whenever the forward round
/// with index `num` accepts a state, the inverse round with the same key,
/// keystream and index turns its result back into that state.
pub proof fn lemma_round_inverts(state: Seq<int>, key: Seq<int>, ks: Seq<int>, num: int)
    requires
        reduced(state, EXT_MODULUS as int),
        key.len() >= 1,
        reduced(key, EXT_MODULUS as int),
        usable_keystream(ks),
        forward_failure(PolyModel { coeffs: state, modulus: EXT_MODULUS as int }, key) is None,
    ensures
        round_inverse(round_forward(state, key, ks, num), key, ks, num) == state,
{
    let m = EXT_MODULUS as int;
    let dk = key.len() - 1;
    let masked = mask(state, ks);
    lemma_mask(state, ks);
    let rest = div_rem(masked, key, m);
    let quot = div_quot(masked, key, m);
    lemma_division_identity(masked, key, m);
    if state.len() >= key.len() {
        lemma_remainder_degree(masked, key, m);
    }
    let joined = rest.take(dk) + quot;
    lemma_joined(masked, key);
    let turned = flip(joined, num);
    lemma_flip(joined, num);
    lemma_mask(turned, ks);
    let out = mask(turned, ks);
    assert(out == round_forward(state, key, ks, num));
    // Now the way back.
    assert(mask(out, ks) == turned);
    assert(flip(turned, num) == joined);
    assert(joined.take(dk) =~= rest.take(dk));
    assert(joined.skip(dk) =~= quot);
    let back = rebuild(rest.take(dk), quot, key);
    assert forall|t: int| 0 <= t < masked.len() implies #[trigger] back[t] == masked[t] by {
        if t < dk {
            assert(coef(rest.take(dk), t) == rest[t]);
        } else {
            assert(rest[t] == 0);
        }
    }
    assert(back =~= masked);
}

/// Masks every entry of `data` with the keystream value at the same
/// position, the keystream being repeated as often as needed.
pub fn apply_mask(data: &mut Vec<i64>, seq: &Vec<i64>)
    requires
        seq@.len() > 0,
    ensures
        final(data)@.len() == old(data)@.len(),
        ints(final(data)@) == mask(ints(old(data)@), ints(seq@)),
{
    let mut i: usize = 0;
    while i < data.len()
        invariant
            seq@.len() > 0,
            data@.len() == old(data)@.len(),
            i <= data@.len(),
            forall|j: int| 0 <= j < i ==> #[trigger] data@[j] == (old(data)@[j] ^ seq@[j % (
            seq@.len() as int)]),
            forall|j: int| i <= j < data@.len() ==> #[trigger] data@[j] == old(data)@[j],
        decreases data@.len() - i,
    {
        let masked: i64 = data[i] ^ seq[i % seq.len()];
        data.set(i, masked);
        i = i + 1;
    }
    proof {
        assert forall|j: int| 0 <= j < data@.len() implies #[trigger] ints(data@)[j] == mask(
            ints(old(data)@),
            ints(seq@),
        )[j] by {
            lemma_mod_bound(j, seq@.len() as int);
        }
        assert(ints(data@) =~= mask(ints(old(data)@), ints(seq@)));
    }
}

/// The first `len` entries of `v`.
fn front(v: &Vec<i64>, len: usize) -> (r: Vec<i64>)
    requires
        len <= v@.len(),
    ensures
        r@ == v@.take(len as int),
{
    let mut r: Vec<i64> = Vec::new();
    let mut i: usize = 0;
    while i < len
        invariant
            i <= len <= v@.len(),
            r@ == v@.take(i as int),
        decreases len - i,
    {
        r.push(v[i]);
        i = i + 1;
        assert(r@ =~= v@.take(i as int));
    }
    r
}

/// The entries of `v` from position `start` on.
fn back(v: &Vec<i64>, start: usize) -> (r: Vec<i64>)
    requires
        start <= v@.len(),
    ensures
        r@ == v@.skip(start as int),
{
    let mut r: Vec<i64> = Vec::new();
    let mut i: usize = start;
    while i < v.len()
        invariant
            start <= i <= v@.len(),
            r@ == v@.subrange(start as int, i as int),
        decreases v@.len() - i,
    {
        r.push(v[i]);
        i = i + 1;
        assert(r@ =~= v@.subrange(start as int, i as int));
    }
    assert(r@ =~= v@.skip(start as int));
    r
}

/// The entries of `v` in reverse order.
fn reversed(v: &Vec<i64>) -> (r: Vec<i64>)
    ensures
        r@ == v@.reverse(),
{
    let mut r: Vec<i64> = Vec::new();
    let mut i: usize = v.len();
    while i > 0
        invariant
            i <= v@.len(),
            r@.len() == v@.len() - i,
            forall|j: int| 0 <= j < r@.len() ==> #[trigger] r@[j] == v@[v@.len() - 1 - j],
        decreases i,
    {
        i = i - 1;
        r.push(v[i]);
    }
    assert(r@ =~= v@.reverse());
    r
}

/// The forward round with index `num` on a state, with a key polynomial
/// and a keystream given as they are.
pub fn forward_round(state: &Polynomial, key: &Polynomial, seq: &Vec<i64>, num: usize) -> (r:
    Result<Polynomial, CipherError>)
    requires
        state.wf(),
        key.wf(),
        key@.modulus == EXT_MODULUS,
        usable_keystream(ints(seq@)),
    ensures
        match r {
            Ok(next) => {
                &&& forward_failure(state@, key@.coeffs) is None
                &&& next.wf()
                &&& next@.modulus == EXT_MODULUS
                &&& next@.coeffs.len() == state@.coeffs.len()
                &&& next@.coeffs == round_forward(
                    state@.coeffs,
                    key@.coeffs,
                    ints(seq@),
                    num as int,
                )
            },
            Err(e) => forward_failure(state@, key@.coeffs) == Some(e),
        },
{
    if state.p != EXT_MODULUS {
        return Err(CipherError::RingMismatch);
    }
    let n: usize = state.data.len();
    let dk: usize = key.data.len() - 1;
    if n < dk {
        return Err(CipherError::LengthMismatch);
    }
    let ghost ks = ints(seq@);
    let mut before = state.clone();
    apply_mask(&mut before.data, seq);
    proof {
        lemma_mask(state@.coeffs, ks);
        lemma_joined(before@.coeffs, key@.coeffs);
    }
    let (rest, mut quot) = match before.rem(key) {
        Ok(parts) => parts,
        Err(e) => {
            return Err(e);
        },
    };
    let mut joined: Vec<i64> = front(&rest.data, dk);
    joined.append(&mut quot);
    let ghost joined_model = div_rem(before@.coeffs, key@.coeffs, EXT_MODULUS as int).take(
        dk as int,
    ) + div_quot(before@.coeffs, key@.coeffs, EXT_MODULUS as int);
    assert(ints(joined@) =~= joined_model);
    if num % 2 == 1 {
        joined = reversed(&joined);
        assert(ints(joined@) =~= joined_model.reverse());
    }
    proof {
        lemma_flip(joined_model, num as int);
        lemma_mask(flip(joined_model, num as int), ks);
    }
    apply_mask(&mut joined, seq);
    Ok(Polynomial::new(joined, EXT_MODULUS))
}

/// The inverse round with index `num` on a state, with a key polynomial
/// and a keystream given as they are.
pub fn inverse_round(state: &Polynomial, key: &Polynomial, seq: &Vec<i64>, num: usize) -> (r:
    Result<Polynomial, CipherError>)
    requires
        state.wf(),
        key.wf(),
        key@.modulus == EXT_MODULUS,
        usable_keystream(ints(seq@)),
    ensures
        match r {
            Ok(next) => {
                &&& inverse_failure(state@, key@.coeffs) is None
                &&& next.wf()
                &&& next@.modulus == EXT_MODULUS
                &&& next@.coeffs.len() == state@.coeffs.len()
                &&& next@.coeffs == round_inverse(
                    state@.coeffs,
                    key@.coeffs,
                    ints(seq@),
                    num as int,
                )
            },
            Err(e) => inverse_failure(state@, key@.coeffs) == Some(e),
        },
{
    if state.p != EXT_MODULUS {
        return Err(CipherError::RingMismatch);
    }
    let n: usize = state.data.len();
    let dk: usize = key.data.len() - 1;
    if n < dk {
        return Err(CipherError::LengthMismatch);
    }
    let ghost ks = ints(seq@);
    let ghost k = key@.coeffs;
    let ghost m = EXT_MODULUS as int;
    let mut data: Vec<i64> = copy_of(&state.data);
    apply_mask(&mut data, seq);
    let ghost unmasked = mask(state@.coeffs, ks);
    if num % 2 == 1 {
        data = reversed(&data);
        assert(ints(data@) =~= unmasked.reverse());
    }
    let ghost v = flip(unmasked, num as int);
    let ghost low = v.take(dk as int);
    let ghost q = v.skip(dk as int);
    proof {
        lemma_mask(state@.coeffs, ks);
        lemma_flip(unmasked, num as int);
        key.lemma_coefficients();
    }
    let quot: Vec<i64> = back(&data, dk);
    let mut res: Vec<i64> = front(&data, dk);
    pad_zeros(&mut res, n - dk);
    assert(ints(quot@) =~= q);
    let mut i: usize = 0;
    assert forall|t: int| 0 <= t < n implies #[trigger] res@[t] == (coef(low, t) + conv_sum(
        q,
        k,
        t,
        0,
        0,
    )) % m by {
        if t < dk {
            assert(low[t] == v[t]);
        }
        lemma_small_mod(coef(low, t) as nat, m as nat);
    }
    while i < n - dk
        invariant
            i <= n - dk,
            dk + 1 == key.data@.len(),
            res@.len() == n,
            quot@.len() == n - dk,
            q == ints(quot@),
            k == key@.coeffs,
            m == EXT_MODULUS,
            reduced(q, m),
            forall|j: int| 0 <= j < key.data@.len() ==> 0 <= #[trigger] key.data@[j] < key.p,
            forall|t: int|
                0 <= t < n ==> #[trigger] res@[t] == (coef(low, t) + conv_sum(q, k, t, 0, i as int))
                    % m,
        decreases n - dk - i,
    {
        let ghost prior = res@;
        assert(q[i as int] == quot@[i as int]);
        add_scaled_row(&mut res, &key.data, i, quot[i], EXT_MODULUS);
        proof {
            assert forall|t: int| 0 <= t < n implies #[trigger] res@[t] == (coef(low, t) + conv_sum(
                q,
                k,
                t,
                0,
                i + 1,
            )) % m by {
                let sofar = coef(low, t) + conv_sum(q, k, t, 0, i as int);
                let term = coef(q, i as int) * coef(k, t - i);
                assert(prior[t] == sofar % m);
                lemma_mod_bound(sofar, m);
                if i <= t < i + key.data@.len() {
                    assert(k[t - i] == key.data@[t - i]);
                    vstd::arithmetic::div_mod::lemma_add_mod_noop(sofar, term, m);
                    vstd::arithmetic::div_mod::lemma_add_mod_noop(sofar % m, term, m);
                    lemma_small_mod((sofar % m) as nat, m as nat);
                } else {
                    assert(term == 0) by (nonlinear_arith)
                        requires
                            term == coef(q, i as int) * coef(k, t - i),
                            coef(k, t - i) == 0,
                    ;
                    lemma_small_mod((sofar % m) as nat, m as nat);
                }
            }
        }
        i = i + 1;
    }
    proof {
        assert(ints(res@) =~= rebuild(low, q, k));
        assert forall|t: int| 0 <= t < n implies 0 <= #[trigger] ints(res@)[t] < m by {
            lemma_mod_bound(coef(low, t) + conv(q, k, t), m);
        }
        lemma_mask(ints(res@), ks);
    }
    apply_mask(&mut res, seq);
    Ok(Polynomial::new(res, EXT_MODULUS))
}

/// The forward round with index `num` under the key and the keystream of
/// the graph `g`.
pub fn get_round(p: Polynomial, g: Graph, num: usize) -> (r: Result<Polynomial, CipherError>)
    requires
        p.wf(),
        g@.edges.len() > 0,
    ensures
        match r {
            Ok(next) => {
                &&& forward_failure(p@, key_of(g@.edges)) is None
                &&& next.wf()
                &&& next@.modulus == EXT_MODULUS
                &&& next@.coeffs.len() == p@.coeffs.len()
                &&& next@.coeffs == round_forward(
                    p@.coeffs,
                    key_of(g@.edges),
                    keystream_of(g@.edges),
                    num as int,
                )
            },
            Err(e) => forward_failure(p@, key_of(g@.edges)) == Some(e),
        },
{
    let seq = g.expand_sequence();
    let key = g.generate_key();
    forward_round(&p, &key, &seq, num)
}

/// The inverse round with index `num` under the key and the keystream of
/// the graph `g`.
pub fn get_round_inv(p: Polynomial, g: Graph, num: usize) -> (r: Result<Polynomial, CipherError>)
    requires
        p.wf(),
        g@.edges.len() > 0,
    ensures
        match r {
            Ok(next) => {
                &&& inverse_failure(p@, key_of(g@.edges)) is None
                &&& next.wf()
                &&& next@.modulus == EXT_MODULUS
                &&& next@.coeffs.len() == p@.coeffs.len()
                &&& next@.coeffs == round_inverse(
                    p@.coeffs,
                    key_of(g@.edges),
                    keystream_of(g@.edges),
                    num as int,
                )
            },
            Err(e) => inverse_failure(p@, key_of(g@.edges)) == Some(e),
        },
{
    let seq = g.expand_sequence();
    let key = g.generate_key();
    inverse_round(&p, &key, &seq, num)
}

} // verus!
