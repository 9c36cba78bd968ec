//! The cipher: a plaintext is masked, mapped to odd residues and put
//! through the rounds; decryption takes the same steps back.

use vstd::prelude::*;
use vstd::arithmetic::div_mod::{lemma_mod_bound, lemma_small_mod};
use crate::affine::{
    inv_substitute,
    lemma_odd_map_inverts,
    odd_map,
    odd_unmap,
    substitute,
};
use crate::error::CipherError;
use crate::graph::{
    key_of,
    keystream_of,
    lemma_key_of,
    lemma_keystream_of,
    Graph,
    BASE_MODULUS,
};
use crate::polynomials::{ints, PolyModel, Polynomial};
use crate::ring::{reduced, EXT_MODULUS};
use crate::round::{
    forward_failure,
    forward_round,
    inverse_round,
    lemma_round_forward_state,
    lemma_round_inverts,
    round_forward,
    round_inverse,
    usable_keystream,
    xor,
};

verus! {

/// The number of rounds that `encrypt` and `decrypt` apply.
pub const ROUNDS: usize = 8;

/// The state that encryption starts its rounds from: each plaintext
/// coefficient masked with the keystream and sent through the odd affine
/// map.
pub open spec fn premix(pt: Seq<int>, ks: Seq<int>) -> Seq<int> {
    Seq::new(pt.len(), |i: int| odd_map(xor(pt[i], ks[i % (ks.len() as int)])))
}

/// The plaintext that decryption makes of the state behind its rounds: each
/// coefficient sent back through the odd affine map, reduced modulo 256 and
/// unmasked.
pub open spec fn unmix(state: Seq<int>, ks: Seq<int>) -> Seq<int> {
    Seq::new(
        state.len(),
        |i: int| xor(odd_unmap(state[i]) % (BASE_MODULUS as int), ks[i % (ks.len() as int)]),
    )
}

/// Whether every coefficient is odd.
pub open spec fn all_odd(s: Seq<int>) -> bool {
    forall|i: int| 0 <= i < s.len() ==> #[trigger] s[i] % 2 == 1
}

/// The state after the forward rounds `0, 1, .., count - 1`.
pub open spec fn rounds_forward(state: Seq<int>, key: Seq<int>, ks: Seq<int>, count: nat) -> Seq<
    int,
>
    decreases count,
{
    if count == 0 {
        state
    } else {
        round_forward(rounds_forward(state, key, ks, (count - 1) as nat), key, ks, count - 1)
    }
}

/// The state after the inverse rounds `count - 1, .., 1, 0`.
pub open spec fn rounds_inverse(state: Seq<int>, key: Seq<int>, ks: Seq<int>, count: nat) -> Seq<
    int,
>
    decreases count,
{
    if count == 0 {
        state
    } else {
        rounds_inverse(round_inverse(state, key, ks, count - 1), key, ks, (count - 1) as nat)
    }
}

/// The ciphertext coefficients of a plaintext under the key and keystream
/// of a list of edges.
pub open spec fn ciphertext_of(pt: Seq<int>, edges: Seq<(int, int)>, rounds: nat) -> Seq<int> {
    rounds_forward(premix(pt, keystream_of(edges)), key_of(edges), keystream_of(edges), rounds)
}

/// The state that decryption reaches behind its rounds, before it maps the
/// coefficients back.
pub open spec fn unwound(ct: Seq<int>, edges: Seq<(int, int)>, rounds: nat) -> Seq<int> {
    rounds_inverse(ct, key_of(edges), keystream_of(edges), rounds)
}

/// The plaintext coefficients of a ciphertext under the key and keystream
/// of a list of edges.
pub open spec fn plaintext_of(ct: Seq<int>, edges: Seq<(int, int)>, rounds: nat) -> Seq<int> {
    unmix(unwound(ct, edges, rounds), keystream_of(edges))
}

/// Why encryption refuses a plaintext, if it does: 512 is not a multiple of
/// its modulus, or there is a round to apply and the plaintext has fewer
/// coefficients than the degree of the key, which is twice the number of
/// edges.
pub open spec fn encrypt_failure(pt: PolyModel, edges: Seq<(int, int)>, rounds: nat) -> Option<
    CipherError,
> {
    if (EXT_MODULUS as int) % pt.modulus != 0 {
        Some(CipherError::InvalidModulusExtension)
    } else if rounds > 0 && pt.coeffs.len() < 2 * edges.len() {
        Some(CipherError::LengthMismatch)
    } else {
        None
    }
}

/// Why decryption refuses a ciphertext, if it does: its modulus is not 512;
/// or there is a round to undo and it has fewer coefficients than the degree
/// of the key; or the state behind the rounds has an even coefficient, which
/// the odd affine map never produces.
pub open spec fn decrypt_failure(ct: PolyModel, edges: Seq<(int, int)>, rounds: nat) -> Option<
    CipherError,
> {
    if ct.modulus != EXT_MODULUS {
        Some(CipherError::RingMismatch)
    } else if rounds > 0 && ct.coeffs.len() < 2 * edges.len() {
        Some(CipherError::LengthMismatch)
    } else if !all_odd(unwound(ct.coeffs, edges, rounds)) {
        Some(CipherError::OddnessViolation)
    } else {
        None
    }
}

/// Masking values below 256 with values below 256 keeps them below 256.
proof fn lemma_xor_base(a: int, b: int)
    requires
        0 <= a < BASE_MODULUS,
        0 <= b < BASE_MODULUS,
    ensures
        0 <= xor(a, b) < BASE_MODULUS,
        xor(xor(a, b), b) == a,
{
    let x = a as i64;
    let y = b as i64;
    assert(0 <= (x ^ y) < 256 && ((x ^ y) ^ y) == x) by (bit_vector)
        requires
            0 <= x < 256,
            0 <= y < 256,
    ;
}

/// The state that encryption starts from is a state with odd coefficients
/// only, and `unmix` makes the plaintext of it.
pub proof fn lemma_premix(pt: Seq<int>, ks: Seq<int>)
    requires
        reduced(pt, BASE_MODULUS as int),
        ks.len() > 0,
        reduced(ks, BASE_MODULUS as int),
    ensures
        premix(pt, ks).len() == pt.len(),
        reduced(premix(pt, ks), EXT_MODULUS as int),
        all_odd(premix(pt, ks)),
        unmix(premix(pt, ks), ks) == pt,
{
    let st = premix(pt, ks);
    assert forall|i: int| 0 <= i < pt.len() implies 0 <= #[trigger] st[i] < EXT_MODULUS && st[i] % 2
        == 1 && unmix(st, ks)[i] == pt[i] by {
        let k = ks[i % (ks.len() as int)];
        lemma_mod_bound(i, ks.len() as int);
        lemma_xor_base(pt[i], k);
        lemma_odd_map_inverts(xor(pt[i], k));
        lemma_small_mod(xor(pt[i], k) as nat, BASE_MODULUS as nat);
    }
    assert(unmix(st, ks) =~= pt);
}

/// The forward rounds keep a state a state of the same length, and the
/// inverse rounds, applied to what the forward rounds made, give back the
/// state that the forward rounds started from.
pub proof fn lemma_rounds_invert(state: Seq<int>, key: Seq<int>, ks: Seq<int>, count: nat)
    requires
        reduced(state, EXT_MODULUS as int),
        key.len() >= 1,
        reduced(key, EXT_MODULUS as int),
        usable_keystream(ks),
        forward_failure(PolyModel { coeffs: state, modulus: EXT_MODULUS as int }, key) is None,
    ensures
        rounds_forward(state, key, ks, count).len() == state.len(),
        reduced(rounds_forward(state, key, ks, count), EXT_MODULUS as int),
        rounds_inverse(rounds_forward(state, key, ks, count), key, ks, count) == state,
    decreases count,
{
    if count > 0 {
        let before = rounds_forward(state, key, ks, (count - 1) as nat);
        lemma_rounds_invert(state, key, ks, (count - 1) as nat);
        lemma_round_forward_state(before, key, ks, count - 1);
        lemma_round_inverts(before, key, ks, count - 1);
    }
}

/// Decryption undoes encryption: for a plaintext with coefficients in
/// `[0, 256)` that encryption under a graph with at least one edge accepts,
/// decryption under the same graph and with the same number of rounds
/// accepts the ciphertext and returns the plaintext's coefficients.
pub proof fn lemma_decrypt_inverts_encrypt(pt: PolyModel, edges: Seq<(int, int)>, rounds: nat)
    requires
        pt.wf(),
        reduced(pt.coeffs, BASE_MODULUS as int),
        edges.len() > 0,
        encrypt_failure(pt, edges, rounds) is None,
    ensures
        decrypt_failure(
            PolyModel {
                coeffs: ciphertext_of(pt.coeffs, edges, rounds),
                modulus: EXT_MODULUS as int,
            },
            edges,
            rounds,
        ) is None,
        plaintext_of(ciphertext_of(pt.coeffs, edges, rounds), edges, rounds) == pt.coeffs,
{
    let ks = keystream_of(edges);
    let key = key_of(edges);
    lemma_keystream_of(edges);
    lemma_key_of(edges);
    lemma_premix(pt.coeffs, ks);
    let start = premix(pt.coeffs, ks);
    if rounds > 0 {
        lemma_rounds_invert(start, key, ks, rounds);
    }
}

/// Encrypts a plaintext under a graph with `rounds` rounds.
pub fn encrypt_rounds(p: Polynomial, g: Graph, rounds: usize) -> (r: Result<
    Polynomial,
    CipherError,
>)
    requires
        p.wf(),
        reduced(p@.coeffs, BASE_MODULUS as int),
        g@.edges.len() > 0,
    ensures
        match r {
            Ok(c) => {
                &&& encrypt_failure(p@, g@.edges, rounds as nat) is None
                &&& c.wf()
                &&& c@.modulus == EXT_MODULUS
                &&& c@.coeffs.len() == p@.coeffs.len()
                &&& c@.coeffs == ciphertext_of(p@.coeffs, g@.edges, rounds as nat)
            },
            Err(e) => encrypt_failure(p@, g@.edges, rounds as nat) == Some(e),
        },
{
    let seq = g.expand_sequence();
    let key = g.generate_key();
    let ghost ks = ints(seq@);
    let ghost k = key@.coeffs;
    let ghost pt = p@.coeffs;
    let mut state = p.clone();
    match state.extend(EXT_MODULUS) {
        Ok(()) => {},
        Err(e) => {
            return Err(e);
        },
    }
    proof {
        lemma_premix(pt, ks);
        p.lemma_coefficients();
    }
    let n: usize = state.data.len();
    let mut i: usize = 0;
    while i < n
        invariant
            i <= n,
            n == p.data@.len(),
            state.data@.len() == n,
            state.p == EXT_MODULUS,
            seq@.len() > 0,
            ks == ints(seq@),
            pt == p@.coeffs,
            reduced(pt, BASE_MODULUS as int),
            reduced(ks, BASE_MODULUS as int),
            forall|j: int| 0 <= j < i ==> #[trigger] state.data@[j] == premix(pt, ks)[j],
            forall|j: int| i <= j < n ==> #[trigger] state.data@[j] == p.data@[j],
        decreases n - i,
    {
        proof {
            let key_value = ks[(i as int) % (ks.len() as int)];
            lemma_mod_bound(i as int, ks.len() as int);
            assert(pt[i as int] == p.data@[i as int]);
            lemma_xor_base(pt[i as int], key_value);
        }
        let masked: i64 = state.data[i] ^ seq[i % seq.len()];
        let mapped: i64 = substitute(masked);
        state.data.set(i, mapped);
        i = i + 1;
    }
    proof {
        assert(state@.coeffs =~= premix(pt, ks));
        lemma_key_of(g@.edges);
    }
    let ghost start = premix(pt, ks);
    let mut num: usize = 0;
    while num < rounds
        invariant
            num <= rounds,
            state.wf(),
            state@.modulus == EXT_MODULUS,
            state@.coeffs.len() == n,
            n == pt.len(),
            state@.coeffs == rounds_forward(start, k, ks, num as nat),
            key.wf(),
            key@.modulus == EXT_MODULUS,
            k == key@.coeffs,
            k.len() == 2 * g@.edges.len() + 1,
            k.last() % 2 == 1,
            usable_keystream(ks),
            ks == ints(seq@),
            num > 0 ==> n + 1 >= k.len(),
            pt == p@.coeffs,
            (EXT_MODULUS as int) % p@.modulus == 0,
        decreases rounds - num,
    {
        proof {
            if n + 1 >= k.len() {
                lemma_round_forward_state(state@.coeffs, k, ks, num as int);
            }
        }
        match forward_round(&state, &key, &seq, num) {
            Ok(next) => {
                state = next;
            },
            Err(e) => {
                return Err(e);
            },
        }
        num = num + 1;
    }
    Ok(state)
}

/// Decrypts a ciphertext under a graph with `rounds` rounds.
pub fn decrypt_rounds(p: Polynomial, g: Graph, rounds: usize) -> (r: Result<
    Polynomial,
    CipherError,
>)
    requires
        p.wf(),
        g@.edges.len() > 0,
    ensures
        match r {
            Ok(plain) => {
                &&& decrypt_failure(p@, g@.edges, rounds as nat) is None
                &&& plain.wf()
                &&& plain@.modulus == BASE_MODULUS
                &&& plain@.coeffs.len() == p@.coeffs.len()
                &&& plain@.coeffs == plaintext_of(p@.coeffs, g@.edges, rounds as nat)
            },
            Err(e) => decrypt_failure(p@, g@.edges, rounds as nat) == Some(e),
        },
{
    if p.p != EXT_MODULUS {
        return Err(CipherError::RingMismatch);
    }
    let seq = g.expand_sequence();
    let key = g.generate_key();
    let ghost ks = ints(seq@);
    let ghost k = key@.coeffs;
    let ghost ct = p@.coeffs;
    let n: usize = p.data.len();
    let mut state = p;
    let mut round: usize = rounds;
    while round > 0
        invariant
            round <= rounds,
            state.wf(),
            state@.modulus == EXT_MODULUS,
            state@.coeffs.len() == n,
            n == ct.len(),
            rounds_inverse(state@.coeffs, k, ks, round as nat) == rounds_inverse(
                ct,
                k,
                ks,
                rounds as nat,
            ),
            key.wf(),
            key@.modulus == EXT_MODULUS,
            k == key@.coeffs,
            k.len() == 2 * g@.edges.len() + 1,
            usable_keystream(ks),
            ks == ints(seq@),
            round < rounds ==> n + 1 >= k.len(),
            ct == p@.coeffs,
            p@.modulus == EXT_MODULUS,
        decreases round,
    {
        match inverse_round(&state, &key, &seq, round - 1) {
            Ok(next) => {
                state = next;
            },
            Err(e) => {
                return Err(e);
            },
        }
        round = round - 1;
    }
    let ghost behind = state@.coeffs;
    assert(behind == unwound(ct, g@.edges, rounds as nat));
    proof {
        state.lemma_coefficients();
    }
    let mut data: Vec<i64> = state.data;
    let mut i: usize = 0;
    while i < n
        invariant
            i <= n,
            data@.len() == n,
            behind.len() == n,
            seq@.len() > 0,
            ks == ints(seq@),
            reduced(ks, BASE_MODULUS as int),
            reduced(behind, EXT_MODULUS as int),
            forall|j: int| 0 <= j < i ==> #[trigger] behind[j] % 2 == 1,
            forall|j: int| 0 <= j < i ==> #[trigger] data@[j] == unmix(behind, ks)[j],
            forall|j: int| 0 <= j < i ==> 0 <= #[trigger] data@[j] < BASE_MODULUS,
            forall|j: int| i <= j < n ==> #[trigger] data@[j] == behind[j],
            behind == unwound(p@.coeffs, g@.edges, rounds as nat),
            p@.modulus == EXT_MODULUS,
            rounds > 0 ==> p@.coeffs.len() >= 2 * g@.edges.len(),
        decreases n - i,
    {
        let half: i64 = match inv_substitute(data[i]) {
            Ok(h) => h,
            Err(e) => {
                assert(behind[i as int] % 2 == 0);
                assert(!all_odd(behind));
                return Err(e);
            },
        };
        proof {
            let key_value = ks[(i as int) % (ks.len() as int)];
            lemma_mod_bound(i as int, ks.len() as int);
            lemma_small_mod(half as nat, BASE_MODULUS as nat);
            lemma_xor_base(half as int, key_value);
        }
        let value: i64 = (half % BASE_MODULUS) ^ seq[i % seq.len()];
        data.set(i, value);
        i = i + 1;
    }
    proof {
        assert(ints(data@) =~= unmix(behind, ks));
        assert(all_odd(behind));
    }
    Ok(Polynomial::new(data, BASE_MODULUS))
}

/// Encrypts a plaintext, whose coefficients lie in `[0, 256)`, under the
/// key and keystream of a graph with at least one edge.
pub fn encrypt(p: Polynomial, g: Graph) -> (r: Result<Polynomial, CipherError>)
    requires
        p.wf(),
        reduced(p@.coeffs, BASE_MODULUS as int),
        g@.edges.len() > 0,
    ensures
        match r {
            Ok(c) => {
                &&& encrypt_failure(p@, g@.edges, ROUNDS as nat) is None
                &&& c.wf()
                &&& c@.modulus == EXT_MODULUS
                &&& c@.coeffs.len() == p@.coeffs.len()
                &&& c@.coeffs == ciphertext_of(p@.coeffs, g@.edges, ROUNDS as nat)
            },
            Err(e) => encrypt_failure(p@, g@.edges, ROUNDS as nat) == Some(e),
        },
{
    encrypt_rounds(p, g, ROUNDS)
}

/// Decrypts a ciphertext under the key and keystream of a graph with at
/// least one edge.
pub fn decrypt(p: Polynomial, g: Graph) -> (r: Result<Polynomial, CipherError>)
    requires
        p.wf(),
        g@.edges.len() > 0,
    ensures
        match r {
            Ok(plain) => {
                &&& decrypt_failure(p@, g@.edges, ROUNDS as nat) is None
                &&& plain.wf()
                &&& plain@.modulus == BASE_MODULUS
                &&& plain@.coeffs.len() == p@.coeffs.len()
                &&& plain@.coeffs == plaintext_of(p@.coeffs, g@.edges, ROUNDS as nat)
            },
            Err(e) => decrypt_failure(p@, g@.edges, ROUNDS as nat) == Some(e),
        },
{
    decrypt_rounds(p, g, ROUNDS)
}

} // verus!
