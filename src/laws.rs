//! Properties of the cipher, stated over the model and proved.

use vstd::prelude::*;
use crate::model::{
    apply_chunks, apply_keystream, cycled_key, initial_state, key_byte, keystream, ksa, prga_step,
    xor_seq, CipherState,
};

verus! {

/// `n` PRGA steps emit exactly `n` keystream bytes.
pub proof fn lemma_keystream_len(s: CipherState, n: nat)
    ensures
        keystream(s, n).1.len() == n,
    decreases n,
{
    if n > 0 {
        lemma_keystream_len(s, (n - 1) as nat);
    }
}

/// The keystream is continuous: `n + m` steps are `n` steps followed by `m`
/// steps from the state they reach.
pub proof fn lemma_keystream_split(s: CipherState, n: nat, m: nat)
    ensures
        keystream(s, n + m) == (keystream(keystream(s, n).0, m).0, keystream(s, n).1 + keystream(
            keystream(s, n).0,
            m,
        ).1),
    decreases m,
{
    let t = keystream(s, n).0;
    let a = keystream(s, n).1;
    if m == 0 {
        assert(a + keystream(t, 0).1 =~= a);
    } else {
        lemma_keystream_split(s, n, (m - 1) as nat);
        assert((n + m - 1) as nat == n + (m - 1) as nat);
        let b = keystream(t, (m - 1) as nat).1;
        let k = prga_step(keystream(t, (m - 1) as nat).0).1;
        assert((a + b).push(k) =~= a + b.push(k));
    }
}

/// XOR with the same byte twice gives the byte back.
pub proof fn lemma_xor_twice(a: u8, b: u8)
    ensures
        (a ^ b) ^ b == a,
{
    assert((a ^ b) ^ b == a) by (bit_vector);
}

/// The output is exactly as long as the input: nothing is added or removed.
pub proof fn lemma_length_preserved(s: CipherState, data: Seq<u8>)
    ensures
        apply_keystream(s, data).1.len() == data.len(),
{
}

/// Decrypting with a fresh cipher built from the same key recovers the
/// plaintext: applying the keystream twice is the identity.
pub proof fn lemma_round_trip(key: Seq<u8>, plaintext: Seq<u8>)
    requires
        key.len() > 0,
    ensures
        apply_keystream(initial_state(key), apply_keystream(initial_state(key), plaintext).1).1
            == plaintext,
{
    let s0 = initial_state(key);
    let ks = keystream(s0, plaintext.len()).1;
    let c = apply_keystream(s0, plaintext).1;
    lemma_keystream_len(s0, plaintext.len());
    assert forall|k: int| 0 <= k < plaintext.len() implies (plaintext[k] ^ ks[k]) ^ ks[k]
        == plaintext[k] by {
        lemma_xor_twice(plaintext[k], ks[k]);
    }
    assert(apply_keystream(s0, c).1 =~= plaintext);
}

/// Applying the keystream to `a` and then to `b` on the same state gives the
/// same state and output as applying it once to `a + b`.
pub proof fn lemma_two_chunks(s: CipherState, a: Seq<u8>, b: Seq<u8>)
    ensures
        apply_keystream(s, a + b) == (apply_keystream(apply_keystream(s, a).0, b).0,
        apply_keystream(s, a).1 + apply_keystream(apply_keystream(s, a).0, b).1),
{
    let t = keystream(s, a.len()).0;
    lemma_keystream_split(s, a.len(), b.len());
    lemma_keystream_len(s, a.len());
    lemma_keystream_len(t, b.len());
    let ks = keystream(s, (a + b).len()).1;
    assert(ks == keystream(s, a.len()).1 + keystream(t, b.len()).1);
    assert(xor_seq(a + b, ks) =~= xor_seq(a, keystream(s, a.len()).1) + xor_seq(
        b,
        keystream(t, b.len()).1,
    ));
}

/// However the input is cut into chunks, applying the keystream to the
/// chunks in turn on one state gives the same state and concatenated output
/// as applying it once to the whole input.
pub proof fn lemma_chunking(s: CipherState, chunks: Seq<Seq<u8>>)
    ensures
        apply_chunks(s, chunks) == apply_keystream(s, chunks.flatten()),
    decreases chunks.len(),
{
    if chunks.len() == 0 {
        assert(xor_seq(Seq::empty(), keystream(s, 0).1) =~= Seq::<u8>::empty());
    } else {
        let s1 = apply_keystream(s, chunks.first()).0;
        lemma_chunking(s1, chunks.drop_first());
        lemma_two_chunks(s, chunks.first(), chunks.drop_first().flatten());
    }
}

/// Empty input gives empty output and leaves the state as it was.
pub proof fn lemma_empty_input(s: CipherState)
    ensures
        apply_keystream(s, Seq::empty()) == (s, Seq::<u8>::empty()),
{
    assert(xor_seq(Seq::empty(), keystream(s, 0).1) =~= Seq::<u8>::empty());
}

/// Two keys that agree on every key byte that scheduling reads schedule to
/// the same permutation.
proof fn lemma_ksa_same_key_bytes(k1: Seq<u8>, k2: Seq<u8>, n: nat)
    requires
        n <= 256,
        forall|i: int| 0 <= i < 256 ==> key_byte(k1, i) == key_byte(k2, i),
    ensures
        ksa(k1, n) == ksa(k2, n),
    decreases n,
{
    if n > 0 {
        lemma_ksa_same_key_bytes(k1, k2, (n - 1) as nat);
    }
}

/// Only the first 256 bytes of a key are used: a longer key gives the same
/// cipher as its first 256 bytes.
pub proof fn lemma_long_key_truncated(key: Seq<u8>)
    requires
        key.len() > 256,
    ensures
        initial_state(key) == initial_state(key.subrange(0, 256)),
{
    let t = key.subrange(0, 256);
    assert forall|i: int| 0 <= i < 256 implies key_byte(key, i) == key_byte(t, i) by {
        vstd::arithmetic::div_mod::lemma_small_mod(i as nat, key.len());
        vstd::arithmetic::div_mod::lemma_small_mod(i as nat, 256);
    }
    lemma_ksa_same_key_bytes(key, t, 256);
}

/// A key shorter than 256 bytes is read cyclically: it gives the same cipher
/// as the 256-byte key that repeats it.
pub proof fn lemma_short_key_cycles(key: Seq<u8>)
    requires
        0 < key.len() < 256,
    ensures
        initial_state(key) == initial_state(cycled_key(key)),
{
    let c = cycled_key(key);
    assert forall|i: int| 0 <= i < 256 implies key_byte(key, i) == key_byte(c, i) by {
        vstd::arithmetic::div_mod::lemma_small_mod(i as nat, 256);
    }
    lemma_ksa_same_key_bytes(key, c, 256);
}

} // verus!
