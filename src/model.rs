//! The mathematical model of the cipher: its state, the key-scheduling
//! algorithm (KSA) and the pseudo-random generation algorithm (PRGA).

use vstd::prelude::*;

verus! {

/// The abstract state of the cipher: a permutation of the 256 byte values
/// and the two PRGA counters.
pub struct CipherState {
    pub perm: Seq<u8>,
    pub i: u8,
    pub j: u8,
}

/// Byte addition modulo 256.
pub open spec fn add8(a: u8, b: u8) -> u8 {
    ((a + b) % 256) as u8
}

/// `p` holds each of the 256 byte values exactly once.
pub open spec fn is_permutation(p: Seq<u8>) -> bool {
    &&& p.len() == 256
    &&& forall|a: int, b: int| 0 <= a < b < 256 ==> p[a] != p[b]
}

/// `p` with the entries at `a` and `b` exchanged.
pub open spec fn swap(p: Seq<u8>, a: int, b: int) -> Seq<u8> {
    p.update(a, p[b]).update(b, p[a])
}

/// The permutation `x -> x` that scheduling starts from.
pub open spec fn identity_perm() -> Seq<u8> {
    Seq::new(256, |x: int| x as u8)
}

/// The key byte used at scheduling step `i`: the key is read cyclically.
pub open spec fn key_byte(key: Seq<u8>, i: int) -> u8
    recommends
        key.len() > 0,
{
    key[i % key.len() as int]
}

/// The permutation and the scheduling counter after the first `n` steps of
/// the key-scheduling algorithm.
pub open spec fn ksa(key: Seq<u8>, n: nat) -> (Seq<u8>, u8)
    decreases n,
{
    if n == 0 {
        (identity_perm(), 0u8)
    } else {
        let (p, j) = ksa(key, (n - 1) as nat);
        let i = n - 1;
        let j2 = add8(add8(j, p[i]), key_byte(key, i));
        (swap(p, i, j2 as int), j2)
    }
}

/// The state that the cipher starts from for `key`: all 256 scheduling
/// steps done, both counters at zero.
pub open spec fn initial_state(key: Seq<u8>) -> CipherState {
    CipherState { perm: ksa(key, 256).0, i: 0, j: 0 }
}

/// One PRGA step: the next state and the keystream byte it emits.
pub open spec fn prga_step(s: CipherState) -> (CipherState, u8) {
    let i = add8(s.i, 1);
    let j = add8(s.j, s.perm[i as int]);
    let p = swap(s.perm, i as int, j as int);
    let k = p[add8(p[i as int], p[j as int]) as int];
    (CipherState { perm: p, i, j }, k)
}

/// The state after `n` PRGA steps from `s`, and the `n` keystream bytes
/// emitted on the way.
pub open spec fn keystream(s: CipherState, n: nat) -> (CipherState, Seq<u8>)
    decreases n,
{
    if n == 0 {
        (s, Seq::empty())
    } else {
        let (s1, ks) = keystream(s, (n - 1) as nat);
        let (s2, k) = prga_step(s1);
        (s2, ks.push(k))
    }
}

/// Bytewise XOR of `data` with the first `data.len()` bytes of `ks`.
pub open spec fn xor_seq(data: Seq<u8>, ks: Seq<u8>) -> Seq<u8> {
    Seq::new(data.len(), |k: int| data[k] ^ ks[k])
}

/// Applying the keystream to `data` from state `s`: the state after, and
/// the transformed bytes.
pub open spec fn apply_keystream(s: CipherState, data: Seq<u8>) -> (CipherState, Seq<u8>) {
    let (s2, ks) = keystream(s, data.len());
    (s2, xor_seq(data, ks))
}

/// Applying the keystream to each chunk in turn on one running state: the
/// state after the last chunk, and the outputs concatenated.
pub open spec fn apply_chunks(s: CipherState, chunks: Seq<Seq<u8>>) -> (CipherState, Seq<u8>)
    decreases chunks.len(),
{
    if chunks.len() == 0 {
        (s, Seq::empty())
    } else {
        let (s1, out1) = apply_keystream(s, chunks.first());
        let (s2, out2) = apply_chunks(s1, chunks.drop_first());
        (s2, out1 + out2)
    }
}

/// A key of 256 bytes that repeats `key` cyclically.
pub open spec fn cycled_key(key: Seq<u8>) -> Seq<u8>
    recommends
        key.len() > 0,
{
    Seq::new(256, |x: int| key_byte(key, x))
}

/// The identity permutation is a permutation.
pub proof fn lemma_identity_is_permutation()
    ensures
        is_permutation(identity_perm()),
{
}

/// Exchanging two entries keeps a permutation a permutation.
pub proof fn lemma_swap_keeps_permutation(p: Seq<u8>, a: int, b: int)
    requires
        is_permutation(p),
        0 <= a < 256,
        0 <= b < 256,
    ensures
        is_permutation(swap(p, a, b)),
{
    let q = swap(p, a, b);
    assert forall|x: int, y: int| 0 <= x < y < 256 implies q[x] != q[y] by {
        let sx = if x == b { a } else if x == a { b } else { x };
        let sy = if y == b { a } else if y == a { b } else { y };
        assert(q[x] == p[sx]);
        assert(q[y] == p[sy]);
        if sx < sy {
            assert(p[sx] != p[sy]);
        } else {
            assert(p[sy] != p[sx]);
        }
    }
}

} // verus!
