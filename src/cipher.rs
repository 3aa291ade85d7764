//! The executable RC4 cipher.

use vstd::prelude::*;
use crate::model::{
    apply_keystream, identity_perm, initial_state, is_permutation, keystream, ksa, prga_step, swap,
    xor_seq, lemma_identity_is_permutation, lemma_swap_keeps_permutation, CipherState,
};

verus! {

/// RC4 cipher state, with methods for encrypting and decrypting data.
pub struct RC4 {
    /// Permutation array for the `x -> state[x]` permutation.
    state: [u8; 256],
    /// First PRGA counter.
    i: u8,
    /// Second PRGA counter.
    j: u8,
}

impl View for RC4 {
    type V = CipherState;

    closed spec fn view(&self) -> CipherState {
        CipherState { perm: self.state@, i: self.i, j: self.j }
    }
}

impl RC4 {
    /// The permutation array holds each byte value exactly once.
    pub open spec fn wf(&self) -> bool {
        is_permutation(self@.perm)
    }

    /// Returns a cipher whose key-scheduling algorithm has run on `key`, ready
    /// to generate the keystream. Only the first 256 bytes of `key` are used;
    /// a shorter key is read cyclically.
    pub fn new(key: &[u8]) -> (r: Self)
        requires
            key@.len() > 0,
        ensures
            r@ == initial_state(key@),
            r.wf(),
    {
        let mut rc4 = RC4 { state: [0u8; 256], i: 0, j: 0 };
        rc4.key_scheduling_algorithm(key);
        rc4
    }

    /// Runs the key-scheduling algorithm on `key`, replacing the permutation;
    /// the counters are left as they were.
    fn key_scheduling_algorithm(&mut self, key: &[u8])
        requires
            key@.len() > 0,
        ensures
            final(self)@ == (CipherState { perm: ksa(key@, 256).0, i: old(self).i, j: old(self).j }),
            final(self).wf(),
    {
        let mut x: usize = 0;
        while x < 256
            invariant
                x <= 256,
                self.i == old(self).i,
                self.j == old(self).j,
                forall|y: int| 0 <= y < x ==> self.state@[y] == y as u8,
            decreases 256 - x,
        {
            self.state[x] = x as u8;
            x = x + 1;
        }
        assert(self.state@ =~= identity_perm());
        proof {
            lemma_identity_is_permutation();
        }

        let mut j: u8 = 0;
        let mut i: usize = 0;
        while i < 256
            invariant
                i <= 256,
                key@.len() > 0,
                self.i == old(self).i,
                self.j == old(self).j,
                (self.state@, j) == ksa(key@, i as nat),
                is_permutation(self@.perm),
            decreases 256 - i,
        {
            let k = key[i % key.len()];
            j = j.wrapping_add(self.state[i]).wrapping_add(k);
            let a = self.state[i];
            let b = self.state[j as usize];
            self.state[i] = b;
            self.state[j as usize] = a;
            proof {
                lemma_swap_keeps_permutation(ksa(key@, i as nat).0, i as int, j as int);
            }
            assert(self.state@ =~= swap(ksa(key@, i as nat).0, i as int, j as int));
            i = i + 1;
        }
    }

    /// Advances the state by one PRGA step and returns the keystream byte.
    fn pseudo_random_generation(&mut self) -> (k: u8)
        requires
            old(self).wf(),
        ensures
            (final(self)@, k) == prga_step(old(self)@),
            final(self).wf(),
    {
        self.i = self.i.wrapping_add(1);
        self.j = self.j.wrapping_add(self.state[self.i as usize]);
        let a = self.state[self.i as usize];
        let b = self.state[self.j as usize];
        self.state[self.i as usize] = b;
        self.state[self.j as usize] = a;
        proof {
            lemma_swap_keeps_permutation(old(self).state@, self.i as int, self.j as int);
        }
        assert(self.state@ =~= swap(old(self).state@, self.i as int, self.j as int));
        let keystream_index = self.state[self.i as usize].wrapping_add(self.state[self.j as usize]);
        self.state[keystream_index as usize]
    }

    /// XORs each byte of `data`, in order, with the next keystream byte.
    /// Exactly `data.len()` keystream bytes are consumed, so the keystream
    /// runs on unbroken across calls.
    pub fn xor_keystream_with(&mut self, data: &mut [u8])
        requires
            old(self).wf(),
        ensures
            (final(self)@, final(data)@) == apply_keystream(old(self)@, old(data)@),
            final(data)@.len() == old(data)@.len(),
            final(self).wf(),
    {
        let n = data.len();
        let mut idx: usize = 0;
        while idx < n
            invariant
                idx <= n,
                n == old(data)@.len(),
                data@.len() == n,
                self.wf(),
                self@ == keystream(old(self)@, idx as nat).0,
                keystream(old(self)@, idx as nat).1.len() == idx,
                forall|k: int|
                    0 <= k < idx ==> data@[k] == old(data)@[k] ^ keystream(
                        old(self)@,
                        idx as nat,
                    ).1[k],
                forall|k: int| idx <= k < n ==> data@[k] == old(data)@[k],
            decreases n - idx,
        {
            let k = self.pseudo_random_generation();
            data[idx] = data[idx] ^ k;
            idx = idx + 1;
        }
        assert(data@ =~= xor_seq(old(data)@, keystream(old(self)@, n as nat).1));
    }
}

} // verus!
