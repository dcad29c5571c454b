//! Encryption of the AeSS cipher core: masking of the outer shares, then the chain of
//! window codings with powers of the key scalars.

use vstd::prelude::*;
use crate::gf128::{
    gf_mul, gf_sum, gf_pow, gf_inv, gf128_mul, gf128_pow, gf128_invert, lemma_xor_facts,
    lemma_gf_mul_one, lemma_gf_mul_associates, lemma_gf_mul_commutes, lemma_gf_pow_add,
    lemma_gf_pow_mul, lemma_gf_inv, lemma_xor_swap,
};
use crate::aess_core::{
    AeSSCipherCore, encoded_window, decoded_window, decode_inputs, replace_window, matrix_fits,
    scratch_contents, is_left_inverse, are_inverse_factors, lemma_decode_inverts_encode,
    lemma_decode_tag_of_encoded,
};

verus! {

/// The first `n` blocks each masked with the pad of the same index.
pub open spec fn mask_front(v: Seq<u128>, pads: Seq<u128>, n: int) -> Seq<u128> {
    Seq::new(v.len(), |k: int| if k < n { v[k] ^ pads[k] } else { v[k] })
}

/// The last `n` of the first `count` blocks masked with the pads in reverse order:
/// block `count - 1 - i` with pad `i`.
pub open spec fn mask_back(v: Seq<u128>, pads: Seq<u128>, count: int, n: int) -> Seq<u128> {
    Seq::new(
        v.len(),
        |k: int| if count - n <= k < count { v[k] ^ pads[count - 1 - k] } else { v[k] },
    )
}

/// The first `lt` entries of `beta` multiplied entry by entry with `base`.
pub open spec fn scale_entries(beta: Seq<u128>, base: Seq<u128>, lt: nat) -> Seq<u128> {
    Seq::new(beta.len(), |k: int| if k < lt { gf_mul(beta[k], base[k]) } else { beta[k] })
}

/// The number of windows that encryption codes: one at every even index below
/// `vectors`.
pub open spec fn window_steps(vectors: nat) -> nat {
    (vectors + 1) / 2
}

/// The number of indices at which a window of `t` blocks can start inside `count`
/// blocks: encryption codes the window at every even one of them, so that the windows
/// reach the last blocks.
pub open spec fn coded_vectors(count: nat, t: nat) -> nat {
    (count + 1 - t) as nat
}

/// Block `j` lies in the window of `t` blocks that starts at `2 * s`.
pub open spec fn in_window(j: int, s: int, t: nat) -> bool {
    2 * s <= j < 2 * s + t
}

/// Block `j` of `count` blocks is protected by encryption: it is one of the first or
/// the last `t - 1` blocks, which are masked, or it lies in one of the coded windows.
pub open spec fn block_protected(j: int, count: nat, t: nat) -> bool {
    ||| j < t - 1
    ||| count - (t - 1) <= j
    ||| exists|s: int|
        0 <= s < window_steps(coded_vectors(count, t)) && #[trigger] in_window(j, s, t)
}

/// The coded windows stay inside the blocks.
pub proof fn lemma_coded_windows_fit(count: nat, t: nat, len: nat)
    requires
        1 <= t <= count <= len,
    ensures
        windows_fit(window_steps(coded_vectors(count, t)), t, len),
        window_steps(coded_vectors(count, t)) >= 1,
{
}

/// With a threshold of at least two, every block is protected by encryption: masked as
/// one of the first or last `t - 1` blocks, or coded in a window.
pub proof fn lemma_every_block_protected(count: nat, t: nat)
    requires
        2 <= t <= count,
    ensures
        forall|j: int| 0 <= j < count ==> #[trigger] block_protected(j, count, t),
{
    let steps = window_steps(coded_vectors(count, t));
    assert forall|j: int| 0 <= j < count implies #[trigger] block_protected(j, count, t) by {
        if t - 1 <= j < count - (t - 1) {
            let s: int = if j / 2 < steps {
                j / 2
            } else {
                steps - 1
            };
            assert(in_window(j, s, t));
        }
    }
}

/// The blocks, the tag, and the scalars after `steps` window codings. Step `s` codes
/// the window at `2 * s`; after each step the offset is multiplied by `alpha` and the
/// first `lt` scale factors by those of `base_beta`.
pub open spec fn encode_chain(
    v: Seq<u128>,
    t: nat,
    m: Seq<Vec<u128>>,
    alpha: u128,
    base_beta: Seq<u128>,
    lt: nat,
    steps: nat,
) -> (Seq<u128>, u128, u128, Seq<u128>)
    decreases steps,
{
    if steps == 0 {
        (v, 0, alpha, base_beta)
    } else {
        let p = encode_chain(v, t, m, alpha, base_beta, lt, (steps - 1) as nat);
        let index = 2 * (steps - 1);
        let w = encoded_window(p.0, index, t, p.2, m, p.3);
        (
            replace_window(p.0, index, w, p.2),
            p.1 ^ gf_sum(w, t),
            gf_mul(p.2, alpha),
            scale_entries(p.3, base_beta, lt),
        )
    }
}

/// The window codings stay inside the blocks.
pub open spec fn windows_fit(steps: nat, t: nat, len: nat) -> bool {
    steps == 0 || 2 * (steps - 1) + t <= len
}

/// The blocks and the tag after decoding the windows at `2 * (n - 1)`, ..., `0`, in
/// that order. The first window is decoded with offset `alpha` and inverse scale
/// factors `inv_beta`; after each window the offset is multiplied by `step_alpha` and
/// the first `lt` factors by those of `step_beta`. The tag is the sum of the offset
/// windows before decoding.
pub open spec fn decode_chain(
    v: Seq<u128>,
    t: nat,
    m: Seq<Vec<u128>>,
    alpha: u128,
    step_alpha: u128,
    inv_beta: Seq<u128>,
    step_beta: Seq<u128>,
    lt: nat,
    n: nat,
) -> (Seq<u128>, u128)
    decreases n,
{
    if n == 0 {
        (v, 0)
    } else {
        let index = 2 * (n - 1);
        let d = decoded_window(v, index, t, alpha, m, inv_beta);
        let rest = decode_chain(
            replace_window(v, index, d, alpha),
            t,
            m,
            gf_mul(alpha, step_alpha),
            step_alpha,
            scale_entries(inv_beta, step_beta, lt),
            step_beta,
            lt,
            (n - 1) as nat,
        );
        (rest.0, gf_sum(decode_inputs(v, index, t, alpha), t) ^ rest.1)
    }
}

/// The first `lt` factors raised to the power `n`.
pub open spec fn powered_factors(f: Seq<u128>, lt: nat, n: nat) -> Seq<u128> {
    Seq::new(f.len(), |k: int| if k < lt { gf_pow(f[k], n) } else { f[k] })
}

/// The first `lt` factors inverted.
pub open spec fn inverted_factors(f: Seq<u128>, lt: nat) -> Seq<u128> {
    Seq::new(f.len(), |k: int| if k < lt { gf_inv(f[k]) } else { f[k] })
}

/// The blocks and the tag that decryption computes: the outer masks of the last
/// shares removed, the windows decoded from the last to the first, starting from the
/// powers of the key scalars and stepping by their inverses, and the masks of the first
/// shares removed.
pub open spec fn decrypt_blocks(
    v: Seq<u128>,
    pads: Seq<u128>,
    count: int,
    t: nat,
    m: Seq<Vec<u128>>,
    alpha: u128,
    inv_beta: Seq<u128>,
    lt: nat,
) -> (Seq<u128>, u128) {
    let steps = window_steps(coded_vectors(count as nat, t));
    let d = decode_chain(
        mask_back(v, pads, count, t - 1),
        t,
        m,
        gf_pow(alpha, steps),
        gf_inv(alpha),
        powered_factors(inv_beta, lt, steps),
        inverted_factors(inv_beta, lt),
        lt,
        steps,
    );
    (mask_front(d.0, pads, t - 1), d.1)
}

impl AeSSCipherCore {
    /// Encrypts the blocks and returns the tag. The first and the last
    /// `targted_threshold - 1` blocks are masked with `prp_pads` (pad `i` being the
    /// block cipher's encryption of the initialisation vector plus `i`); in between, the
    /// window of `targted_threshold` blocks at every even index up to
    /// `blocks_count - targted_threshold` is coded, with the offset
    /// and the scale factors multiplied by the key scalars after each window.
    pub fn encrypt(&mut self, prp_pads: &[u128]) -> (tag: u128)
        requires
            ({
                let t = old(self).targted_threshold as nat;
                let count = old(self).active_level.blocks_count as nat;
                let km = old(self).key_materials;
                &&& 1 <= t
                &&& t - 1 <= prp_pads@.len()
                &&& t <= count <= old(self).internal@.len()
                &&& matrix_fits(km.vender_matrix@, t)
                &&& t <= km.beta_vector@.len()
                &&& old(self).active_level.threshold <= km.beta_vector@.len()
                &&& t <= scratch_contents(old(self).tmp_vector).len()
            }),
        ensures
            ({
                let t = old(self).targted_threshold as nat;
                let count = old(self).active_level.blocks_count as int;
                let km = old(self).key_materials;
                let chain = encode_chain(
                    mask_front(old(self).internal@, prp_pads@, t - 1),
                    t,
                    km.vender_matrix@,
                    km.alpha,
                    km.beta_vector@,
                    old(self).active_level.threshold as nat,
                    window_steps(coded_vectors(count as nat, t)),
                );
                &&& final(self).internal@ == mask_back(chain.0, prp_pads@, count, t - 1)
                &&& tag == chain.1
            }),
            old(self).targted_threshold >= 2 ==> forall|j: int|
                0 <= j < old(self).active_level.blocks_count ==> #[trigger] block_protected(
                    j,
                    old(self).active_level.blocks_count as nat,
                    old(self).targted_threshold as nat,
                ),
            final(self).targted_threshold == old(self).targted_threshold,
            final(self).active_level == old(self).active_level,
            final(self).key_materials == old(self).key_materials,
            final(self).authenticate == old(self).authenticate,
            scratch_contents(final(self).tmp_vector).len() == scratch_contents(
                old(self).tmp_vector,
            ).len(),
    {
        let ghost v0 = self.internal@;
        let t = self.targted_threshold;
        let n = self.internal.len();
        // Phase 1: mask the first t - 1 shares.
        let mut i: usize = 0;
        while i < t - 1
            invariant
                1 <= t == self.targted_threshold,
                t - 1 <= prp_pads@.len(),
                t - 1 <= self.active_level.blocks_count <= n,
                n == v0.len() == self.internal@.len(),
                i <= t - 1,
                forall|k: int|
                    0 <= k < n ==> #[trigger] self.internal@[k] == if k < i {
                        v0[k] ^ prp_pads@[k]
                    } else {
                        v0[k]
                    },
                self.targted_threshold == old(self).targted_threshold,
                self.active_level == old(self).active_level,
                self.key_materials == old(self).key_materials,
                self.authenticate == old(self).authenticate,
                self.tmp_vector == old(self).tmp_vector,
            decreases t - 1 - i,
        {
            let a_block = self.get_block(i);
            let encrypted_block = a_block ^ prp_pads[i];
            self.set_block(i, &encrypted_block);
            i = i + 1;
        }
        let ghost v1 = self.internal@;
        assert(v1 =~= mask_front(v0, prp_pads@, t - 1));
        // Phase 2: code the windows.
        let mut tag: u128 = 0;
        let mut alpha = self.key_materials.alpha;
        let vectors_count = self.active_level.blocks_count - (t - 1);
        proof {
            lemma_coded_windows_fit(self.active_level.blocks_count as nat, t as nat, n as nat);
            if t >= 2 {
                lemma_every_block_protected(self.active_level.blocks_count as nat, t as nat);
            }
        }
        let mut beta_vector = self.key_materials.beta_vector.clone();
        let ghost lt = self.active_level.threshold as nat;
        let steps: usize = vectors_count / 2 + vectors_count % 2;
        assert(steps == window_steps(vectors_count as nat));
        let ghost scratch_len = scratch_contents(self.tmp_vector).len();
        let mut s: usize = 0;
        proof {
            assert(beta_vector@ =~= self.key_materials.beta_vector@);
        }
        while s < steps
            invariant
                s <= steps,
                vectors_count == coded_vectors(self.active_level.blocks_count as nat, t as nat),
                steps == window_steps(vectors_count as nat),
                windows_fit(steps as nat, t as nat, n as nat),
                n == self.internal@.len(),
                t == self.targted_threshold,
                lt == self.active_level.threshold,
                matrix_fits(self.key_materials.vender_matrix@, t as nat),
                lt <= self.key_materials.beta_vector@.len(),
                t <= self.key_materials.beta_vector@.len(),
                beta_vector@.len() == self.key_materials.beta_vector@.len(),
                t <= scratch_len,
                scratch_contents(self.tmp_vector).len() == scratch_len,
                (self.internal@, tag, alpha, beta_vector@) == encode_chain(
                    v1,
                    t as nat,
                    self.key_materials.vender_matrix@,
                    self.key_materials.alpha,
                    self.key_materials.beta_vector@,
                    lt,
                    s as nat,
                ),
                self.targted_threshold == old(self).targted_threshold,
                self.active_level == old(self).active_level,
                self.key_materials == old(self).key_materials,
                self.authenticate == old(self).authenticate,
            decreases steps - s,
        {
            let step_tag = self.encode_vector(2 * s, &alpha, &beta_vector);
            tag = tag ^ step_tag;
            alpha = gf128_mul(alpha, self.key_materials.alpha);
            let ghost beta_before = beta_vector@;
            let mut k: usize = 0;
            while k < self.active_level.threshold
                invariant
                    k <= lt,
                    lt == self.active_level.threshold,
                    lt <= self.key_materials.beta_vector@.len(),
                    beta_vector@.len() == beta_before.len() == self.key_materials.beta_vector@.len(),
                    forall|j: int|
                        0 <= j < beta_before.len() ==> #[trigger] beta_vector@[j] == if j < k {
                            gf_mul(beta_before[j], self.key_materials.beta_vector@[j])
                        } else {
                            beta_before[j]
                        },
                decreases lt - k,
            {
                let scaled = gf128_mul(beta_vector[k], self.key_materials.beta_vector[k]);
                beta_vector.set(k, scaled);
                k = k + 1;
            }
            proof {
                assert(beta_vector@ =~= scale_entries(
                    beta_before,
                    self.key_materials.beta_vector@,
                    lt,
                ));
            }
            s = s + 1;
        }
        let ghost v2 = self.internal@;
        // Phase 3: mask the last t - 1 shares.
        let count = self.active_level.blocks_count;
        let mut i: usize = 0;
        while i < t - 1
            invariant
                1 <= t == self.targted_threshold,
                t - 1 <= prp_pads@.len(),
                t - 1 <= count <= n,
                count == self.active_level.blocks_count,
                n == v2.len() == self.internal@.len(),
                i <= t - 1,
                forall|k: int|
                    0 <= k < n ==> #[trigger] self.internal@[k] == if count - i <= k < count {
                        v2[k] ^ prp_pads@[count - 1 - k]
                    } else {
                        v2[k]
                    },
                self.targted_threshold == old(self).targted_threshold,
                self.active_level == old(self).active_level,
                self.key_materials == old(self).key_materials,
                self.authenticate == old(self).authenticate,
                scratch_contents(self.tmp_vector).len() == scratch_contents(
                    old(self).tmp_vector,
                ).len(),
            decreases t - 1 - i,
        {
            let a_block = self.get_block(count - i - 1);
            let encrypted_block = a_block ^ prp_pads[i];
            self.set_block(count - i - 1, &encrypted_block);
            i = i + 1;
        }
        assert(self.internal@ =~= mask_back(v2, prp_pads@, count as int, t - 1));
        tag
    }

    /// Decrypts the blocks and returns the recomputed tag (0 when the core does not
    /// authenticate). The masks of the last `targted_threshold - 1` blocks are removed,
    /// the windows are decoded from the last to the first, starting from the powers of
    /// the key scalars and stepping by their inverses, and the masks of the first blocks
    /// are removed. An authenticating core that is not `silent` panics on a tag other
    /// than `recovered_tag`: such calls are left out.
    ///
    /// The windows are decoded with the key material's `principal_dec_matrice` as it is
    /// stored: the decoding matrices are not recomputed here from `vender_matrix` (the
    /// matrix inversion that would recompute them, and the value it gives
    /// `secondary_dec_matrice`, are not part of this crate), and `key_materials` is left
    /// unchanged. Where the stored matrix is not the inverse of the coding matrix, the
    /// result differs from a decryption that recomputes it.
    pub fn decrypt(&mut self, recovered_tag: u128, silent: bool, prp_pads: &[u128]) -> (tag: u128)
        requires
            ({
                let t = old(self).targted_threshold as nat;
                let count = old(self).active_level.blocks_count as nat;
                let km = old(self).key_materials;
                &&& 1 <= t
                &&& t - 1 <= prp_pads@.len()
                &&& t <= count <= old(self).internal@.len()
                &&& matrix_fits(km.principal_dec_matrice@, t)
                &&& t <= km.inv_beta_vector@.len()
                &&& old(self).active_level.threshold <= km.inv_beta_vector@.len()
                &&& t <= scratch_contents(old(self).tmp_vector).len()
            }),
            old(self).authenticate && !silent ==> recovered_tag == decrypt_blocks(
                old(self).internal@,
                prp_pads@,
                old(self).active_level.blocks_count as int,
                old(self).targted_threshold as nat,
                old(self).key_materials.principal_dec_matrice@,
                old(self).key_materials.alpha,
                old(self).key_materials.inv_beta_vector@,
                old(self).active_level.threshold as nat,
            ).1,
        ensures
            ({
                let d = decrypt_blocks(
                    old(self).internal@,
                    prp_pads@,
                    old(self).active_level.blocks_count as int,
                    old(self).targted_threshold as nat,
                    old(self).key_materials.principal_dec_matrice@,
                    old(self).key_materials.alpha,
                    old(self).key_materials.inv_beta_vector@,
                    old(self).active_level.threshold as nat,
                );
                &&& final(self).internal@ == d.0
                &&& tag == if old(self).authenticate {
                    d.1
                } else {
                    0
                }
            }),
            final(self).targted_threshold == old(self).targted_threshold,
            final(self).active_level == old(self).active_level,
            final(self).key_materials == old(self).key_materials,
            final(self).authenticate == old(self).authenticate,
            scratch_contents(final(self).tmp_vector).len() == scratch_contents(
                old(self).tmp_vector,
            ).len(),
    {
        let ghost v0 = self.internal@;
        let t = self.targted_threshold;
        let n = self.internal.len();
        let count = self.active_level.blocks_count;
        // Reverting phase 3: remove the masks of the last t - 1 shares.
        let mut i: usize = 0;
        while i < t - 1
            invariant
                1 <= t == self.targted_threshold,
                t - 1 <= prp_pads@.len(),
                t - 1 <= count <= n,
                count == self.active_level.blocks_count,
                n == v0.len() == self.internal@.len(),
                i <= t - 1,
                forall|k: int|
                    0 <= k < n ==> #[trigger] self.internal@[k] == if count - i <= k < count {
                        v0[k] ^ prp_pads@[count - 1 - k]
                    } else {
                        v0[k]
                    },
                self.targted_threshold == old(self).targted_threshold,
                self.active_level == old(self).active_level,
                self.key_materials == old(self).key_materials,
                self.authenticate == old(self).authenticate,
                self.tmp_vector == old(self).tmp_vector,
            decreases t - 1 - i,
        {
            let a_block = self.get_block(count - i - 1);
            let decrypted_block = a_block ^ prp_pads[i];
            self.set_block(count - i - 1, &decrypted_block);
            i = i + 1;
        }
        let ghost v1 = self.internal@;
        assert(v1 =~= mask_back(v0, prp_pads@, count as int, t - 1));
        // Reverting phase 2: decode the windows from the last to the first.
        let vectors_count = count - (t - 1);
        proof {
            lemma_coded_windows_fit(count as nat, t as nat, n as nat);
        }
        let last_expo: usize = if vectors_count % 2 == 0 {
            vectors_count / 2
        } else {
            (vectors_count / 2) + 1
        };
        let ghost steps = window_steps(vectors_count as nat);
        assert(last_expo == steps);
        let ghost lt = self.active_level.threshold as nat;
        let base_alpha = self.key_materials.alpha;
        let mut alpha = gf128_pow(base_alpha, last_expo as u128);
        let i_alpha = gf128_invert(base_alpha);
        let mut inv_beta_vector = self.key_materials.inv_beta_vector.clone();
        let mut i_beta_vector = self.key_materials.inv_beta_vector.clone();
        let ghost ib0 = self.key_materials.inv_beta_vector@;
        proof {
            assert(inv_beta_vector@ =~= ib0);
            assert(i_beta_vector@ =~= ib0);
        }
        let mut k: usize = 0;
        while k < self.active_level.threshold
            invariant
                k <= lt,
                lt == self.active_level.threshold,
                lt <= ib0.len(),
                ib0 == self.key_materials.inv_beta_vector@,
                inv_beta_vector@.len() == ib0.len(),
                i_beta_vector@.len() == ib0.len(),
                forall|j: int|
                    0 <= j < ib0.len() ==> #[trigger] inv_beta_vector@[j] == if j < k {
                        gf_pow(ib0[j], steps)
                    } else {
                        ib0[j]
                    },
                forall|j: int|
                    0 <= j < ib0.len() ==> #[trigger] i_beta_vector@[j] == if j < k {
                        gf_inv(ib0[j])
                    } else {
                        ib0[j]
                    },
                last_expo == steps,
            decreases lt - k,
        {
            let powered = gf128_pow(self.key_materials.inv_beta_vector[k], last_expo as u128);
            inv_beta_vector.set(k, powered);
            let inverted = gf128_invert(self.key_materials.inv_beta_vector[k]);
            i_beta_vector.set(k, inverted);
            k = k + 1;
        }
        proof {
            assert(inv_beta_vector@ =~= powered_factors(ib0, lt, steps));
            assert(i_beta_vector@ =~= inverted_factors(ib0, lt));
        }
        let ghost full = decode_chain(
            v1,
            t as nat,
            self.key_materials.principal_dec_matrice@,
            gf_pow(base_alpha, steps),
            gf_inv(base_alpha),
            powered_factors(ib0, lt, steps),
            inverted_factors(ib0, lt),
            lt,
            steps,
        );
        let ghost scratch_len = scratch_contents(self.tmp_vector).len();
        let mut tag: u128 = 0;
        let mut remaining: usize = last_expo;
        proof {
            lemma_xor_facts(full.1, 0, 0);
        }
        while remaining > 0
            invariant
                remaining <= steps,
                windows_fit(steps, t as nat, n as nat),
                n == self.internal@.len(),
                t == self.targted_threshold,
                lt == self.active_level.threshold,
                matrix_fits(self.key_materials.principal_dec_matrice@, t as nat),
                lt <= ib0.len(),
                t <= ib0.len(),
                inv_beta_vector@.len() == ib0.len(),
                i_beta_vector@ == inverted_factors(ib0, lt),
                i_alpha == gf_inv(base_alpha),
                t <= scratch_len,
                scratch_contents(self.tmp_vector).len() == scratch_len,
                ({
                    let rest = decode_chain(
                        self.internal@,
                        t as nat,
                        self.key_materials.principal_dec_matrice@,
                        alpha,
                        i_alpha,
                        inv_beta_vector@,
                        i_beta_vector@,
                        lt,
                        remaining as nat,
                    );
                    &&& rest.0 == full.0
                    &&& tag ^ rest.1 == full.1
                }),
                self.targted_threshold == old(self).targted_threshold,
                self.active_level == old(self).active_level,
                self.key_materials == old(self).key_materials,
                self.authenticate == old(self).authenticate,
            decreases remaining,
        {
            let index = 2 * (remaining - 1);
            let ghost cur = self.internal@;
            let ghost rest = decode_chain(
                cur,
                t as nat,
                self.key_materials.principal_dec_matrice@,
                alpha,
                i_alpha,
                inv_beta_vector@,
                i_beta_vector@,
                lt,
                remaining as nat,
            );
            let ghost next = decode_chain(
                replace_window(
                    cur,
                    index as int,
                    decoded_window(
                        cur,
                        index as int,
                        t as nat,
                        alpha,
                        self.key_materials.principal_dec_matrice@,
                        inv_beta_vector@,
                    ),
                    alpha,
                ),
                t as nat,
                self.key_materials.principal_dec_matrice@,
                gf_mul(alpha, i_alpha),
                i_alpha,
                scale_entries(inv_beta_vector@, i_beta_vector@, lt),
                i_beta_vector@,
                lt,
                (remaining - 1) as nat,
            );
            assert(rest.0 == next.0);
            assert(rest.1 == gf_sum(decode_inputs(cur, index as int, t as nat, alpha), t as nat)
                ^ next.1);
            let step_tag = self.decode_vector(index, &alpha, &inv_beta_vector);
            proof {
                lemma_xor_facts(tag, step_tag, next.1);
            }
            tag = tag ^ step_tag;
            alpha = gf128_mul(alpha, i_alpha);
            let ghost beta_before = inv_beta_vector@;
            let mut k: usize = 0;
            while k < self.active_level.threshold
                invariant
                    k <= lt,
                    lt == self.active_level.threshold,
                    lt <= ib0.len(),
                    i_beta_vector@ == inverted_factors(ib0, lt),
                    inv_beta_vector@.len() == beta_before.len() == ib0.len(),
                    forall|j: int|
                        0 <= j < beta_before.len() ==> #[trigger] inv_beta_vector@[j] == if j
                            < k {
                            gf_mul(beta_before[j], i_beta_vector@[j])
                        } else {
                            beta_before[j]
                        },
                decreases lt - k,
            {
                let scaled = gf128_mul(inv_beta_vector[k], i_beta_vector[k]);
                inv_beta_vector.set(k, scaled);
                k = k + 1;
            }
            proof {
                assert(inv_beta_vector@ =~= scale_entries(beta_before, i_beta_vector@, lt));
            }
            remaining = remaining - 1;
        }
        let ghost v2 = self.internal@;
        assert(v2 == full.0);
        assert(tag == full.1) by {
            lemma_xor_facts(tag, 0, 0);
        }
        // Reverting phase 1: remove the masks of the first t - 1 shares.
        let mut i: usize = 0;
        while i < t - 1
            invariant
                1 <= t == self.targted_threshold,
                t - 1 <= prp_pads@.len(),
                t - 1 <= count <= n,
                n == v2.len() == self.internal@.len(),
                i <= t - 1,
                forall|k: int|
                    0 <= k < n ==> #[trigger] self.internal@[k] == if k < i {
                        v2[k] ^ prp_pads@[k]
                    } else {
                        v2[k]
                    },
                self.targted_threshold == old(self).targted_threshold,
                self.active_level == old(self).active_level,
                self.key_materials == old(self).key_materials,
                self.authenticate == old(self).authenticate,
                scratch_contents(self.tmp_vector).len() == scratch_contents(
                    old(self).tmp_vector,
                ).len(),
            decreases t - 1 - i,
        {
            let a_block = self.get_block(i);
            let decrypted_block = a_block ^ prp_pads[i];
            self.set_block(i, &decrypted_block);
            i = i + 1;
        }
        assert(self.internal@ =~= mask_front(v2, prp_pads@, t - 1));
        if self.authenticate {
            let is_valid = recovered_tag == tag;
            if !is_valid && !silent {
                // a mismatch is ruled out by the precondition when not silent
                assert(false);
            }
            tag
        } else {
            0
        }
    }
}

/// Masking the last shares twice with the same pads leaves the blocks unchanged.
proof fn lemma_mask_back_twice(v: Seq<u128>, pads: Seq<u128>, count: int, n: int)
    ensures
        mask_back(mask_back(v, pads, count, n), pads, count, n) == v,
{
    let w = mask_back(mask_back(v, pads, count, n), pads, count, n);
    assert forall|k: int| 0 <= k < v.len() implies #[trigger] w[k] == v[k] by {
        lemma_xor_facts(v[k], pads[count - 1 - k], 0);
    }
    assert(w =~= v);
}

/// Masking the first shares twice with the same pads leaves the blocks unchanged.
proof fn lemma_mask_front_twice(v: Seq<u128>, pads: Seq<u128>, n: int)
    ensures
        mask_front(mask_front(v, pads, n), pads, n) == v,
{
    let w = mask_front(mask_front(v, pads, n), pads, n);
    assert forall|k: int| 0 <= k < v.len() implies #[trigger] w[k] == v[k] by {
        lemma_xor_facts(v[k], pads[k], 0);
    }
    assert(w =~= v);
}

/// One to any power is one.
proof fn lemma_gf_pow_one(n: nat)
    ensures
        gf_pow(1, n) == 1,
    decreases n,
{
    if n > 0 {
        lemma_gf_pow_one((n - 1) as nat);
        lemma_gf_mul_one(1);
    }
}

/// The first power is the element itself.
proof fn lemma_gf_pow_first(a: u128)
    ensures
        gf_pow(a, 1) == a,
{
    assert(gf_pow(a, 1) == gf_mul(gf_pow(a, 0), a));
    lemma_gf_mul_one(a);
}

/// Multiplying a power by the inverse of its base lowers the exponent by one.
proof fn lemma_gf_pow_step_down(a: u128, ia: u128, n: nat)
    requires
        n >= 1,
        gf_mul(a, ia) == 1,
    ensures
        gf_mul(gf_pow(a, n), ia) == gf_pow(a, (n - 1) as nat),
{
    let p = gf_pow(a, (n - 1) as nat);
    lemma_gf_mul_associates(p, a, ia);
    lemma_gf_mul_one(p);
}

/// The scalars after `s` steps of the coding chain are the powers `s + 1` of the key
/// scalars, and the blocks keep their number.
proof fn lemma_encode_chain_scalars(
    u: Seq<u128>,
    t: nat,
    m: Seq<Vec<u128>>,
    alpha: u128,
    beta: Seq<u128>,
    lt: nat,
    s: nat,
)
    ensures
        ({
            let e = encode_chain(u, t, m, alpha, beta, lt, s);
            &&& e.0.len() == u.len()
            &&& e.2 == gf_pow(alpha, s + 1)
            &&& e.3 == powered_factors(beta, lt, s + 1)
        }),
    decreases s,
{
    if s == 0 {
        lemma_gf_pow_first(alpha);
        assert forall|k: int| 0 <= k < beta.len() implies #[trigger] powered_factors(beta, lt, 1)[k]
            == beta[k] by {
            lemma_gf_pow_first(beta[k]);
        }
        assert(powered_factors(beta, lt, 1) =~= beta);
    } else {
        lemma_encode_chain_scalars(u, t, m, alpha, beta, lt, (s - 1) as nat);
        let e = encode_chain(u, t, m, alpha, beta, lt, s);
        assert(e.3 =~= powered_factors(beta, lt, s + 1));
    }
}

/// Decoding the windows of a coding chain from the last to the first, starting from
/// the powers of the scalars and stepping by their inverses, gives back the blocks
/// before the chain and the tag of the chain.
proof fn lemma_decode_chain_of_encode_chain(
    u: Seq<u128>,
    t: nat,
    m: Seq<Vec<u128>>,
    inv: Seq<Vec<u128>>,
    alpha: u128,
    inv_alpha: u128,
    beta: Seq<u128>,
    inv_beta: Seq<u128>,
    lt: nat,
    n: nat,
)
    requires
        windows_fit(n, t, u.len()),
        matrix_fits(m, t),
        matrix_fits(inv, t),
        t <= beta.len(),
        t <= inv_beta.len(),
        lt <= beta.len(),
        lt <= inv_beta.len(),
        is_left_inverse(inv, m, t),
        are_inverse_factors(beta, inv_beta, t),
        gf_mul(alpha, inv_alpha) == 1,
        forall|k: int| 0 <= k < lt ==> gf_mul(#[trigger] inv_beta[k], gf_inv(inv_beta[k])) == 1,
    ensures
        ({
            let e = encode_chain(u, t, m, alpha, beta, lt, n);
            decode_chain(
                e.0,
                t,
                inv,
                gf_pow(alpha, n),
                inv_alpha,
                powered_factors(inv_beta, lt, n),
                inverted_factors(inv_beta, lt),
                lt,
                n,
            ) == (u, e.1)
        }),
    decreases n,
{
    lemma_xor_facts(0, 0, 0);
    if n > 0 {
        let p = (n - 1) as nat;
        let prev = encode_chain(u, t, m, alpha, beta, lt, p);
        let e = encode_chain(u, t, m, alpha, beta, lt, n);
        let index = 2 * p as int;
        lemma_encode_chain_scalars(u, t, m, alpha, beta, lt, p);
        let a_n = gf_pow(alpha, n);
        let b_n = powered_factors(beta, lt, n);
        let ib_n = powered_factors(inv_beta, lt, n);
        let w = encoded_window(prev.0, index, t, a_n, m, b_n);
        assert(e.0 == replace_window(prev.0, index, w, a_n));
        // the factors of step n are inverses of each other
        assert forall|j: int| 0 <= j < t implies #[trigger] gf_mul(b_n[j], ib_n[j]) == 1 by {
            if j < lt {
                lemma_gf_pow_mul(beta[j], inv_beta[j], n);
                lemma_gf_pow_one(n);
            }
        }
        lemma_decode_inverts_encode(prev.0, index, t, a_n, m, inv, b_n, ib_n);
        lemma_decode_tag_of_encoded(prev.0, index, t, a_n, m, b_n);
        // the scalars of the next decoding step are those of step n - 1
        lemma_gf_pow_step_down(alpha, inv_alpha, n);
        let inv_f = inverted_factors(inv_beta, lt);
        assert forall|k: int| 0 <= k < inv_beta.len() implies #[trigger] scale_entries(
            ib_n,
            inv_f,
            lt,
        )[k] == powered_factors(inv_beta, lt, p)[k] by {
            if k < lt {
                lemma_gf_pow_step_down(inv_beta[k], gf_inv(inv_beta[k]), n);
            }
        }
        assert(scale_entries(ib_n, inv_f, lt) =~= powered_factors(inv_beta, lt, p));
        lemma_decode_chain_of_encode_chain(u, t, m, inv, alpha, inv_alpha, beta, inv_beta, lt, p);
        let d = decode_chain(e.0, t, inv, a_n, inv_alpha, ib_n, inv_f, lt, n);
        let step_tag = gf_sum(w, t);
        lemma_xor_facts(step_tag, prev.1, 0);
        assert(d.1 == step_tag ^ prev.1);
        assert(e.1 == prev.1 ^ step_tag);
    }
}

/// Decryption undoes encryption: with the same pads, a decoding matrix that is a left
/// inverse of the coding matrix, inverse scale factors that are the inverses of the
/// scale factors, a nonzero scalar `alpha` and nonzero inverse scale factors,
/// decrypting the encrypted blocks gives back the blocks, and the recomputed tag is the
/// tag of the encryption.
pub proof fn lemma_decrypt_inverts_encrypt(
    v: Seq<u128>,
    pads: Seq<u128>,
    count: int,
    t: nat,
    m: Seq<Vec<u128>>,
    inv: Seq<Vec<u128>>,
    alpha: u128,
    beta: Seq<u128>,
    inv_beta: Seq<u128>,
    lt: nat,
)
    requires
        1 <= t <= count <= v.len(),
        matrix_fits(m, t),
        matrix_fits(inv, t),
        t <= beta.len(),
        t <= inv_beta.len(),
        lt <= beta.len(),
        lt <= inv_beta.len(),
        is_left_inverse(inv, m, t),
        are_inverse_factors(beta, inv_beta, t),
        alpha != 0,
        forall|k: int| 0 <= k < lt ==> #[trigger] inv_beta[k] != 0,
    ensures
        ({
            let steps = window_steps(coded_vectors(count as nat, t));
            let e = encode_chain(mask_front(v, pads, t - 1), t, m, alpha, beta, lt, steps);
            let encrypted = mask_back(e.0, pads, count, t - 1);
            decrypt_blocks(encrypted, pads, count, t, inv, alpha, inv_beta, lt) == (v, e.1)
        }),
{
    let steps = window_steps(coded_vectors(count as nat, t));
    let u = mask_front(v, pads, t - 1);
    let e = encode_chain(u, t, m, alpha, beta, lt, steps);
    lemma_coded_windows_fit(count as nat, t, v.len());
    lemma_mask_back_twice(e.0, pads, count, t - 1);
    lemma_gf_inv(alpha);
    assert forall|k: int| 0 <= k < lt implies gf_mul(
        #[trigger] inv_beta[k],
        gf_inv(inv_beta[k]),
    ) == 1 by {
        lemma_gf_inv(inv_beta[k]);
    }
    lemma_decode_chain_of_encode_chain(
        u,
        t,
        m,
        inv,
        alpha,
        gf_inv(alpha),
        beta,
        inv_beta,
        lt,
        steps,
    );
    lemma_mask_front_twice(v, pads, t - 1);
}

/// Adding the offset `a` to each of the first `n` values changes their sum by `a` when
/// `n` is odd, and not at all when `n` is even.
proof fn lemma_gf_sum_offset(w: Seq<u128>, s: Seq<u128>, a: u128, n: nat)
    requires
        n <= w.len(),
        n <= s.len(),
        forall|j: int| 0 <= j < n ==> #[trigger] s[j] == w[j] ^ a,
    ensures
        gf_sum(s, n) == gf_sum(w, n) ^ (if n % 2 == 1 {
            a
        } else {
            0
        }),
    decreases n,
{
    if n == 0 {
        lemma_xor_facts(0, 0, 0);
    } else {
        let m = (n - 1) as nat;
        lemma_gf_sum_offset(w, s, a, m);
        let x = gf_sum(w, m);
        let y = w[m as int];
        assert(s[m as int] == y ^ a);
        if m % 2 == 1 {
            lemma_xor_swap(x, a, y, a);
            lemma_xor_facts(a, a, 0);
            lemma_xor_facts(x ^ y, 0, 0);
        } else {
            lemma_xor_facts(x, 0, 0);
            lemma_xor_facts(x, y, a);
        }
    }
}

/// Coding keeps the number of blocks.
proof fn lemma_encode_chain_len(
    v: Seq<u128>,
    t: nat,
    m: Seq<Vec<u128>>,
    alpha: u128,
    base_beta: Seq<u128>,
    lt: nat,
    steps: nat,
)
    ensures
        encode_chain(v, t, m, alpha, base_beta, lt, steps).0.len() == v.len(),
    decreases steps,
{
    if steps > 0 {
        lemma_encode_chain_len(v, t, m, alpha, base_beta, lt, (steps - 1) as nat);
    }
}

/// The tag of encryption sums the coded values of the windows before their offset:
/// each window coding adds to the tag the sum of the window's stored blocks, plus the
/// window's offset when the window holds an odd number of blocks.
pub proof fn lemma_encode_chain_tag_step(
    v: Seq<u128>,
    t: nat,
    m: Seq<Vec<u128>>,
    alpha: u128,
    base_beta: Seq<u128>,
    lt: nat,
    steps: nat,
)
    requires
        2 * steps + t <= v.len(),
    ensures
        ({
            let p = encode_chain(v, t, m, alpha, base_beta, lt, steps);
            let q = encode_chain(v, t, m, alpha, base_beta, lt, steps + 1);
            let window = q.0.subrange(2 * steps as int, (2 * steps + t) as int);
            q.1 == p.1 ^ gf_sum(window, t) ^ (if t % 2 == 1 {
                p.2
            } else {
                0
            })
        }),
{
    let p = encode_chain(v, t, m, alpha, base_beta, lt, steps);
    let q = encode_chain(v, t, m, alpha, base_beta, lt, steps + 1);
    lemma_encode_chain_len(v, t, m, alpha, base_beta, lt, steps);
    let index: int = (2 * steps) as int;
    let w = encoded_window(p.0, index, t, p.2, m, p.3);
    let window = q.0.subrange(index, index + t);
    assert forall|j: int| 0 <= j < t implies #[trigger] window[j] == w[j] ^ p.2 by {
        assert(window[j] == q.0[index + j]);
    }
    lemma_gf_sum_offset(w, window, p.2, t);
    let o: u128 = if t % 2 == 1 {
        p.2
    } else {
        0
    };
    lemma_xor_facts(p.1, gf_sum(w, t) ^ o, o);
    lemma_xor_facts(gf_sum(w, t), o, o);
    lemma_xor_facts(p.1, gf_sum(w, t), o);
}

/// Masking the back: block `count - 1 - i` gets pad `i`, for every `i < n`, whether or
/// not it is also among the first blocks; the other blocks are unchanged.
pub proof fn lemma_mask_back_blocks(v: Seq<u128>, pads: Seq<u128>, count: int, n: int)
    requires
        0 <= n <= count <= v.len(),
    ensures
        mask_back(v, pads, count, n).len() == v.len(),
        forall|i: int|
            0 <= i < n ==> #[trigger] mask_back(v, pads, count, n)[count - 1 - i] == v[count - 1
                - i] ^ pads[i],
        forall|k: int|
            0 <= k < v.len() && !(count - n <= k < count) ==> #[trigger] mask_back(
                v,
                pads,
                count,
                n,
            )[k] == v[k],
{
}

/// Masking the front: block `i` gets pad `i`, for every `i < n`; the other blocks are
/// unchanged.
pub proof fn lemma_mask_front_blocks(v: Seq<u128>, pads: Seq<u128>, n: int)
    requires
        0 <= n <= v.len(),
    ensures
        mask_front(v, pads, n).len() == v.len(),
        forall|i: int| 0 <= i < n ==> #[trigger] mask_front(v, pads, n)[i] == v[i] ^ pads[i],
        forall|k: int| n <= k < v.len() ==> #[trigger] mask_front(v, pads, n)[k] == v[k],
{
}

} // verus!
