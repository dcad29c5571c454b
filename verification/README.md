# aess_crypto

Verified authenticated encryption primitives, written in Verus.

- `src/words.rs`: big-endian 64-bit and little-endian 128-bit words from and to
  bytes, and rotations.
- `src/ascon_state.rs`: the 320-bit state and its permutation (round constant,
  bit-sliced S-box applied three times, linear diffusion, extra mixing).
- `src/ascon_ae.rs`: `Ascon128` encryption and decryption, with the laws that
  decryption undoes encryption and accepts only encryptions.
- `src/gf128.rs`: GF(2^128) arithmetic (x^128 = x^7 + x^2 + x + 1), with
  commutativity, associativity and distributivity of the multiplication proved,
  and that every nonzero element times its computed inverse (its power
  2^128 - 2) is one (`lemma_gf_inv`).
- `src/aess_core.rs`: the AeSS cipher core: data laid out as padded 128-bit
  blocks, and windows coded and decoded through a matrix, with the law that
  decoding with an inverse matrix undoes coding.
- `src/aess_cipher.rs`: AeSS encryption and decryption over the blocks, given the
  block-cipher pads, with the law that decryption restores the blocks and the tag
  (`lemma_decrypt_inverts_encrypt`).

The round-trip law of the AeSS cipher holds under these hypotheses on the key
material and the layout, which key generation is meant to provide:

- the decoding matrix is a left inverse of the coding matrix (`is_left_inverse`),
  both `t` by `t`;
- the inverse scale factors are the inverses of the first `t` scale factors
  (`are_inverse_factors`), and the first `lt` of them are nonzero;
- the scalar `alpha` is nonzero;
- a threshold `t` of at least one and at most the number of blocks.

Encryption codes a window of `t` blocks at every even index up to
`blocks_count - t`, so that with `t >= 2` every block is masked or coded
(`block_protected`, `lemma_every_block_protected`).

`decrypt` decodes with the decoding matrix held in the key scheme; it does not
compute that matrix anew from the coding matrix.

The block cipher that makes the pads and the generation of the key material are
not part of this crate: callers hand in the pads and a `KeyScheme`.
