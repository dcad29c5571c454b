//! The data layout and the vector coding of the AeSS cipher: data bytes seen as
//! 128-bit blocks of GF(2^128), coded window by window through a matrix.

use vstd::prelude::*;
use crate::words::{le_u128, u128_le, load_le_u128, store_le_u128, lemma_u128_le_of_le_u128};
use crate::gf128::{
    gf_mul, gf_dot, gf_sum, gf_sum_fn, gf128_mul, lemma_xor_facts, lemma_gf_dot_as_sum,
    lemma_gf_mul_sum_fn, lemma_gf_sum_fn_mul, lemma_gf_sum_fn_swap, lemma_gf_sum_fn_congruent,
    lemma_gf_sum_fn_single, lemma_gf_mul_associates, lemma_gf_mul_one, lemma_gf_mul_zero,
    gf_inv, gf128_invert, lemma_gf_inv,
};
use smallvec::SmallVec;

verus! {

/// Number of elements of the scratch vector that holds a window while it is coded.
pub const MAX_VECTOR_ELEMENTS: usize = 16;

/// Scratch storage for a window while it is coded: a `SmallVec` of blocks with inline
/// room for `MAX_VECTOR_ELEMENTS` of them, held in a private field and reached only
/// through the functions below.
#[verifier::external_body]
pub struct ScratchVector {
    inner: SmallVec<[u128; MAX_VECTOR_ELEMENTS]>,
}

/// The elements of a scratch vector, in order.
pub uninterp spec fn scratch_contents(v: ScratchVector) -> Seq<u128>;

/// `SmallVec::new`: an empty vector.
#[verifier::external_body]
fn scratch_new() -> (r: ScratchVector)
    ensures
        scratch_contents(r) == Seq::<u128>::empty(),
{
    ScratchVector { inner: SmallVec::new() }
}

/// `SmallVec::resize`: truncates to `len` elements, or appends copies of `value` up
/// to `len` elements. Stated for lengths within the inline capacity, where no
/// allocation takes place.
#[verifier::external_body]
fn scratch_resize(v: &mut ScratchVector, len: usize, value: u128)
    requires
        len <= MAX_VECTOR_ELEMENTS,
    ensures
        scratch_contents(*final(v)) == if len <= scratch_contents(*old(v)).len() {
            scratch_contents(*old(v)).subrange(0, len as int)
        } else {
            scratch_contents(*old(v)) + Seq::new(
                (len - scratch_contents(*old(v)).len()) as nat,
                |i: int| value,
            )
        },
{
    v.inner.resize(len, value)
}

/// Indexing a `SmallVec`: the element at `i`.
#[verifier::external_body]
fn scratch_get(v: &ScratchVector, i: usize) -> (r: u128)
    requires
        i < scratch_contents(*v).len(),
    ensures
        r == scratch_contents(*v)[i as int],
{
    v.inner[i]
}

/// Mutable indexing of a `SmallVec`: the element at `i` becomes `value`.
#[verifier::external_body]
fn scratch_set(v: &mut ScratchVector, i: usize, value: u128)
    requires
        i < scratch_contents(*old(v)).len(),
    ensures
        scratch_contents(*final(v)) == scratch_contents(*old(v)).update(i as int, value),
{
    v.inner[i] = value;
}

/// The number of data bytes: `in_length`, or all of the input when it is 0.
pub open spec fn data_length(bytes_len: nat, in_length: nat) -> nat {
    if in_length == 0 {
        bytes_len
    } else {
        in_length
    }
}

/// The number of blocks: the full 16-byte blocks, and one more for the padding.
pub open spec fn block_count(length: nat, add_padd: bool) -> nat {
    length / 16 + if add_padd {
        1nat
    } else {
        0nat
    }
}

/// The padding block: the bytes after the last full block, each following byte
/// holding the number of padding bytes (16 of them when no bytes remain).
pub open spec fn padding_block(bytes: Seq<u8>, length: nat) -> Seq<u8> {
    let r = length % 16;
    Seq::new(16, |i: int| if i < r { bytes[16 * (length / 16) + i] } else { (16 - r) as u8 })
}

/// The blocks of the data: each full 16-byte block read little-endian, then the
/// padding block when padding is asked for.
pub open spec fn data_blocks(bytes: Seq<u8>, length: nat, add_padd: bool) -> Seq<u128> {
    Seq::new(
        block_count(length, add_padd),
        |k: int|
            if k < length / 16 {
                le_u128(bytes.subrange(16 * k, 16 * k + 16))
            } else {
                le_u128(padding_block(bytes, length))
            },
    )
}

/// The little-endian bytes of all blocks, in order.
pub open spec fn blocks_bytes(blocks: Seq<u128>) -> Seq<u8>
    decreases blocks.len(),
{
    if blocks.len() == 0 {
        Seq::empty()
    } else {
        blocks_bytes(blocks.drop_last()) + u128_le(blocks.last())
    }
}

/// The product of the first `t` rows and columns of matrix `m` with the vector `x`.
pub open spec fn matrix_apply(m: Seq<Vec<u128>>, x: Seq<u128>, t: nat) -> Seq<u128> {
    Seq::new(t, |i: int| gf_dot(m[i]@, x, t))
}

/// The window `v[index..index + t]` offset by `alpha` and scaled by `beta`.
pub open spec fn encode_inputs(v: Seq<u128>, index: int, t: nat, alpha: u128, beta: Seq<u128>) -> Seq<
    u128,
> {
    Seq::new(t, |j: int| gf_mul(v[index + j] ^ alpha, beta[j]))
}

/// The window `v[index..index + t]` offset by `alpha`.
pub open spec fn decode_inputs(v: Seq<u128>, index: int, t: nat, alpha: u128) -> Seq<u128> {
    Seq::new(t, |j: int| v[index + j] ^ alpha)
}

/// `v` with the window at `index` replaced by `w`, each offset by `alpha`.
pub open spec fn replace_window(v: Seq<u128>, index: int, w: Seq<u128>, alpha: u128) -> Seq<u128> {
    Seq::new(
        v.len(),
        |k: int|
            if index <= k < index + w.len() {
                w[k - index] ^ alpha
            } else {
                v[k]
            },
    )
}

/// The coded window: the matrix applied to the offset and scaled window.
pub open spec fn encoded_window(
    v: Seq<u128>,
    index: int,
    t: nat,
    alpha: u128,
    m: Seq<Vec<u128>>,
    beta: Seq<u128>,
) -> Seq<u128> {
    matrix_apply(m, encode_inputs(v, index, t, alpha, beta), t)
}

/// The decoded window: the matrix applied to the offset window, then scaled.
pub open spec fn decoded_window(
    v: Seq<u128>,
    index: int,
    t: nat,
    alpha: u128,
    m: Seq<Vec<u128>>,
    inv_beta: Seq<u128>,
) -> Seq<u128> {
    let y = matrix_apply(m, decode_inputs(v, index, t, alpha), t);
    Seq::new(t, |i: int| gf_mul(y[i], inv_beta[i]))
}

/// The first `t` rows of `m` have at least `t` entries each.
pub open spec fn matrix_fits(m: Seq<Vec<u128>>, t: nat) -> bool {
    &&& t <= m.len()
    &&& forall|i: int| 0 <= i < t ==> t <= #[trigger] m[i]@.len()
}

/// Structure defining a decomposition level of the data to be encrypted/decrypted.
#[derive(Clone, Copy, Debug)]
pub struct LevelParams {
    pub start: usize,
    pub end: usize,
    pub blocks_count: usize,
    pub threshold: usize,
    pub max_part_size: usize,
    pub last_part_size: usize,
}

/// Key material of the cipher: two keys, an initialisation vector, the coding
/// matrix and its decoding matrices, and the scalars that offset and scale windows.
pub struct KeyScheme {
    pub key: [u128; 2],
    pub iv: u128,
    pub vender_matrix: Vec<Vec<u128>>,
    pub principal_dec_matrice: Vec<Vec<u128>>,
    pub secondary_dec_matrice: Vec<Vec<u128>>,
    pub alpha: u128,
    pub beta: u128,
    pub beta_vector: Vec<u128>,
    pub inv_beta_vector: Vec<u128>,
}

/// Data bytes held as 128-bit blocks, read as blocks or coded as vectors.
pub struct AeSSCipherCore {
    pub targted_threshold: usize,
    pub internal: Vec<u128>,
    pub tmp_vector: ScratchVector,
    pub active_level: LevelParams,
    pub key_materials: KeyScheme,
    pub authenticate: bool,
}

impl AeSSCipherCore {
    /// Lays out the first `in_length` bytes (all of them when 0) as blocks, with a
    /// padding block when `add_padd`, at the first decomposition level.
    pub fn new(
        bytes: &[u8],
        in_length: usize,
        add_padd: bool,
        targted_threshold: usize,
        key_materials: KeyScheme,
    ) -> (r: Self)
        requires
            data_length(bytes@.len(), in_length as nat) <= bytes@.len(),
            block_count(data_length(bytes@.len(), in_length as nat), add_padd) >= 1,
            targted_threshold >= 1,
        ensures
            ({
                let length = data_length(bytes@.len(), in_length as nat);
                let count = block_count(length, add_padd);
                &&& r.internal@ == data_blocks(bytes@, length, add_padd)
                &&& r.targted_threshold == targted_threshold
                &&& r.active_level.start == 0
                &&& r.active_level.end == count - 1
                &&& r.active_level.blocks_count == count
                &&& r.active_level.threshold == targted_threshold
                &&& r.active_level.max_part_size == targted_threshold
                &&& r.active_level.last_part_size == count % (targted_threshold as nat)
                &&& r.key_materials == key_materials
                &&& r.authenticate
                &&& scratch_contents(r.tmp_vector) == Seq::new(
                    MAX_VECTOR_ELEMENTS as nat,
                    |i: int| 0u128,
                )
            }),
    {
        let length = if in_length == 0 {
            bytes.len()
        } else {
            in_length
        };
        let full = length / 16;
        let blocks_count = full + if add_padd {
            1
        } else {
            0
        };
        let ghost target = data_blocks(bytes@, length as nat, add_padd);
        let mut out_bytes: Vec<u128> = Vec::with_capacity(blocks_count);
        let mut k: usize = 0;
        while k < full
            invariant
                k <= full,
                full == length / 16,
                length <= bytes@.len(),
                target == data_blocks(bytes@, length as nat, add_padd),
                out_bytes@ == target.subrange(0, k as int),
            decreases full - k,
        {
            let block = load_le_u128(bytes, 16 * k);
            out_bytes.push(block);
            k = k + 1;
            assert(out_bytes@ =~= target.subrange(0, k as int));
        }
        if add_padd {
            let last_block;
            if length % 16 == 0 {
                let sixteen = [16u8; 16];
                proof {
                    assert(sixteen@ =~= padding_block(bytes@, length as nat));
                    assert(sixteen@.subrange(0, 16) =~= sixteen@);
                }
                last_block = load_le_u128(&sixteen, 0);
            } else {
                let pad_size = 16 - length % 16;
                let mut pad = [0u8; 16];
                let mut i: usize = 0;
                while i < 16
                    invariant
                        i <= 16,
                        pad_size == 16 - length % 16,
                        0 < length % 16,
                        blocks_count == length / 16 + 1,
                        length <= bytes@.len(),
                        forall|j: int|
                            0 <= j < i ==> pad@[j] == #[trigger] padding_block(bytes@, length as nat)[j],
                    decreases 16 - i,
                {
                    if i >= 16 - pad_size {
                        pad[i] = pad_size as u8;
                    } else {
                        pad[i] = bytes[(blocks_count - 1) * 16 + i];
                    }
                    i = i + 1;
                }
                proof {
                    assert(pad@ =~= padding_block(bytes@, length as nat));
                    assert(pad@.subrange(0, 16) =~= pad@);
                }
                last_block = load_le_u128(&pad, 0);
            }
            out_bytes.push(last_block);
        }
        assert(out_bytes@ =~= target);
        let active_level = LevelParams {
            start: 0,
            end: blocks_count - 1,
            blocks_count,
            threshold: targted_threshold,
            max_part_size: targted_threshold,
            last_part_size: blocks_count % targted_threshold,
        };
        let mut tmp_vector = scratch_new();
        scratch_resize(&mut tmp_vector, MAX_VECTOR_ELEMENTS, 0);
        assert(scratch_contents(tmp_vector) =~= Seq::new(MAX_VECTOR_ELEMENTS as nat, |i: int| 0u128));
        AeSSCipherCore {
            targted_threshold,
            internal: out_bytes,
            tmp_vector,
            active_level,
            key_materials,
            authenticate: true,
        }
    }

    /// The bytes of all blocks.
    pub fn get_bytes_out(&self) -> (r: Vec<u8>)
        ensures
            r@ == blocks_bytes(self.internal@),
    {
        let mut out: Vec<u8> = Vec::new();
        let mut k: usize = 0;
        while k < self.internal.len()
            invariant
                k <= self.internal@.len(),
                out@ == blocks_bytes(self.internal@.subrange(0, k as int)),
            decreases self.internal@.len() - k,
        {
            let bytes = store_le_u128(self.internal[k]);
            let mut j: usize = 0;
            let ghost before = out@;
            while j < 16
                invariant
                    j <= 16,
                    bytes@ == u128_le(self.internal@[k as int]),
                    out@ == before + bytes@.subrange(0, j as int),
                decreases 16 - j,
            {
                out.push(bytes[j]);
                j = j + 1;
                assert(out@ =~= before + bytes@.subrange(0, j as int));
            }
            assert(self.internal@.subrange(0, k + 1).drop_last() =~= self.internal@.subrange(
                0,
                k as int,
            ));
            assert(bytes@.subrange(0, 16) =~= bytes@);
            k = k + 1;
        }
        assert(self.internal@.subrange(0, self.internal@.len() as int) =~= self.internal@);
        out
    }

    /// The bytes of all blocks, after encryption.
    pub fn encrypted_bytes(&self) -> (r: Vec<u8>)
        ensures
            r@ == blocks_bytes(self.internal@),
    {
        self.get_bytes_out()
    }

    /// The block at `index`.
    pub fn get_block(&self, index: usize) -> (r: u128)
        requires
            index < self.internal@.len(),
        ensures
            r == self.internal@[index as int],
    {
        self.internal[index]
    }

    /// Replaces the block at `index`.
    pub fn set_block(&mut self, index: usize, value: &u128)
        requires
            index < old(self).internal@.len(),
        ensures
            final(self).internal@ == old(self).internal@.update(index as int, *value),
            final(self).tmp_vector == old(self).tmp_vector,
            final(self).targted_threshold == old(self).targted_threshold,
            final(self).active_level == old(self).active_level,
            final(self).key_materials == old(self).key_materials,
            final(self).authenticate == old(self).authenticate,
    {
        self.internal.set(index, *value);
    }

    /// The blocks of the active level, in order.
    pub fn blocks(&self) -> (r: Vec<u128>)
        requires
            self.active_level.blocks_count <= self.internal@.len(),
        ensures
            r@ == self.internal@.subrange(0, self.active_level.blocks_count as int),
    {
        let mut out: Vec<u128> = Vec::new();
        let mut i: usize = 0;
        while i < self.active_level.blocks_count
            invariant
                i <= self.active_level.blocks_count <= self.internal@.len(),
                out@ == self.internal@.subrange(0, i as int),
            decreases self.active_level.blocks_count - i,
        {
            out.push(self.get_block(i));
            i = i + 1;
            assert(out@ =~= self.internal@.subrange(0, i as int));
        }
        out
    }

    /// Replaces the key material.
    pub fn set_key_scheme(&mut self, key_materials: KeyScheme)
        ensures
            final(self).key_materials == key_materials,
            final(self).internal@ == old(self).internal@,
            final(self).tmp_vector == old(self).tmp_vector,
            final(self).targted_threshold == old(self).targted_threshold,
            final(self).active_level == old(self).active_level,
            final(self).authenticate == old(self).authenticate,
    {
        self.key_materials = key_materials;
    }

    /// Codes the window of `targted_threshold` blocks at `index`: each block is offset
    /// by `alpha` and scaled by `beta_vector`, the coding matrix is applied, and each
    /// result, offset by `alpha` again, replaces its block. Returns the sum of the results.
    pub fn encode_vector(&mut self, index: usize, alpha: &u128, beta_vector: &Vec<u128>) -> (s_tag:
        u128)
        requires
            index + old(self).targted_threshold <= old(self).internal@.len(),
            matrix_fits(
                old(self).key_materials.vender_matrix@,
                old(self).targted_threshold as nat,
            ),
            old(self).targted_threshold <= beta_vector@.len(),
            old(self).targted_threshold <= scratch_contents(old(self).tmp_vector).len(),
        ensures
            ({
                let t = old(self).targted_threshold as nat;
                let w = encoded_window(
                    old(self).internal@,
                    index as int,
                    t,
                    *alpha,
                    old(self).key_materials.vender_matrix@,
                    beta_vector@,
                );
                &&& final(self).internal@ == replace_window(old(self).internal@, index as int, w, *alpha)
                &&& s_tag == gf_sum(w, t)
            }),
            final(self).targted_threshold == old(self).targted_threshold,
            final(self).active_level == old(self).active_level,
            final(self).key_materials == old(self).key_materials,
            final(self).authenticate == old(self).authenticate,
            scratch_contents(final(self).tmp_vector).len() == scratch_contents(
                old(self).tmp_vector,
            ).len(),
    {
        let threshold = self.targted_threshold;
        let alpha_val = *alpha;
        let n = self.internal.len();
        let ghost v0 = self.internal@;
        let ghost m = self.key_materials.vender_matrix@;
        let ghost x = encode_inputs(v0, index as int, threshold as nat, alpha_val, beta_vector@);
        let ghost w = encoded_window(v0, index as int, threshold as nat, alpha_val, m, beta_vector@);
        let ghost scratch_len = scratch_contents(self.tmp_vector).len();
        let ghost s0 = scratch_contents(self.tmp_vector);
        let mut i: usize = 0;
        while i < threshold
            invariant
                i <= threshold == self.targted_threshold,
                index + threshold <= n,
                n == v0.len(),
                self.internal@.len() == n,
                self.internal@ == v0,
                threshold <= beta_vector@.len(),
                threshold <= scratch_len,
                scratch_contents(self.tmp_vector).len() == scratch_len,
                x == encode_inputs(v0, index as int, threshold as nat, alpha_val, beta_vector@),
                forall|j: int| 0 <= j < i ==> scratch_contents(self.tmp_vector)[j] == x[j],
                s0.len() == scratch_len,
                forall|j: int|
                    i <= j < scratch_len ==> scratch_contents(self.tmp_vector)[j] == s0[j],
                self.targted_threshold == old(self).targted_threshold,
                self.active_level == old(self).active_level,
                self.key_materials == old(self).key_materials,
                self.authenticate == old(self).authenticate,
            decreases threshold - i,
        {
            let value = gf128_mul(self.internal[i + index] ^ alpha_val, beta_vector[i]);
            scratch_set(&mut self.tmp_vector, i, value);
            i = i + 1;
        }
        assert(scratch_contents(self.tmp_vector) =~= x + s0.skip(threshold as int));
        let mut s_tag: u128 = 0;
        let mut i: usize = 0;
        while i < threshold
            invariant
                i <= threshold == self.targted_threshold,
                index + threshold <= n,
                n == v0.len(),
                self.internal@.len() == n,
                m == self.key_materials.vender_matrix@,
                matrix_fits(m, threshold as nat),
                threshold <= scratch_len,
                scratch_contents(self.tmp_vector).len() == scratch_len,
                forall|j: int| 0 <= j < threshold ==> scratch_contents(self.tmp_vector)[j] == x[j],
                scratch_contents(self.tmp_vector) == x + s0.skip(threshold as int),
                x.len() == threshold,
                w == matrix_apply(m, x, threshold as nat),
                self.internal@ == replace_window(v0, index as int, w.subrange(0, i as int), alpha_val),
                s_tag == gf_sum(w, i as nat),
                self.targted_threshold == old(self).targted_threshold,
                self.active_level == old(self).active_level,
                self.key_materials == old(self).key_materials,
                self.authenticate == old(self).authenticate,
            decreases threshold - i,
        {
            let mut acc: u128 = 0;
            let mut mj: usize = 0;
            while mj < threshold
                invariant
                    i < threshold,
                    mj <= threshold,
                    m == self.key_materials.vender_matrix@,
                    matrix_fits(m, threshold as nat),
                    threshold <= scratch_contents(self.tmp_vector).len(),
                    forall|j: int| 0 <= j < threshold ==> scratch_contents(self.tmp_vector)[j] == x[j],
                    x.len() == threshold,
                    acc == gf_dot(m[i as int]@, x, mj as nat),
                decreases threshold - mj,
            {
                acc = acc ^ gf128_mul(
                    self.key_materials.vender_matrix[i][mj],
                    scratch_get(&self.tmp_vector, mj),
                );
                mj = mj + 1;
            }
            s_tag = s_tag ^ acc;
            self.internal.set(i + index, acc ^ alpha_val);
            i = i + 1;
            assert(self.internal@ =~= replace_window(
                v0,
                index as int,
                w.subrange(0, i as int),
                alpha_val,
            ));
        }
        assert(w.subrange(0, threshold as int) =~= w);
        s_tag
    }

    /// Decodes the window of `targted_threshold` blocks at `index`: each block is
    /// offset by `alpha`, the decoding matrix is applied, and each result, scaled by
    /// `inv_beta_vector` and offset by `alpha` again, replaces its block. Returns the
    /// sum of the offset blocks.
    pub fn decode_vector(&mut self, index: usize, alpha: &u128, inv_beta_vector: &Vec<u128>) -> (s_tag:
        u128)
        requires
            index + old(self).targted_threshold <= old(self).internal@.len(),
            matrix_fits(
                old(self).key_materials.principal_dec_matrice@,
                old(self).targted_threshold as nat,
            ),
            old(self).targted_threshold <= inv_beta_vector@.len(),
            old(self).targted_threshold <= scratch_contents(old(self).tmp_vector).len(),
        ensures
            ({
                let t = old(self).targted_threshold as nat;
                let w = decoded_window(
                    old(self).internal@,
                    index as int,
                    t,
                    *alpha,
                    old(self).key_materials.principal_dec_matrice@,
                    inv_beta_vector@,
                );
                &&& final(self).internal@ == replace_window(old(self).internal@, index as int, w, *alpha)
                &&& s_tag == gf_sum(decode_inputs(old(self).internal@, index as int, t, *alpha), t)
                &&& scratch_contents(final(self).tmp_vector) == decode_inputs(
                    old(self).internal@,
                    index as int,
                    t,
                    *alpha,
                ) + scratch_contents(old(self).tmp_vector).skip(t as int)
            }),
            final(self).targted_threshold == old(self).targted_threshold,
            final(self).active_level == old(self).active_level,
            final(self).key_materials == old(self).key_materials,
            final(self).authenticate == old(self).authenticate,
            scratch_contents(final(self).tmp_vector).len() == scratch_contents(
                old(self).tmp_vector,
            ).len(),
    {
        let threshold = self.targted_threshold;
        let alpha_val = *alpha;
        let n = self.internal.len();
        let ghost v0 = self.internal@;
        let ghost m = self.key_materials.principal_dec_matrice@;
        let ghost x = decode_inputs(v0, index as int, threshold as nat, alpha_val);
        let ghost y = matrix_apply(m, x, threshold as nat);
        let ghost w = decoded_window(v0, index as int, threshold as nat, alpha_val, m, inv_beta_vector@);
        let mut s_tag: u128 = 0;
        let ghost scratch_len = scratch_contents(self.tmp_vector).len();
        let ghost s0 = scratch_contents(self.tmp_vector);
        let mut i: usize = 0;
        while i < threshold
            invariant
                i <= threshold == self.targted_threshold,
                index + threshold <= n,
                n == v0.len(),
                self.internal@.len() == n,
                self.internal@ == v0,
                threshold <= scratch_len,
                scratch_contents(self.tmp_vector).len() == scratch_len,
                x == decode_inputs(v0, index as int, threshold as nat, alpha_val),
                forall|j: int| 0 <= j < i ==> scratch_contents(self.tmp_vector)[j] == x[j],
                s0.len() == scratch_len,
                forall|j: int|
                    i <= j < scratch_len ==> scratch_contents(self.tmp_vector)[j] == s0[j],
                s_tag == gf_sum(x, i as nat),
                self.targted_threshold == old(self).targted_threshold,
                self.active_level == old(self).active_level,
                self.key_materials == old(self).key_materials,
                self.authenticate == old(self).authenticate,
            decreases threshold - i,
        {
            let value = self.internal[i + index] ^ alpha_val;
            scratch_set(&mut self.tmp_vector, i, value);
            s_tag = s_tag ^ value;
            i = i + 1;
        }
        assert(scratch_contents(self.tmp_vector) =~= x + s0.skip(threshold as int));
        let mut i: usize = 0;
        while i < threshold
            invariant
                i <= threshold == self.targted_threshold,
                index + threshold <= n,
                n == v0.len(),
                self.internal@.len() == n,
                threshold <= inv_beta_vector@.len(),
                m == self.key_materials.principal_dec_matrice@,
                matrix_fits(m, threshold as nat),
                threshold <= scratch_len,
                scratch_contents(self.tmp_vector).len() == scratch_len,
                forall|j: int| 0 <= j < threshold ==> scratch_contents(self.tmp_vector)[j] == x[j],
                scratch_contents(self.tmp_vector) == x + s0.skip(threshold as int),
                x.len() == threshold,
                y == matrix_apply(m, x, threshold as nat),
                w == Seq::new(threshold as nat, |k: int| gf_mul(y[k], inv_beta_vector@[k])),
                self.internal@ == replace_window(v0, index as int, w.subrange(0, i as int), alpha_val),
                self.targted_threshold == old(self).targted_threshold,
                self.active_level == old(self).active_level,
                self.key_materials == old(self).key_materials,
                self.authenticate == old(self).authenticate,
            decreases threshold - i,
        {
            let mut acc: u128 = 0;
            let mut mj: usize = 0;
            while mj < threshold
                invariant
                    i < threshold,
                    mj <= threshold,
                    m == self.key_materials.principal_dec_matrice@,
                    matrix_fits(m, threshold as nat),
                    threshold <= scratch_contents(self.tmp_vector).len(),
                    forall|j: int| 0 <= j < threshold ==> scratch_contents(self.tmp_vector)[j] == x[j],
                    x.len() == threshold,
                    acc == gf_dot(m[i as int]@, x, mj as nat),
                decreases threshold - mj,
            {
                acc = acc ^ gf128_mul(
                    self.key_materials.principal_dec_matrice[i][mj],
                    scratch_get(&self.tmp_vector, mj),
                );
                mj = mj + 1;
            }
            let result = gf128_mul(acc, inv_beta_vector[i]);
            self.internal.set(i + index, result ^ alpha_val);
            i = i + 1;
            assert(self.internal@ =~= replace_window(
                v0,
                index as int,
                w.subrange(0, i as int),
                alpha_val,
            ));
        }
        assert(w.subrange(0, threshold as int) =~= w);
        s_tag
    }

    /// The number of vectors of the active level.
    pub fn vectors_count(&self) -> (r: usize)
        ensures
            r == self.active_level.max_part_size,
    {
        self.active_level.max_part_size
    }
}

/// The tag that decoding computes on a freshly coded window is the tag that coding
/// returned: whatever the matrices and scalars, the sum of the offset coded blocks is
/// the sum of the coded values.
pub proof fn lemma_decode_tag_of_encoded(
    v: Seq<u128>,
    index: int,
    t: nat,
    alpha: u128,
    m: Seq<Vec<u128>>,
    beta: Seq<u128>,
)
    requires
        0 <= index,
        index + t <= v.len(),
    ensures
        ({
            let w = encoded_window(v, index, t, alpha, m, beta);
            gf_sum(decode_inputs(replace_window(v, index, w, alpha), index, t, alpha), t) == gf_sum(
                w,
                t,
            )
        }),
{
    let w = encoded_window(v, index, t, alpha, m, beta);
    let d = decode_inputs(replace_window(v, index, w, alpha), index, t, alpha);
    assert forall|j: int| 0 <= j < t implies #[trigger] d[j] == w[j] by {
        lemma_xor_facts(w[j], alpha, 0);
    }
    assert(d =~= w);
}

/// The bytes of a run of blocks: block `k` gives bytes `16 * k .. 16 * k + 16`.
proof fn lemma_blocks_bytes_index(blocks: Seq<u128>)
    ensures
        blocks_bytes(blocks).len() == 16 * blocks.len(),
        forall|k: int, j: int|
            0 <= k < blocks.len() && 0 <= j < 16 ==> #[trigger] blocks_bytes(blocks)[16 * k + j]
                == u128_le(blocks[k])[j],
    decreases blocks.len(),
{
    if blocks.len() > 0 {
        let prefix = blocks.drop_last();
        lemma_blocks_bytes_index(prefix);
        assert forall|k: int, j: int|
            0 <= k < blocks.len() && 0 <= j < 16 implies #[trigger] blocks_bytes(blocks)[16 * k + j]
            == u128_le(blocks[k])[j] by {
            if k < prefix.len() {
                assert(blocks_bytes(prefix)[16 * k + j] == u128_le(prefix[k])[j]);
            }
        }
    }
}

/// Laying data out as padded blocks and reading the blocks back as bytes gives the
/// data followed by its padding: `16 - r` bytes of value `16 - r`, where `r` is the
/// number of bytes after the last full block.
pub proof fn lemma_padded_layout_bytes(bytes: Seq<u8>, length: nat)
    requires
        length <= bytes.len(),
    ensures
        blocks_bytes(data_blocks(bytes, length, true)) == bytes.subrange(0, length as int) + Seq::new(
            (16 - length % 16) as nat,
            |i: int| (16 - length % 16) as u8,
        ),
{
    let blocks = data_blocks(bytes, length, true);
    let out = blocks_bytes(blocks);
    let target = bytes.subrange(0, length as int) + Seq::new(
        (16 - length % 16) as nat,
        |i: int| (16 - length % 16) as u8,
    );
    let full = length / 16;
    lemma_blocks_bytes_index(blocks);
    assert forall|p: int| 0 <= p < out.len() implies #[trigger] out[p] == target[p] by {
        let k = p / 16;
        let j = p % 16;
        assert(p == 16 * k + j);
        assert(out[16 * k + j] == u128_le(blocks[k])[j]);
        if k < full {
            lemma_u128_le_of_le_u128(bytes.subrange(16 * k, 16 * k + 16));
        } else {
            lemma_u128_le_of_le_u128(padding_block(bytes, length));
        }
    }
    assert(out =~= target);
}

/// Without padding, the blocks read back as bytes are the full 16-byte blocks of the data.
pub proof fn lemma_unpadded_layout_bytes(bytes: Seq<u8>, length: nat)
    requires
        length <= bytes.len(),
    ensures
        blocks_bytes(data_blocks(bytes, length, false)) == bytes.subrange(
            0,
            16 * (length / 16) as int,
        ),
{
    let blocks = data_blocks(bytes, length, false);
    let out = blocks_bytes(blocks);
    let target = bytes.subrange(0, 16 * (length / 16) as int);
    lemma_blocks_bytes_index(blocks);
    assert forall|p: int| 0 <= p < out.len() implies #[trigger] out[p] == target[p] by {
        let k = p / 16;
        let j = p % 16;
        assert(p == 16 * k + j);
        assert(out[16 * k + j] == u128_le(blocks[k])[j]);
        lemma_u128_le_of_le_u128(bytes.subrange(16 * k, 16 * k + 16));
    }
    assert(out =~= target);
}

/// Column `l` of the first `t` rows of `m`.
pub open spec fn column(m: Seq<Vec<u128>>, l: int, t: nat) -> Seq<u128> {
    Seq::new(t, |j: int| m[j]@[l])
}

/// `inv` times `m` is the identity on the first `t` rows and columns.
pub open spec fn is_left_inverse(inv: Seq<Vec<u128>>, m: Seq<Vec<u128>>, t: nat) -> bool {
    forall|i: int, l: int|
        0 <= i < t && 0 <= l < t ==> #[trigger] gf_dot(inv[i]@, column(m, l, t), t) == if i == l {
            1u128
        } else {
            0u128
        }
}

/// Each of the first `t` scale factors times its inverse factor is one.
pub open spec fn are_inverse_factors(beta: Seq<u128>, inv_beta: Seq<u128>, t: nat) -> bool {
    forall|j: int| 0 <= j < t ==> #[trigger] gf_mul(beta[j], inv_beta[j]) == 1
}

/// The inverse scale factors: each of the scale factors inverted. Where the factors
/// are nonzero, the two vectors are inverse factors of each other.
pub fn inverse_factors(beta: &Vec<u128>) -> (r: Vec<u128>)
    ensures
        r.len() == beta.len(),
        forall|j: int| 0 <= j < beta.len() ==> #[trigger] r@[j] == gf_inv(beta@[j]),
        (forall|j: int| 0 <= j < beta.len() ==> #[trigger] beta@[j] != 0) ==> are_inverse_factors(
            beta@,
            r@,
            beta.len() as nat,
        ),
{
    let mut r: Vec<u128> = Vec::new();
    let mut i: usize = 0;
    while i < beta.len()
        invariant
            i <= beta.len(),
            r.len() == i,
            forall|j: int| 0 <= j < i ==> #[trigger] r@[j] == gf_inv(beta@[j]),
        decreases beta.len() - i,
    {
        let inv = gf128_invert(beta[i]);
        r.push(inv);
        i = i + 1;
    }
    proof {
        if forall|j: int| 0 <= j < beta.len() ==> #[trigger] beta@[j] != 0 {
            assert forall|j: int| 0 <= j < beta.len() implies #[trigger] gf_mul(beta@[j], r@[j])
                == 1 by {
                lemma_gf_inv(beta@[j]);
            }
        }
    }
    r
}

/// Row `i` of a left inverse of `m`, applied to `m x`, gives back `x[i]`.
proof fn lemma_inverse_row(inv: Seq<Vec<u128>>, m: Seq<Vec<u128>>, x: Seq<u128>, t: nat, i: int)
    requires
        0 <= i < t,
        x.len() == t,
        matrix_fits(m, t),
        matrix_fits(inv, t),
        is_left_inverse(inv, m, t),
    ensures
        gf_dot(inv[i]@, matrix_apply(m, x, t), t) == x[i],
{
    let r = inv[i]@;
    let w = matrix_apply(m, x, t);
    let f = |j: int, l: int| gf_mul(gf_mul(r[j], m[j]@[l]), x[l]);
    lemma_gf_dot_as_sum(r, w, t);
    // each term of the row sum is a sum over the columns
    assert forall|j: int| 0 <= j < t implies gf_mul(r[j], #[trigger] w[j]) == gf_sum_fn(
        |l: int| f(j, l),
        t,
    ) by {
        let row = m[j]@;
        let p = |k: int| gf_mul(row[k], x[k]);
        let q = |k: int| gf_mul(r[j], p(k));
        let fj = |l: int| f(j, l);
        assert(w[j] == gf_dot(row, x, t));
        lemma_gf_dot_as_sum(row, x, t);
        assert(gf_dot(row, x, t) == gf_sum_fn(p, t));
        lemma_gf_mul_sum_fn(r[j], p, t);
        assert(gf_mul(r[j], gf_sum_fn(p, t)) == gf_sum_fn(q, t));
        assert forall|l: int| 0 <= l < t implies #[trigger] q(l) == fj(l) by {
            lemma_gf_mul_associates(r[j], row[l], x[l]);
        }
        lemma_gf_sum_fn_congruent(q, fj, t);
    }
    lemma_gf_sum_fn_congruent(
        |k: int| gf_mul(r[k], w[k]),
        |j: int| gf_sum_fn(|l: int| f(j, l), t),
        t,
    );
    lemma_gf_sum_fn_swap(f, t, t);
    // each column sum is the entry of the product of the matrices, times x[l]
    let g = |l: int| gf_mul(if i == l { 1u128 } else { 0u128 }, x[l]);
    assert forall|l: int| 0 <= l < t implies gf_sum_fn(|j: int| f(j, l), t) == #[trigger] g(l) by {
        let c = column(m, l, t);
        let p = |j: int| gf_mul(r[j], m[j]@[l]);
        let q = |j: int| gf_mul(p(j), x[l]);
        let fl = |j: int| f(j, l);
        let rc = |k: int| gf_mul(r[k], c[k]);
        lemma_gf_sum_fn_mul(p, x[l], t);
        assert(gf_mul(gf_sum_fn(p, t), x[l]) == gf_sum_fn(q, t));
        lemma_gf_dot_as_sum(r, c, t);
        assert(gf_dot(r, c, t) == gf_sum_fn(rc, t));
        assert forall|k: int| 0 <= k < t implies #[trigger] rc(k) == p(k) by {
            assert(c[k] == m[k]@[l]);
        }
        lemma_gf_sum_fn_congruent(rc, p, t);
        assert forall|k: int| 0 <= k < t implies #[trigger] q(k) == fl(k) by {}
        lemma_gf_sum_fn_congruent(q, fl, t);
        assert(gf_dot(inv[i]@, column(m, l, t), t) == if i == l {
            1u128
        } else {
            0u128
        });
    }
    lemma_gf_sum_fn_congruent(|l: int| gf_sum_fn(|j: int| f(j, l), t), g, t);
    assert forall|l: int| 0 <= l < t && l != i implies #[trigger] g(l) == 0 by {
        lemma_gf_mul_zero(x[l]);
    }
    lemma_gf_sum_fn_single(g, i, t);
    lemma_gf_mul_one(x[i]);
}

/// Decoding undoes coding: when the decoding matrix is a left inverse of the coding
/// matrix and the inverse scale factors are the inverses of the scale factors, decoding
/// the coded window with the same offset gives back the blocks.
pub proof fn lemma_decode_inverts_encode(
    v: Seq<u128>,
    index: int,
    t: nat,
    alpha: u128,
    m: Seq<Vec<u128>>,
    inv: Seq<Vec<u128>>,
    beta: Seq<u128>,
    inv_beta: Seq<u128>,
)
    requires
        0 <= index,
        index + t <= v.len(),
        matrix_fits(m, t),
        matrix_fits(inv, t),
        t <= beta.len(),
        t <= inv_beta.len(),
        is_left_inverse(inv, m, t),
        are_inverse_factors(beta, inv_beta, t),
    ensures
        ({
            let e = replace_window(v, index, encoded_window(v, index, t, alpha, m, beta), alpha);
            replace_window(e, index, decoded_window(e, index, t, alpha, inv, inv_beta), alpha) == v
        }),
{
    let x = encode_inputs(v, index, t, alpha, beta);
    let w = encoded_window(v, index, t, alpha, m, beta);
    let e = replace_window(v, index, w, alpha);
    let d = decode_inputs(e, index, t, alpha);
    assert forall|j: int| 0 <= j < t implies #[trigger] d[j] == w[j] by {
        lemma_xor_facts(w[j], alpha, 0);
    }
    assert(d =~= w);
    let dw = decoded_window(e, index, t, alpha, inv, inv_beta);
    let out = replace_window(e, index, dw, alpha);
    assert forall|k: int| 0 <= k < v.len() implies #[trigger] out[k] == v[k] by {
        if index <= k < index + t {
            let i = k - index;
            lemma_inverse_row(inv, m, x, t, i);
            lemma_gf_mul_associates(v[k] ^ alpha, beta[i], inv_beta[i]);
            lemma_gf_mul_one(v[k] ^ alpha);
            lemma_xor_facts(v[k], alpha, 0);
        }
    }
    assert(out =~= v);
}

} // verus!
