//! Ascon-128 style authenticated encryption with associated data.

use vstd::prelude::*;
use vstd::slice::slice_subrange;
use crate::words::{
    be_u64, u64_be, zeros, xor_bytes, load_be_u64, store_be_u64, lemma_be_u64_of_u64_be,
    lemma_u64_be_of_be_u64, lemma_u64_be_xor, lemma_be_u64_zeros, lemma_u64_be_index,
};
use crate::ascon_state::{AsconState, permute, initial_state};

verus! {

/// The `k`-th 8-byte block of `data`.
pub open spec fn block_at(data: Seq<u8>, k: int) -> Seq<u8> {
    data.subrange(8 * k, 8 * k + 8)
}

/// The bytes of `data` after its last full 8-byte block.
pub open spec fn tail(data: Seq<u8>) -> Seq<u8> {
    data.subrange(8 * (data.len() / 8) as int, data.len() as int)
}

/// Eight bytes that are zero but for `0x80` at position `r`.
pub open spec fn pad_bytes(r: int) -> Seq<u8> {
    Seq::new(8, |j: int| if j == r { 0x80u8 } else { 0u8 })
}

/// The padding word for a final block of `r` bytes.
pub open spec fn pad_word(r: int) -> u64 {
    be_u64(pad_bytes(r))
}

/// The state with word 0 replaced by `v`.
pub open spec fn with_x0(s: [u64; 5], v: u64) -> [u64; 5] {
    [v, s[1], s[2], s[3], s[4]]
}

/// The key word `k` (0 or 1) of a 16-byte key.
pub open spec fn key_word(key: Seq<u8>, k: int) -> u64 {
    be_u64(key.subrange(8 * k, 8 * k + 8))
}

/// The state after absorbing the first `n` full blocks of `data`.
pub open spec fn absorb_blocks(s: [u64; 5], data: Seq<u8>, n: nat) -> [u64; 5]
    decreases n,
{
    if n == 0 {
        s
    } else {
        let p = absorb_blocks(s, data, (n - 1) as nat);
        permute(with_x0(p, p[0] ^ be_u64(block_at(data, n - 1))), 6)
    }
}

/// The state after absorbing associated data: its full blocks, then its tail
/// padded with `0x80` and zeros.
pub open spec fn absorb_ad(s: [u64; 5], ad: Seq<u8>) -> [u64; 5] {
    let p = absorb_blocks(s, ad, ad.len() / 8);
    let t = tail(ad);
    permute(with_x0(p, p[0] ^ be_u64(t + seq![0x80u8] + zeros((7 - t.len()) as nat))), 6)
}

/// The state and the ciphertext after encrypting the first `n` full blocks of `pt`.
pub open spec fn encrypt_blocks(s: [u64; 5], pt: Seq<u8>, n: nat) -> ([u64; 5], Seq<u8>)
    decreases n,
{
    if n == 0 {
        (s, Seq::empty())
    } else {
        let prev = encrypt_blocks(s, pt, (n - 1) as nat);
        let x0 = prev.0[0] ^ be_u64(block_at(pt, n - 1));
        (permute(with_x0(prev.0, x0), 6), prev.1 + u64_be(x0))
    }
}

/// The state and the ciphertext after encrypting all of `pt`.
pub open spec fn encrypt_message(s: [u64; 5], pt: Seq<u8>) -> ([u64; 5], Seq<u8>) {
    let prev = encrypt_blocks(s, pt, pt.len() / 8);
    let t = tail(pt);
    let x0 = prev.0[0] ^ be_u64(t + zeros((8 - t.len()) as nat));
    (with_x0(prev.0, x0 ^ pad_word(t.len() as int)), prev.1 + u64_be(x0).subrange(0, t.len() as int))
}

/// The state and the plaintext after decrypting the first `n` full blocks of `ct`.
pub open spec fn decrypt_blocks(s: [u64; 5], ct: Seq<u8>, n: nat) -> ([u64; 5], Seq<u8>)
    decreases n,
{
    if n == 0 {
        (s, Seq::empty())
    } else {
        let prev = decrypt_blocks(s, ct, (n - 1) as nat);
        let c = be_u64(block_at(ct, n - 1));
        (permute(with_x0(prev.0, c), 6), prev.1 + u64_be(prev.0[0] ^ c))
    }
}

/// The state and the plaintext after decrypting all of `ct`: in the final partial
/// block, word 0 takes the ciphertext bytes and keeps its own remaining bytes.
pub open spec fn decrypt_message(s: [u64; 5], ct: Seq<u8>) -> ([u64; 5], Seq<u8>) {
    let prev = decrypt_blocks(s, ct, ct.len() / 8);
    let t = tail(ct);
    let own = u64_be(prev.0[0]);
    let x0 = be_u64(t + own.subrange(t.len() as int, 8));
    (
        with_x0(prev.0, x0 ^ pad_word(t.len() as int)),
        prev.1 + u64_be(prev.0[0] ^ be_u64(t + zeros((8 - t.len()) as nat))).subrange(
            0,
            t.len() as int,
        ),
    )
}

/// The state after finalisation with the key.
pub open spec fn finalize(s: [u64; 5], key: Seq<u8>) -> [u64; 5] {
    let k0 = key_word(key, 0);
    let k1 = key_word(key, 1);
    let p = permute([s[0], s[1] ^ k0, s[2] ^ k1, s[3], s[4]], 12);
    [p[0], p[1], p[2], p[3] ^ k0, p[4] ^ k1]
}

/// Finalisation reads the key as big-endian words: for a key made of the bytes of the
/// words `k0, k1`, it adds `k0, k1` to words 1 and 2, applies the permutation with 12
/// rounds, and adds `k0, k1` to words 3 and 4.
pub proof fn lemma_finalize_of_key_words(s: [u64; 5], k0: u64, k1: u64)
    ensures
        ({
            let p = permute([s[0], s[1] ^ k0, s[2] ^ k1, s[3], s[4]], 12);
            finalize(s, u64_be(k0) + u64_be(k1)) == [p[0], p[1], p[2], p[3] ^ k0, p[4] ^ k1]
        }),
{
    let key = u64_be(k0) + u64_be(k1);
    assert(key.subrange(8 * 0int, 8 * 0int + 8) =~= u64_be(k0));
    assert(key.subrange(8 * 1int, 8 * 1int + 8) =~= u64_be(k1));
    lemma_be_u64_of_u64_be(k0);
    lemma_be_u64_of_u64_be(k1);
}

/// The 16-byte authentication tag of a finalised state.
pub open spec fn tag_bytes(s: [u64; 5]) -> Seq<u8> {
    u64_be(s[3]) + u64_be(s[4])
}

/// The state before the message: initialised, with the associated data absorbed
/// when there is any, and with the domain separation bit set.
pub open spec fn message_start(key: Seq<u8>, nonce: Seq<u8>, ad: Seq<u8>) -> [u64; 5] {
    let s = initial_state(key, nonce);
    let a = if ad.len() > 0 {
        absorb_ad(s, ad)
    } else {
        s
    };
    [a[0], a[1], a[2], a[3], a[4] ^ 1]
}

/// Ciphertext followed by the 16-byte tag.
pub open spec fn ascon_encrypt(key: Seq<u8>, nonce: Seq<u8>, ad: Seq<u8>, pt: Seq<u8>) -> Seq<u8> {
    let e = encrypt_message(message_start(key, nonce, ad), pt);
    e.1 + tag_bytes(finalize(e.0, key))
}

/// The plaintext when the last 16 bytes of `data` are the tag of the rest.
pub open spec fn ascon_decrypt(key: Seq<u8>, nonce: Seq<u8>, ad: Seq<u8>, data: Seq<u8>) -> Option<
    Seq<u8>,
> {
    if data.len() < 16 {
        None
    } else {
        let n = data.len() - 16;
        let d = decrypt_message(message_start(key, nonce, ad), data.subrange(0, n));
        if tag_bytes(finalize(d.0, key)) == data.subrange(n, data.len() as int) {
            Some(d.1)
        } else {
            None
        }
    }
}

/// Appends the first `count` bytes of `bytes` to `out`.
fn push_bytes(out: &mut Vec<u8>, bytes: &[u8; 8], count: usize)
    requires
        count <= 8,
    ensures
        final(out)@ == old(out)@ + bytes@.subrange(0, count as int),
{
    let mut j: usize = 0;
    while j < count
        invariant
            j <= count <= 8,
            out@ == old(out)@ + bytes@.subrange(0, j as int),
        decreases count - j,
    {
        out.push(bytes[j]);
        j = j + 1;
        assert(out@ =~= old(out)@ + bytes@.subrange(0, j as int));
    }
}

/// An 8-byte block holding `data[i..i + r]` followed by zeros.
fn partial_block(data: &[u8], i: usize, r: usize) -> (b: [u8; 8])
    requires
        r < 8,
        i + r <= data@.len(),
    ensures
        b@ == data@.subrange(i as int, i + r) + zeros((8 - r) as nat),
{
    let mut b = [0u8; 8];
    let mut j: usize = 0;
    while j < r
        invariant
            j <= r < 8,
            i + r <= data.len(),
            forall|k: int| 0 <= k < j ==> b@[k] == data@[i + k],
            forall|k: int| j <= k < 8 ==> b@[k] == 0u8,
        decreases r - j,
    {
        b[j] = data[i + j];
        j = j + 1;
    }
    assert(b@ =~= data@.subrange(i as int, i + r) + zeros((8 - r) as nat));
    b
}

/// Word read from a byte array of length 8.
proof fn lemma_array_word(b: [u8; 8])
    ensures
        b@.subrange(0, 8) == b@,
{
    assert(b@.subrange(0, 8) =~= b@);
}

/// The padding word for an empty final block.
proof fn lemma_pad_word_zero()
    ensures
        pad_word(0) == 0x8000000000000000u64,
        be_u64(seq![0x80u8] + zeros(7)) == 0x8000000000000000u64,
{
    assert(pad_bytes(0) =~= seq![0x80u8] + zeros(7));
    let b = pad_bytes(0);
    assert(b[0] == 0x80u8 && b[1] == 0u8 && b[2] == 0u8 && b[3] == 0u8 && b[4] == 0u8 && b[5] == 0u8
        && b[6] == 0u8 && b[7] == 0u8);
    assert(((0x80u8 as u64) << 56u64) | ((0u8 as u64) << 48u64) | ((0u8 as u64) << 40u64) | ((
    0u8 as u64) << 32u64) | ((0u8 as u64) << 24u64) | ((0u8 as u64) << 16u64) | ((0u8 as u64)
        << 8u64) | (0u8 as u64) == 0x8000000000000000u64) by (bit_vector);
}

/// After the loop over full blocks, `k` blocks of 8 bytes remain fewer than 8 bytes short.
proof fn lemma_full_blocks(len: nat, k: nat)
    requires
        8 * k <= len < 8 * k + 8,
    ensures
        len / 8 == k,
{
}

/// Adding zero leaves a word unchanged.
proof fn lemma_xor_zero(x: u64)
    ensures
        x ^ 0 == x,
{
    assert(x ^ 0 == x) by (bit_vector);
}

/// Ascon-128 AEAD cipher.
pub struct Ascon128 {
    key: [u8; 16],
}

impl View for Ascon128 {
    type V = Seq<u8>;

    /// The 16 key bytes.
    closed spec fn view(&self) -> Seq<u8> {
        self.key@
    }
}

impl Ascon128 {
    /// Creates a new Ascon-128 instance with the given key.
    pub fn new(key: [u8; 16]) -> (r: Self)
        ensures
            r@ == key@,
    {
        Ascon128 { key }
    }

    /// Encrypts `plaintext` and authenticates it with `associated_data`:
    /// the ciphertext followed by the 16-byte tag.
    pub fn encrypt(&self, nonce: &[u8; 16], associated_data: &[u8], plaintext: &[u8]) -> (r: Vec<
        u8,
    >)
        ensures
            r@ == ascon_encrypt(self@, nonce@, associated_data@, plaintext@),
    {
        let mut state = AsconState::initialize(&self.key, nonce);
        if !associated_data.is_empty() {
            self.process_associated_data(&mut state, associated_data);
        }
        state.x[4] = state.x[4] ^ 1;
        let ghost start = state.x;
        let ciphertext = self.process_plaintext(&mut state, plaintext);
        self.finalize_state(&mut state);
        let mut result = ciphertext;
        push_bytes(&mut result, &store_be_u64(state.x[3]), 8);
        push_bytes(&mut result, &store_be_u64(state.x[4]), 8);
        proof {
            assert(start =~= message_start(self@, nonce@, associated_data@));
            assert(u64_be(state.x[3]).subrange(0, 8) =~= u64_be(state.x[3]));
            assert(u64_be(state.x[4]).subrange(0, 8) =~= u64_be(state.x[4]));
            assert(result@ =~= ascon_encrypt(self@, nonce@, associated_data@, plaintext@));
        }
        result
    }

    /// Decrypts and verifies: the plaintext when the tag is right, `None` otherwise.
    pub fn decrypt(&self, nonce: &[u8; 16], associated_data: &[u8], ciphertext_with_tag: &[u8]) -> (r:
        Option<Vec<u8>>)
        ensures
            match r {
                Some(p) => ascon_decrypt(self@, nonce@, associated_data@, ciphertext_with_tag@)
                    == Some(p@),
                None => ascon_decrypt(self@, nonce@, associated_data@, ciphertext_with_tag@) is None,
            },
    {
        if ciphertext_with_tag.len() < 16 {
            return None;
        }
        let ciphertext_len = ciphertext_with_tag.len() - 16;
        let ciphertext = slice_subrange(ciphertext_with_tag, 0, ciphertext_len);
        let received_tag = slice_subrange(
            ciphertext_with_tag,
            ciphertext_len,
            ciphertext_with_tag.len(),
        );
        let mut state = AsconState::initialize(&self.key, nonce);
        if !associated_data.is_empty() {
            self.process_associated_data(&mut state, associated_data);
        }
        state.x[4] = state.x[4] ^ 1;
        let ghost start = state.x;
        let plaintext = self.process_ciphertext(&mut state, ciphertext);
        self.finalize_state(&mut state);
        let mut expected_tag: Vec<u8> = Vec::new();
        push_bytes(&mut expected_tag, &store_be_u64(state.x[3]), 8);
        push_bytes(&mut expected_tag, &store_be_u64(state.x[4]), 8);
        proof {
            assert(start =~= message_start(self@, nonce@, associated_data@));
            assert(u64_be(state.x[3]).subrange(0, 8) =~= u64_be(state.x[3]));
            assert(u64_be(state.x[4]).subrange(0, 8) =~= u64_be(state.x[4]));
            assert(expected_tag@ =~= tag_bytes(state.x));
        }
        if constant_time_eq(expected_tag.as_slice(), received_tag) {
            Some(plaintext)
        } else {
            None
        }
    }

    /// Finalisation: key added to words 1 and 2, twelve rounds, key added to words 3 and 4.
    fn finalize_state(&self, state: &mut AsconState)
        ensures
            final(state).x == finalize(old(state).x, self@),
    {
        let k0 = load_be_u64(&self.key, 0);
        let k1 = load_be_u64(&self.key, 8);
        let ghost s0 = state.x;
        proof {
            assert(self.key@.subrange(0int, 0int + 8) =~= self@.subrange(8 * 0int, 8 * 0int + 8));
            assert(self.key@.subrange(8int, 8int + 8) =~= self@.subrange(8 * 1int, 8 * 1int + 8));
        }
        state.x[1] = state.x[1] ^ k0;
        state.x[2] = state.x[2] ^ k1;
        assert(state.x =~= [s0[0], s0[1] ^ k0, s0[2] ^ k1, s0[3], s0[4]]);
        state.permutation(12);
        state.x[3] = state.x[3] ^ k0;
        state.x[4] = state.x[4] ^ k1;
        assert(state.x =~= finalize(s0, self@));
    }

    /// Absorbs the associated data into the state.
    fn process_associated_data(&self, state: &mut AsconState, data: &[u8])
        ensures
            final(state).x == absorb_ad(old(state).x, data@),
            final(state).x == absorb_blocks(old(state).x, padded(data@), padded(data@).len() / 8),
    {
        let ghost s0 = state.x;
        proof {
            lemma_absorb_ad_padded(s0, data@);
        }
        let mut i: usize = 0;
        let ghost mut k: nat = 0;
        while 8 <= data.len() - i
            invariant
                i <= data@.len(),
                i == 8 * k,
                state.x == absorb_blocks(s0, data@, k),
            decreases data@.len() - i,
        {
            let ghost p = state.x;
            state.x[0] = state.x[0] ^ load_be_u64(data, i);
            assert(state.x =~= with_x0(p, p[0] ^ be_u64(block_at(data@, k as int))));
            state.permutation(6);
            i = i + 8;
            proof {
                k = k + 1;
            }
        }
        proof {
            lemma_full_blocks(data@.len(), k);
        }
        let ghost p = state.x;
        if i < data.len() {
            let r = data.len() - i;
            let mut last_block = partial_block(data, i, r);
            last_block[r] = 0x80;
            proof {
                assert(last_block@ =~= tail(data@) + seq![0x80u8] + zeros((7 - r) as nat));
                lemma_array_word(last_block);
            }
            state.x[0] = state.x[0] ^ load_be_u64(&last_block, 0);
            assert(state.x =~= with_x0(p, p[0] ^ be_u64(tail(data@) + seq![0x80u8] + zeros((7 - r) as nat))));
            state.permutation(6);
        } else {
            proof {
                lemma_pad_word_zero();
                assert(tail(data@) + seq![0x80u8] + zeros(7) =~= seq![0x80u8] + zeros(7));
            }
            state.x[0] = state.x[0] ^ 0x8000000000000000u64;
            assert(state.x =~= with_x0(p, p[0] ^ be_u64(tail(data@) + seq![0x80u8] + zeros(7))));
            state.permutation(6);
        }
        assert(state.x =~= absorb_ad(s0, data@));
    }

    /// Encrypts the plaintext into a ciphertext of the same length.
    fn process_plaintext(&self, state: &mut AsconState, plaintext: &[u8]) -> (ct: Vec<u8>)
        ensures
            (final(state).x, ct@) == encrypt_message(old(state).x, plaintext@),
            ({
                let p = padded(plaintext@);
                let m = plaintext@.len() / 8;
                let q = absorb_blocks(old(state).x, p, m);
                final(state).x == with_x0(q, q[0] ^ be_u64(block_at(p, m as int)))
            }),
            ct@.len() == plaintext@.len(),
            forall|i: int|
                0 <= i < plaintext@.len() ==> #[trigger] ct@[i] == plaintext@[i] ^ u64_be(
                    absorb_blocks(old(state).x, plaintext@, (i / 8) as nat)[0],
                )[i % 8],
    {
        let ghost s0 = state.x;
        proof {
            lemma_encrypt_message_padded(s0, plaintext@);
        }
        let mut ciphertext: Vec<u8> = Vec::with_capacity(plaintext.len());
        let mut i: usize = 0;
        let ghost mut k: nat = 0;
        while 8 <= plaintext.len() - i
            invariant
                i <= plaintext@.len(),
                i == 8 * k,
                (state.x, ciphertext@) == encrypt_blocks(s0, plaintext@, k),
            decreases plaintext@.len() - i,
        {
            let ghost p = state.x;
            let block = load_be_u64(plaintext, i);
            state.x[0] = state.x[0] ^ block;
            push_bytes(&mut ciphertext, &store_be_u64(state.x[0]), 8);
            proof {
                assert(u64_be(state.x[0]).subrange(0, 8) =~= u64_be(state.x[0]));
            }
            assert(state.x =~= with_x0(p, p[0] ^ be_u64(block_at(plaintext@, k as int))));
            state.permutation(6);
            i = i + 8;
            proof {
                k = k + 1;
            }
        }
        proof {
            lemma_full_blocks(plaintext@.len(), k);
        }
        let ghost p = state.x;
        let ghost t = tail(plaintext@);
        if i < plaintext.len() {
            let remaining = plaintext.len() - i;
            let mut last_block = partial_block(plaintext, i, remaining);
            proof {
                lemma_array_word(last_block);
            }
            let block = load_be_u64(&last_block, 0);
            state.x[0] = state.x[0] ^ block;
            push_bytes(&mut ciphertext, &store_be_u64(state.x[0]), remaining);
            last_block = [0u8; 8];
            last_block[remaining] = 0x80;
            proof {
                assert(last_block@ =~= pad_bytes(remaining as int));
                lemma_array_word(last_block);
            }
            state.x[0] = state.x[0] ^ load_be_u64(&last_block, 0);
        } else {
            proof {
                lemma_pad_word_zero();
                lemma_be_u64_zeros();
                lemma_xor_zero(p[0]);
                assert(t + zeros(8) =~= zeros(8));
                assert(u64_be(p[0] ^ 0).subrange(0, 0) =~= Seq::<u8>::empty());
            }
            state.x[0] = state.x[0] ^ 0x8000000000000000u64;
        }
        assert(state.x =~= encrypt_message(s0, plaintext@).0);
        assert(ciphertext@ =~= encrypt_message(s0, plaintext@).1);
        ciphertext
    }

    /// Decrypts the ciphertext into a plaintext of the same length.
    fn process_ciphertext(&self, state: &mut AsconState, ciphertext: &[u8]) -> (pt: Vec<u8>)
        ensures
            (final(state).x, pt@) == decrypt_message(old(state).x, ciphertext@),
    {
        let ghost s0 = state.x;
        let mut plaintext: Vec<u8> = Vec::with_capacity(ciphertext.len());
        let mut i: usize = 0;
        let ghost mut k: nat = 0;
        while 8 <= ciphertext.len() - i
            invariant
                i <= ciphertext@.len(),
                i == 8 * k,
                (state.x, plaintext@) == decrypt_blocks(s0, ciphertext@, k),
            decreases ciphertext@.len() - i,
        {
            let ghost p = state.x;
            let ct_block = load_be_u64(ciphertext, i);
            let pt_block = state.x[0] ^ ct_block;
            push_bytes(&mut plaintext, &store_be_u64(pt_block), 8);
            proof {
                assert(u64_be(pt_block).subrange(0, 8) =~= u64_be(pt_block));
            }
            state.x[0] = ct_block;
            assert(state.x =~= with_x0(p, be_u64(block_at(ciphertext@, k as int))));
            state.permutation(6);
            i = i + 8;
            proof {
                k = k + 1;
            }
        }
        proof {
            lemma_full_blocks(ciphertext@.len(), k);
        }
        let ghost p = state.x;
        let ghost t = tail(ciphertext@);
        if i < ciphertext.len() {
            let remaining = ciphertext.len() - i;
            let mut ct_block = partial_block(ciphertext, i, remaining);
            proof {
                lemma_array_word(ct_block);
            }
            let ct = load_be_u64(&ct_block, 0);
            let mask = (!0u64) << (8 * (8 - remaining as u64));
            let pt = state.x[0] ^ ct;
            push_bytes(&mut plaintext, &store_be_u64(pt), remaining);
            proof {
                lemma_merge_tail(t, p[0]);
            }
            state.x[0] = (ct & mask) | (state.x[0] & !mask);
            ct_block = [0u8; 8];
            ct_block[remaining] = 0x80;
            proof {
                assert(ct_block@ =~= pad_bytes(remaining as int));
                lemma_array_word(ct_block);
            }
            state.x[0] = state.x[0] ^ load_be_u64(&ct_block, 0);
        } else {
            proof {
                lemma_pad_word_zero();
                lemma_be_u64_zeros();
                lemma_xor_zero(p[0]);
                lemma_be_u64_of_u64_be(p[0]);
                assert(t + zeros(8) =~= zeros(8));
                assert(t + u64_be(p[0]).subrange(0, 8) =~= u64_be(p[0]));
                assert(u64_be(p[0] ^ 0).subrange(0, 0) =~= Seq::<u8>::empty());
            }
            state.x[0] = state.x[0] ^ 0x8000000000000000u64;
        }
        assert(state.x =~= decrypt_message(s0, ciphertext@).0);
        assert(plaintext@ =~= decrypt_message(s0, ciphertext@).1);
        plaintext
    }
}

/// Merging the first `t.len()` bytes of a ciphertext word into a state word under the
/// byte mask gives the word whose bytes are the ciphertext bytes, then the state's own.
proof fn lemma_merge_tail(t: Seq<u8>, s: u64)
    requires
        0 < t.len() < 8,
    ensures
        ({
            let w = be_u64(t + zeros((8 - t.len()) as nat));
            let mask = (!0u64) << (8 * (8 - t.len())) as u64;
            (w & mask) | (s & !mask) == be_u64(t + u64_be(s).subrange(t.len() as int, 8))
        }),
{
    let r = t.len() as u64;
    let w = be_u64(t + zeros((8 - t.len()) as nat));
    let mask = (!0u64) << (8 * (8 - t.len())) as u64;
    let m = (w & mask) | (s & !mask);
    let target = t + u64_be(s).subrange(t.len() as int, 8);
    lemma_u64_be_of_be_u64(t + zeros((8 - t.len()) as nat));
    lemma_u64_be_index(m);
    lemma_u64_be_index(w);
    lemma_u64_be_index(s);
    assert forall|j: int| 0 <= j < 8 implies #[trigger] u64_be(m)[j] == target[j] by {
        let jj = j as u64;
        lemma_merge_byte(w, s, r, jj);
        assert((8 * (7 - j)) as u64 == (8 * (7 - jj)) as u64);
        assert((8 * (8 - t.len())) as u64 == (8 * (8 - r)) as u64);
        if j < t.len() {
            assert(u64_be(w)[j] == (t + zeros((8 - t.len()) as nat))[j]);
        }
    }
    assert(u64_be(m) =~= target);
    lemma_be_u64_of_u64_be(m);
}

/// One byte of a masked merge of two words.
proof fn lemma_merge_byte(w: u64, s: u64, r: u64, j: u64)
    requires
        0 < r < 8,
        j < 8,
    ensures
        j < r ==> ((((w & (!0u64 << ((8 * (8 - r)) as u64))) | (s & !(!0u64 << ((8 * (8 - r)) as u64))))
            >> ((8 * (7 - j)) as u64)) as u8) == ((w >> ((8 * (7 - j)) as u64)) as u8),
        j >= r ==> ((((w & (!0u64 << ((8 * (8 - r)) as u64))) | (s & !(!0u64 << ((8 * (8 - r)) as u64))))
            >> ((8 * (7 - j)) as u64)) as u8) == ((s >> ((8 * (7 - j)) as u64)) as u8),
{
    assert(j < r ==> ((((w & (!0u64 << ((8 * (8 - r)) as u64))) | (s & !(!0u64 << ((8 * (8 - r)) as u64))))
        >> ((8 * (7 - j)) as u64)) as u8) == ((w >> ((8 * (7 - j)) as u64)) as u8)) by (bit_vector)
        requires
            0 < r < 8,
            j < 8,
    ;
    assert(j >= r ==> ((((w & (!0u64 << ((8 * (8 - r)) as u64))) | (s & !(!0u64 << ((8 * (8 - r)) as u64))))
        >> ((8 * (7 - j)) as u64)) as u8) == ((s >> ((8 * (7 - j)) as u64)) as u8)) by (bit_vector)
        requires
            0 < r < 8,
            j < 8,
    ;
}

/// Compares two byte strings, looking at every byte whatever the others hold.
fn constant_time_eq(a: &[u8], b: &[u8]) -> (r: bool)
    ensures
        r == (a@ == b@),
{
    if a.len() != b.len() {
        return false;
    }
    let mut result: u8 = 0;
    let mut i: usize = 0;
    while i < a.len()
        invariant
            i <= a@.len(),
            a@.len() == b@.len(),
            (result == 0) == (forall|k: int| 0 <= k < i ==> a@[k] == b@[k]),
        decreases a@.len() - i,
    {
        let x = a[i];
        let y = b[i];
        let old_result = result;
        result = result | (x ^ y);
        assert((old_result | (x ^ y)) == 0 <==> (old_result == 0 && x == y)) by (bit_vector);
        i = i + 1;
    }
    if result == 0 {
        assert(a@ =~= b@);
        true
    } else {
        false
    }
}

/// Byte laws of exclusive or used by the inversion proofs.
proof fn lemma_byte_xor(a: u8, b: u8)
    ensures
        a ^ 0u8 == a,
        0u8 ^ a == a,
        a ^ (a ^ b) == b,
        a ^ b == b ^ a,
{
    assert(a ^ 0u8 == a && 0u8 ^ a == a && a ^ (a ^ b) == b && a ^ b == b ^ a) by (bit_vector);
}

/// Word law of exclusive or used by the inversion proofs.
proof fn lemma_word_xor(a: u64, b: u64)
    ensures
        a ^ (a ^ b) == b,
        forall|c: u64| #[trigger] ((a ^ b) ^ c) == a ^ (b ^ c),
{
    assert(a ^ (a ^ b) == b) by (bit_vector);
    assert forall|c: u64| #[trigger] ((a ^ b) ^ c) == a ^ (b ^ c) by {
        assert((a ^ b) ^ c == a ^ (b ^ c)) by (bit_vector);
    }
}

/// The ciphertext of `n` full blocks has `8 * n` bytes.
proof fn lemma_encrypt_blocks_len(s: [u64; 5], pt: Seq<u8>, n: nat)
    ensures
        encrypt_blocks(s, pt, n).1.len() == 8 * n,
    decreases n,
{
    if n > 0 {
        lemma_encrypt_blocks_len(s, pt, (n - 1) as nat);
    }
}

/// The plaintext of `n` full blocks has `8 * n` bytes.
proof fn lemma_decrypt_blocks_len(s: [u64; 5], ct: Seq<u8>, n: nat)
    ensures
        decrypt_blocks(s, ct, n).1.len() == 8 * n,
    decreases n,
{
    if n > 0 {
        lemma_decrypt_blocks_len(s, ct, (n - 1) as nat);
    }
}

/// Decrypting the ciphertext of the first `n` full blocks gives back the state and the
/// plaintext blocks.
proof fn lemma_decrypt_blocks_of_encrypt(s: [u64; 5], pt: Seq<u8>, ct: Seq<u8>, n: nat)
    requires
        8 * n <= pt.len(),
        8 * n <= ct.len(),
        ct.subrange(0, 8 * n as int) == encrypt_blocks(s, pt, n).1,
    ensures
        decrypt_blocks(s, ct, n) == (encrypt_blocks(s, pt, n).0, pt.subrange(0, 8 * n as int)),
    decreases n,
{
    if n > 0 {
        let m = (n - 1) as nat;
        let e = encrypt_blocks(s, pt, m);
        lemma_encrypt_blocks_len(s, pt, m);
        let x0 = e.0[0] ^ be_u64(block_at(pt, m as int));
        assert(ct.subrange(0, 8 * m as int) =~= ct.subrange(0, 8 * n as int).subrange(0, 8 * m as int));
        assert(encrypt_blocks(s, pt, n).1 =~= e.1 + u64_be(x0));
        assert(ct.subrange(0, 8 * m as int) =~= e.1);
        lemma_decrypt_blocks_of_encrypt(s, pt, ct, m);
        assert forall|j: int| 0 <= j < 8 implies #[trigger] block_at(ct, m as int)[j] == u64_be(
            x0,
        )[j] by {
            assert(ct.subrange(0, 8 * n as int)[8 * m + j] == ct[8 * m + j]);
        }
        assert(block_at(ct, m as int) =~= u64_be(x0));
        lemma_be_u64_of_u64_be(x0);
        lemma_word_xor(e.0[0], be_u64(block_at(pt, m as int)));
        lemma_u64_be_of_be_u64(block_at(pt, m as int));
        assert(pt.subrange(0, 8 * n as int) =~= pt.subrange(0, 8 * m as int) + block_at(pt, m as int));
    }
}

/// Encrypting the plaintext of the first `n` full blocks gives back the state and the
/// ciphertext blocks.
proof fn lemma_encrypt_blocks_of_decrypt(s: [u64; 5], ct: Seq<u8>, pt: Seq<u8>, n: nat)
    requires
        8 * n <= pt.len(),
        8 * n <= ct.len(),
        pt.subrange(0, 8 * n as int) == decrypt_blocks(s, ct, n).1,
    ensures
        encrypt_blocks(s, pt, n) == (decrypt_blocks(s, ct, n).0, ct.subrange(0, 8 * n as int)),
    decreases n,
{
    if n > 0 {
        let m = (n - 1) as nat;
        let d = decrypt_blocks(s, ct, m);
        lemma_decrypt_blocks_len(s, ct, m);
        let c = be_u64(block_at(ct, m as int));
        assert(pt.subrange(0, 8 * m as int) =~= pt.subrange(0, 8 * n as int).subrange(0, 8 * m as int));
        assert(decrypt_blocks(s, ct, n).1 =~= d.1 + u64_be(d.0[0] ^ c));
        assert(pt.subrange(0, 8 * m as int) =~= d.1);
        lemma_encrypt_blocks_of_decrypt(s, ct, pt, m);
        assert forall|j: int| 0 <= j < 8 implies #[trigger] block_at(pt, m as int)[j] == u64_be(
            d.0[0] ^ c,
        )[j] by {
            assert(pt.subrange(0, 8 * n as int)[8 * m + j] == pt[8 * m + j]);
        }
        assert(block_at(pt, m as int) =~= u64_be(d.0[0] ^ c));
        lemma_be_u64_of_u64_be(d.0[0] ^ c);
        lemma_word_xor(d.0[0], c);
        lemma_u64_be_of_be_u64(block_at(ct, m as int));
        assert(ct.subrange(0, 8 * n as int) =~= ct.subrange(0, 8 * m as int) + block_at(ct, m as int));
    }
}

/// Decrypting the ciphertext of a message gives back the message, and decryption
/// reaches the state that encryption reached, from any starting state.
pub proof fn lemma_decrypt_message_of_encrypt(s: [u64; 5], pt: Seq<u8>)
    ensures
        decrypt_message(s, encrypt_message(s, pt).1) == (encrypt_message(s, pt).0, pt),
{
    let n = pt.len() / 8;
    let e = encrypt_blocks(s, pt, n);
    let ct = encrypt_message(s, pt).1;
    let t = tail(pt);
    let r = t.len();
    let p0 = e.0[0];
    let x0 = p0 ^ be_u64(t + zeros((8 - r) as nat));
    lemma_encrypt_blocks_len(s, pt, n);
    assert(ct.len() == pt.len());
    assert(ct.len() / 8 == n);
    assert(ct.subrange(0, 8 * n as int) =~= e.1);
    lemma_decrypt_blocks_of_encrypt(s, pt, ct, n);
    let tc = tail(ct);
    assert(tc =~= u64_be(x0).subrange(0, r as int));
    let own = u64_be(p0);
    lemma_u64_be_xor(p0, be_u64(t + zeros((8 - r) as nat)));
    lemma_u64_be_of_be_u64(t + zeros((8 - r) as nat));
    assert forall|j: int| 0 <= j < 8 implies #[trigger] (tc + own.subrange(r as int, 8))[j]
        == u64_be(x0)[j] by {
        if j >= r {
            lemma_byte_xor(own[j], 0u8);
        }
    }
    assert(tc + own.subrange(r as int, 8) =~= u64_be(x0));
    lemma_be_u64_of_u64_be(x0);
    let y = p0 ^ be_u64(tc + zeros((8 - r) as nat));
    lemma_u64_be_xor(p0, be_u64(tc + zeros((8 - r) as nat)));
    lemma_u64_be_of_be_u64(tc + zeros((8 - r) as nat));
    assert forall|j: int| 0 <= j < r implies #[trigger] u64_be(y).subrange(0, r as int)[j]
        == t[j] by {
        lemma_byte_xor(own[j], t[j]);
    }
    assert(u64_be(y).subrange(0, r as int) =~= t);
    assert(pt.subrange(0, 8 * n as int) + t =~= pt);
}

/// Encrypting the plaintext of a ciphertext gives back the ciphertext, and encryption
/// reaches the state that decryption reached, from any starting state.
pub proof fn lemma_encrypt_message_of_decrypt(s: [u64; 5], ct: Seq<u8>)
    ensures
        encrypt_message(s, decrypt_message(s, ct).1) == (decrypt_message(s, ct).0, ct),
{
    let n = ct.len() / 8;
    let d = decrypt_blocks(s, ct, n);
    let pt = decrypt_message(s, ct).1;
    let t = tail(ct);
    let r = t.len();
    let p0 = d.0[0];
    let own = u64_be(p0);
    let y = p0 ^ be_u64(t + zeros((8 - r) as nat));
    lemma_decrypt_blocks_len(s, ct, n);
    assert(pt.len() == ct.len());
    assert(pt.len() / 8 == n);
    assert(pt.subrange(0, 8 * n as int) =~= d.1);
    lemma_encrypt_blocks_of_decrypt(s, ct, pt, n);
    let tp = tail(pt);
    assert(tp =~= u64_be(y).subrange(0, r as int));
    lemma_u64_be_xor(p0, be_u64(t + zeros((8 - r) as nat)));
    lemma_u64_be_of_be_u64(t + zeros((8 - r) as nat));
    let x0 = p0 ^ be_u64(tp + zeros((8 - r) as nat));
    lemma_u64_be_xor(p0, be_u64(tp + zeros((8 - r) as nat)));
    lemma_u64_be_of_be_u64(tp + zeros((8 - r) as nat));
    assert forall|j: int| 0 <= j < 8 implies #[trigger] u64_be(x0)[j] == (t + own.subrange(
        r as int,
        8,
    ))[j] by {
        if j >= r {
            lemma_byte_xor(own[j], 0u8);
        } else {
            lemma_byte_xor(own[j], t[j]);
        }
    }
    assert(u64_be(x0) =~= t + own.subrange(r as int, 8));
    lemma_be_u64_of_u64_be(x0);
    assert(u64_be(x0).subrange(0, r as int) =~= t);
    assert(ct.subrange(0, 8 * n as int) + t =~= ct);
}

/// Encryption adds exactly the 16-byte tag to the length of the plaintext.
pub proof fn lemma_ciphertext_length(key: Seq<u8>, nonce: Seq<u8>, ad: Seq<u8>, pt: Seq<u8>)
    ensures
        ascon_encrypt(key, nonce, ad, pt).len() == pt.len() + 16,
{
    let s = message_start(key, nonce, ad);
    lemma_encrypt_blocks_len(s, pt, pt.len() / 8);
}

/// Decryption undoes encryption: with the same key, nonce and associated data, the
/// output of `encrypt` decrypts to the plaintext.
pub proof fn lemma_decrypt_encrypt(key: Seq<u8>, nonce: Seq<u8>, ad: Seq<u8>, pt: Seq<u8>)
    ensures
        ascon_decrypt(key, nonce, ad, ascon_encrypt(key, nonce, ad, pt)) == Some(pt),
{
    let s = message_start(key, nonce, ad);
    let e = encrypt_message(s, pt);
    let data = ascon_encrypt(key, nonce, ad, pt);
    let tag = tag_bytes(finalize(e.0, key));
    lemma_ciphertext_length(key, nonce, ad, pt);
    lemma_encrypt_blocks_len(s, pt, pt.len() / 8);
    assert(e.1.len() == pt.len());
    assert(data.subrange(0, data.len() - 16) =~= e.1);
    assert(data.subrange(data.len() - 16, data.len() as int) =~= tag);
    lemma_decrypt_message_of_encrypt(s, pt);
}

/// Decryption accepts only encryptions: whenever `decrypt` returns a plaintext, the
/// input is exactly the output of `encrypt` on that plaintext.
pub proof fn lemma_accepted_is_encryption(
    key: Seq<u8>,
    nonce: Seq<u8>,
    ad: Seq<u8>,
    data: Seq<u8>,
    pt: Seq<u8>,
)
    requires
        ascon_decrypt(key, nonce, ad, data) == Some(pt),
    ensures
        ascon_encrypt(key, nonce, ad, pt) == data,
{
    let s = message_start(key, nonce, ad);
    let n = (data.len() - 16) as int;
    let ct = data.subrange(0, n);
    lemma_encrypt_message_of_decrypt(s, ct);
    assert(data =~= ct + data.subrange(n, data.len() as int));
}

/// The data followed by `0x80` and zeros up to a multiple of 8 bytes.
pub open spec fn padded(data: Seq<u8>) -> Seq<u8> {
    data + seq![0x80u8] + zeros((7 - data.len() % 8) as nat)
}

/// Absorbing depends only on the blocks absorbed.
proof fn lemma_absorb_blocks_same_blocks(s: [u64; 5], a: Seq<u8>, b: Seq<u8>, n: nat)
    requires
        forall|k: int| 0 <= k < n ==> #[trigger] block_at(a, k) == block_at(b, k),
    ensures
        absorb_blocks(s, a, n) == absorb_blocks(s, b, n),
    decreases n,
{
    if n > 0 {
        lemma_absorb_blocks_same_blocks(s, a, b, (n - 1) as nat);
    }
}

/// The full blocks of the data are the first blocks of the padded data, and its last
/// block is the tail followed by `0x80` and zeros.
proof fn lemma_padded_blocks(data: Seq<u8>)
    ensures
        padded(data).len() == 8 * (data.len() / 8 + 1),
        forall|k: int| 0 <= k < data.len() / 8 ==> #[trigger] block_at(padded(data), k) == block_at(data, k),
        block_at(padded(data), (data.len() / 8) as int) == tail(data) + seq![0x80u8] + zeros(
            (7 - tail(data).len()) as nat,
        ),
{
    let p = padded(data);
    let m = data.len() / 8;
    assert forall|k: int| 0 <= k < m implies #[trigger] block_at(p, k) == block_at(data, k) by {
        assert(block_at(p, k) =~= block_at(data, k));
    }
    assert(block_at(p, m as int) =~= tail(data) + seq![0x80u8] + zeros((7 - tail(data).len()) as nat));
}

/// Absorbing associated data is absorbing every 8-byte block of the padded data,
/// each followed by the permutation with 6 rounds: data whose length is a multiple of 8
/// (none included) gets one more block, `0x80` followed by zeros.
pub proof fn lemma_absorb_ad_padded(s: [u64; 5], ad: Seq<u8>)
    ensures
        absorb_ad(s, ad) == absorb_blocks(s, padded(ad), padded(ad).len() / 8),
{
    let p = padded(ad);
    let m = ad.len() / 8;
    lemma_padded_blocks(ad);
    assert(p.len() / 8 == m + 1);
    lemma_absorb_blocks_same_blocks(s, p, ad, m);
}

/// Encrypting full blocks moves the state as absorbing them does.
proof fn lemma_encrypt_blocks_state(s: [u64; 5], pt: Seq<u8>, n: nat)
    ensures
        encrypt_blocks(s, pt, n).0 == absorb_blocks(s, pt, n),
    decreases n,
{
    if n > 0 {
        lemma_encrypt_blocks_state(s, pt, (n - 1) as nat);
    }
}

/// The ciphertext of the first `n` full blocks: each byte is the plaintext byte plus
/// the byte at the same position of word 0 before its block is absorbed.
proof fn lemma_encrypt_blocks_bytes(s: [u64; 5], pt: Seq<u8>, n: nat)
    requires
        8 * n <= pt.len(),
    ensures
        encrypt_blocks(s, pt, n).1.len() == 8 * n,
        forall|i: int|
            0 <= i < 8 * n ==> #[trigger] encrypt_blocks(s, pt, n).1[i] == pt[i] ^ u64_be(
                absorb_blocks(s, pt, (i / 8) as nat)[0],
            )[i % 8],
    decreases n,
{
    if n > 0 {
        let m = (n - 1) as nat;
        lemma_encrypt_blocks_bytes(s, pt, m);
        lemma_encrypt_blocks_state(s, pt, m);
        let x = absorb_blocks(s, pt, m)[0];
        let b = block_at(pt, m as int);
        lemma_u64_be_xor(x, be_u64(b));
        lemma_u64_be_of_be_u64(b);
        let c = encrypt_blocks(s, pt, n).1;
        assert forall|i: int| 0 <= i < 8 * n implies #[trigger] c[i] == pt[i] ^ u64_be(
            absorb_blocks(s, pt, (i / 8) as nat)[0],
        )[i % 8] by {
            if i >= 8 * m {
                lemma_full_blocks(i as nat, m);
                assert(i % 8 == i - 8 * m);
                lemma_byte_xor(u64_be(x)[i % 8], pt[i]);
            }
        }
    }
}

/// Encrypting a message moves the state as absorbing the blocks of the padded message
/// does, each followed by the permutation with 6 rounds but the last; each ciphertext
/// byte is the plaintext byte plus the byte at the same position of word 0 before its
/// block is absorbed.
pub proof fn lemma_encrypt_message_padded(s: [u64; 5], pt: Seq<u8>)
    ensures
        ({
            let p = padded(pt);
            let m = pt.len() / 8;
            let q = absorb_blocks(s, p, m);
            encrypt_message(s, pt).0 == with_x0(q, q[0] ^ be_u64(block_at(p, m as int)))
        }),
        encrypt_message(s, pt).1.len() == pt.len(),
        forall|i: int|
            0 <= i < pt.len() ==> #[trigger] encrypt_message(s, pt).1[i] == pt[i] ^ u64_be(
                absorb_blocks(s, pt, (i / 8) as nat)[0],
            )[i % 8],
{
    let p = padded(pt);
    let m = pt.len() / 8;
    let t = tail(pt);
    let r = t.len();
    lemma_padded_blocks(pt);
    lemma_absorb_blocks_same_blocks(s, p, pt, m);
    lemma_encrypt_blocks_state(s, pt, m);
    lemma_encrypt_blocks_bytes(s, pt, m);
    let q = absorb_blocks(s, pt, m);
    let a = be_u64(t + zeros((8 - r) as nat));
    let b = pad_word(r as int);
    // the two words added to word 0 make the padded last block
    lemma_u64_be_xor(a, b);
    lemma_u64_be_of_be_u64(t + zeros((8 - r) as nat));
    lemma_u64_be_of_be_u64(pad_bytes(r as int));
    let target = t + seq![0x80u8] + zeros((7 - r) as nat);
    assert(r < 8);
    assert(u64_be(a) == t + zeros((8 - r) as nat));
    assert(u64_be(b) == pad_bytes(r as int));
    assert forall|j: int| 0 <= j < 8 implies #[trigger] xor_bytes(u64_be(a), u64_be(b))[j]
        == target[j] by {
        assert(xor_bytes(u64_be(a), u64_be(b))[j] == u64_be(a)[j] ^ u64_be(b)[j]);
        if j < r {
            assert(pad_bytes(r as int)[j] == 0u8);
            lemma_byte_xor(t[j], 0u8);
            assert((t + zeros((8 - r) as nat))[j] == t[j]);
            assert(target[j] == t[j]);
            assert(u64_be(a)[j] == t[j]);
            assert(u64_be(b)[j] == 0u8);
            assert(u64_be(a)[j] ^ u64_be(b)[j] == t[j]);
        } else {
            lemma_byte_xor(pad_bytes(r as int)[j], 0u8);
            assert((t + zeros((8 - r) as nat))[j] == 0u8);
            assert(u64_be(a)[j] == 0u8);
            assert(u64_be(b)[j] == pad_bytes(r as int)[j]);
            if j == r {
                assert(pad_bytes(r as int)[j] == 0x80u8);
                assert(target[j] == 0x80u8);
            } else {
                assert(pad_bytes(r as int)[j] == 0u8);
                assert(target[j] == 0u8);
            }
            assert(u64_be(a)[j] ^ u64_be(b)[j] == target[j]);
        }
    }
    assert(xor_bytes(u64_be(a), u64_be(b)) =~= target);
    lemma_be_u64_of_u64_be(a ^ b);
    lemma_word_xor(q[0], a);
    assert((q[0] ^ a) ^ b == q[0] ^ (a ^ b));
    assert(encrypt_message(s, pt).0 =~= with_x0(q, q[0] ^ be_u64(block_at(p, m as int))));
    // the bytes of the final partial block
    let x0 = q[0] ^ a;
    lemma_u64_be_xor(q[0], a);
    lemma_full_blocks(pt.len(), m);
    let c = encrypt_message(s, pt).1;
    assert forall|i: int| 0 <= i < pt.len() implies #[trigger] c[i] == pt[i] ^ u64_be(
        absorb_blocks(s, pt, (i / 8) as nat)[0],
    )[i % 8] by {
        if i >= 8 * m {
            lemma_full_blocks(i as nat, m);
            assert(i % 8 == i - 8 * m);
            lemma_byte_xor(u64_be(q[0])[i % 8], pt[i]);
            assert(c[i] == u64_be(x0)[i - 8 * m]);
        }
    }
}

} // verus!
