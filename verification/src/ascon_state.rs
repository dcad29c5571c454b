//! The 320-bit state of the Ascon-128 style cipher and its permutation.

use vstd::prelude::*;
use crate::words::{be_u64, rotl, rotr, rotate_left, rotate_right, load_be_u64, u64_be, lemma_be_u64_of_u64_be};

verus! {

/// Initialisation value for Ascon-128: k=128, r=64, a=12, b=6.
pub const ASCON_128_IV: u64 = 0x80400c0600000000u64;

/// Multiplier of the extra mixing step.
pub const MIX_MULTIPLIER: u64 = 0x5bd1e9955bd1e995u64;

/// Constants that the extra mixing step adds to each word.
pub const LOOKUP_0: u64 = 0x123456789abcdef0u64;
pub const LOOKUP_1: u64 = 0xabcdef0123456789u64;
pub const LOOKUP_2: u64 = 0xfedcba9876543210u64;
pub const LOOKUP_3: u64 = 0x0123456789abcdefu64;
pub const LOOKUP_4: u64 = 0x89abcdef01234567u64;

/// The constant added to word 2 in round `i` (`i < 12`).
pub open spec fn round_constant(i: u64) -> u64 {
    ((0xf0 - i * 0x10) as u64) | ((0x0f - i) as u64)
}

/// The state with `c` added to word 2.
pub open spec fn add_round_constant(s: [u64; 5], c: u64) -> [u64; 5] {
    [s[0], s[1], s[2] ^ c, s[3], s[4]]
}

/// The bit-sliced 5-bit S-box applied to every column of the state.
pub open spec fn substitution(s: [u64; 5]) -> [u64; 5] {
    let a0 = s[0] ^ s[4];
    let a4 = s[4] ^ s[3];
    let a2 = s[2] ^ s[1];
    let a1 = s[1];
    let a3 = s[3];
    let t0 = a0 ^ (!a1 & a2);
    let t1 = a1 ^ (!a2 & a3);
    let t2 = a2 ^ (!a3 & a4);
    let t3 = a3 ^ (!a4 & a0);
    let t4 = a4 ^ (!a0 & a1);
    [t0 ^ t4, t1 ^ t0, !t2, t3 ^ t2, t4]
}

/// The linear diffusion layer: each word is added to two of its rotations.
pub open spec fn linear(s: [u64; 5]) -> [u64; 5] {
    [
        s[0] ^ (rotr(s[0], 19) ^ rotr(s[0], 28)),
        s[1] ^ (rotr(s[1], 61) ^ rotr(s[1], 39)),
        s[2] ^ (rotr(s[2], 1) ^ rotr(s[2], 6)),
        s[3] ^ (rotr(s[3], 10) ^ rotr(s[3], 17)),
        s[4] ^ (rotr(s[4], 7) ^ rotr(s[4], 41)),
    ]
}

/// One step of the extra mixing of a word.
pub open spec fn mix(t: u64) -> u64 {
    let u = rotl(t, 7) ^ rotr(t, 13) ^ (t << 1u64) ^ (t >> 1u64);
    u ^ vstd::wrapping::u64_specs::wrapping_mul(u, MIX_MULTIPLIER)
}

/// `n` steps of the extra mixing.
pub open spec fn mix_times(t: u64, n: nat) -> u64
    decreases n,
{
    if n == 0 {
        t
    } else {
        mix(mix_times(t, (n - 1) as nat))
    }
}

/// Wrapping addition of words.
pub open spec fn wadd(a: u64, b: u64) -> u64 {
    vstd::wrapping::u64_specs::wrapping_add(a, b)
}

/// The extra mixing step that ends every round: word 1 takes three mixing steps of
/// word 0, then word 0 takes the wrapping sum of all words, each offset by a constant.
pub open spec fn extra_mixing(s: [u64; 5]) -> [u64; 5] {
    let x1 = s[1] ^ mix_times(s[0], 3);
    let sum = wadd(
        wadd(wadd(wadd(wadd(0, s[0] ^ LOOKUP_0), x1 ^ LOOKUP_1), s[2] ^ LOOKUP_2), s[3] ^ LOOKUP_3),
        s[4] ^ LOOKUP_4,
    );
    [s[0] ^ sum, x1, s[2], s[3], s[4]]
}

/// Round `i` of the permutation.
pub open spec fn round(s: [u64; 5], i: u64) -> [u64; 5] {
    extra_mixing(
        linear(substitution(substitution(substitution(add_round_constant(s, round_constant(i)))))),
    )
}

/// Rounds `start`, ..., `end - 1` applied in order.
pub open spec fn rounds_between(s: [u64; 5], start: u64, end: u64) -> [u64; 5]
    decreases end - start,
{
    if end <= start {
        s
    } else {
        round(rounds_between(s, start, (end - 1) as u64), (end - 1) as u64)
    }
}

/// The permutation with `n` rounds: the last `n` of the twelve rounds.
#[verifier::opaque]
pub open spec fn permute(s: [u64; 5], n: u64) -> [u64; 5] {
    rounds_between(s, (12 - n) as u64, 12)
}

/// The state after initialisation with a 16-byte key and nonce.
pub open spec fn initial_state(key: Seq<u8>, nonce: Seq<u8>) -> [u64; 5] {
    let k0 = be_u64(key.subrange(0, 8));
    let k1 = be_u64(key.subrange(8, 16));
    let p = permute(
        [ASCON_128_IV, k0, k1, be_u64(nonce.subrange(0, 8)), be_u64(nonce.subrange(8, 16))],
        12,
    );
    [p[0], p[1], p[2], p[3] ^ k0, p[4] ^ k1]
}

/// The key and the nonce are read as big-endian words: for a key made of the bytes of
/// the words `k0, k1` and a nonce made of the bytes of `n0, n1`, the initial state is
/// the permutation with 12 rounds of `IV, k0, k1, n0, n1`, with `k0` and `k1` added to
/// the last two words.
pub proof fn lemma_initial_state_of_words(k0: u64, k1: u64, n0: u64, n1: u64)
    ensures
        ({
            let p = permute([ASCON_128_IV, k0, k1, n0, n1], 12);
            initial_state(u64_be(k0) + u64_be(k1), u64_be(n0) + u64_be(n1)) == [
                p[0],
                p[1],
                p[2],
                p[3] ^ k0,
                p[4] ^ k1,
            ]
        }),
{
    let key = u64_be(k0) + u64_be(k1);
    let nonce = u64_be(n0) + u64_be(n1);
    assert(key.subrange(0, 8) =~= u64_be(k0));
    assert(key.subrange(8, 16) =~= u64_be(k1));
    assert(nonce.subrange(0, 8) =~= u64_be(n0));
    assert(nonce.subrange(8, 16) =~= u64_be(n1));
    lemma_be_u64_of_u64_be(k0);
    lemma_be_u64_of_u64_be(k1);
    lemma_be_u64_of_u64_be(n0);
    lemma_be_u64_of_u64_be(n1);
}

/// Ascon state structure (320 bits = 5 x 64-bit words).
#[derive(Clone, Copy, Debug)]
pub struct AsconState {
    pub x: [u64; 5],
}

impl AsconState {
    /// The all-zero state.
    pub fn new() -> (r: Self)
        ensures
            r.x@ == seq![0u64, 0u64, 0u64, 0u64, 0u64],
    {
        let r = AsconState { x: [0u64; 5] };
        assert(r.x@ =~= seq![0u64, 0u64, 0u64, 0u64, 0u64]);
        r
    }

    /// Initialises the state with a key and a nonce.
    pub fn initialize(key: &[u8; 16], nonce: &[u8; 16]) -> (r: Self)
        ensures
            r.x == initial_state(key@, nonce@),
    {
        let mut state = AsconState::new();
        let k0 = load_be_u64(key, 0);
        let k1 = load_be_u64(key, 8);
        state.x = [ASCON_128_IV, k0, k1, load_be_u64(nonce, 0), load_be_u64(nonce, 8)];
        state.permutation(12);
        state.x[3] = state.x[3] ^ k0;
        state.x[4] = state.x[4] ^ k1;
        state
    }

    /// The permutation with `rounds` rounds.
    pub fn permutation(&mut self, rounds: usize)
        requires
            rounds <= 12,
        ensures
            final(self).x == permute(old(self).x, rounds as u64),
    {
        let ghost s0 = self.x;
        reveal(permute);
        let start_round: u64 = 12 - rounds as u64;
        let mut i: u64 = start_round;
        while i < 12
            invariant
                start_round <= i <= 12,
                start_round == 12 - rounds,
                self.x == rounds_between(s0, start_round, i),
            decreases 12 - i,
        {
            self.x[2] = self.x[2] ^ ((0xf0 - i * 0x10) | (0x0f - i));
            self.substitution_layer();
            self.substitution_layer();
            self.substitution_layer();
            self.linear_layer();
            self.add_delay_overhead();
            i = i + 1;
        }
    }

    /// Extra mixing at the end of every round.
    pub fn add_delay_overhead(&mut self)
        ensures
            final(self).x == extra_mixing(old(self).x),
    {
        let mut temp = self.x[0];
        let mut k: u64 = 0;
        while k < 3
            invariant
                k <= 3,
                temp == mix_times(old(self).x[0], k as nat),
                self.x == old(self).x,
            decreases 3 - k,
        {
            temp = rotate_left(temp, 7) ^ rotate_right(temp, 13) ^ (temp << 1u64) ^ (temp >> 1u64);
            temp = temp ^ temp.wrapping_mul(MIX_MULTIPLIER);
            k = k + 1;
        }
        self.x[1] = self.x[1] ^ temp;
        let lookup = [
            self.x[0] ^ LOOKUP_0,
            self.x[1] ^ LOOKUP_1,
            self.x[2] ^ LOOKUP_2,
            self.x[3] ^ LOOKUP_3,
            self.x[4] ^ LOOKUP_4,
        ];
        let mut sum: u64 = 0;
        sum = sum.wrapping_add(lookup[0]);
        sum = sum.wrapping_add(lookup[1]);
        sum = sum.wrapping_add(lookup[2]);
        sum = sum.wrapping_add(lookup[3]);
        sum = sum.wrapping_add(lookup[4]);
        self.x[0] = self.x[0] ^ sum;
        assert(self.x =~= extra_mixing(old(self).x));
    }

    /// The S-box layer applied to all 5 words.
    pub fn substitution_layer(&mut self)
        ensures
            final(self).x == substitution(old(self).x),
    {
        self.x[0] = self.x[0] ^ self.x[4];
        self.x[4] = self.x[4] ^ self.x[3];
        self.x[2] = self.x[2] ^ self.x[1];
        let mut t = [0u64; 5];
        t[0] = self.x[0] ^ (!self.x[1] & self.x[2]);
        t[1] = self.x[1] ^ (!self.x[2] & self.x[3]);
        t[2] = self.x[2] ^ (!self.x[3] & self.x[4]);
        t[3] = self.x[3] ^ (!self.x[4] & self.x[0]);
        t[4] = self.x[4] ^ (!self.x[0] & self.x[1]);
        self.x = t;
        self.x[1] = self.x[1] ^ self.x[0];
        self.x[0] = self.x[0] ^ self.x[4];
        self.x[3] = self.x[3] ^ self.x[2];
        self.x[2] = !self.x[2];
        assert(self.x =~= substitution(old(self).x));
    }

    /// The linear diffusion layer, followed by extra rotations whose sum
    /// cancels, so that the net effect is the diffusion alone.
    pub fn linear_layer(&mut self)
        ensures
            final(self).x == linear(old(self).x),
    {
        self.x[0] = self.x[0] ^ (rotate_right(self.x[0], 19) ^ rotate_right(self.x[0], 28));
        self.x[1] = self.x[1] ^ (rotate_right(self.x[1], 61) ^ rotate_right(self.x[1], 39));
        self.x[2] = self.x[2] ^ (rotate_right(self.x[2], 1) ^ rotate_right(self.x[2], 6));
        self.x[3] = self.x[3] ^ (rotate_right(self.x[3], 10) ^ rotate_right(self.x[3], 17));
        self.x[4] = self.x[4] ^ (rotate_right(self.x[4], 7) ^ rotate_right(self.x[4], 41));
        let ghost mid = self.x;
        assert(mid =~= linear(old(self).x));
        let temp0 = rotate_right(self.x[0], 13) ^ rotate_right(self.x[0], 47);
        let temp1 = rotate_right(self.x[1], 29) ^ rotate_right(self.x[1], 53);
        let temp2 = rotate_right(self.x[2], 3) ^ rotate_right(self.x[2], 11);
        let temp3 = rotate_right(self.x[3], 23) ^ rotate_right(self.x[3], 31);
        let temp4 = rotate_right(self.x[4], 17) ^ rotate_right(self.x[4], 37);
        self.x[0] = self.x[0] ^ (temp0 ^ temp0);
        self.x[1] = self.x[1] ^ (temp1 ^ temp1);
        self.x[2] = self.x[2] ^ (temp2 ^ temp2);
        self.x[3] = self.x[3] ^ (temp3 ^ temp3);
        self.x[4] = self.x[4] ^ (temp4 ^ temp4);
        proof {
            lemma_xor_self_cancels(mid[0], temp0);
            lemma_xor_self_cancels(mid[1], temp1);
            lemma_xor_self_cancels(mid[2], temp2);
            lemma_xor_self_cancels(mid[3], temp3);
            lemma_xor_self_cancels(mid[4], temp4);
        }
        assert(self.x =~= linear(old(self).x));
    }
}

/// Adding a word twice leaves a word unchanged.
proof fn lemma_xor_self_cancels(x: u64, t: u64)
    ensures
        x ^ (t ^ t) == x,
{
    assert(x ^ (t ^ t) == x) by (bit_vector);
}

} // verus!
