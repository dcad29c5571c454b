//! Arithmetic in GF(2^128) with the reduction polynomial x^128 + x^7 + x^2 + x + 1:
//! bit `i` of a `u128` is the coefficient of x^i.

use vstd::prelude::*;
use vstd::arithmetic::power2::{pow2, lemma2_to64, lemma_pow2_adds, lemma_pow2_unfold};

verus! {

/// The low part of the reduction polynomial: x^128 = x^7 + x^2 + x + 1.
pub const REDUCTION: u128 = 0x87u128;

/// Multiplication by x, reduced.
pub open spec fn xtime(a: u128) -> u128 {
    if (a >> 127u128) == 1 {
        (a << 1u128) ^ REDUCTION
    } else {
        a << 1u128
    }
}

/// Multiplication by x^k, reduced.
pub open spec fn xtime_n(a: u128, k: nat) -> u128
    decreases k,
{
    if k == 0 {
        a
    } else {
        xtime(xtime_n(a, (k - 1) as nat))
    }
}

/// The sum over the low `n` bits `i` of `b` of `a * x^i`, reduced.
pub open spec fn gf_mul_bits(a: u128, b: u128, n: nat) -> u128
    decreases n,
{
    if n == 0 {
        0
    } else {
        (if b & 1 == 1 {
            a
        } else {
            0
        }) ^ gf_mul_bits(xtime(a), b >> 1u128, (n - 1) as nat)
    }
}

/// Field multiplication: the product of the polynomials `a` and `b`, reduced.
pub open spec fn gf_mul(a: u128, b: u128) -> u128 {
    gf_mul_bits(a, b, 128)
}

/// Sum of `n` products `row[j] * v[j]`.
pub open spec fn gf_dot(row: Seq<u128>, v: Seq<u128>, n: nat) -> u128
    decreases n,
{
    if n == 0 {
        0
    } else {
        gf_dot(row, v, (n - 1) as nat) ^ gf_mul(row[n - 1], v[n - 1])
    }
}

/// Sum of the first `n` elements of `v`.
pub open spec fn gf_sum(v: Seq<u128>, n: nat) -> u128
    decreases n,
{
    if n == 0 {
        0
    } else {
        gf_sum(v, (n - 1) as nat) ^ v[n - 1]
    }
}

/// Multiplication by x^k for `k <= 64` in closed form: the shifted word, plus the
/// reduction of the `k` bits shifted out.
pub open spec fn shift_reduce(a: u128, k: u128) -> u128 {
    let h = a >> (128 - k) as u128;
    (a << k) ^ h ^ (h << 1u128) ^ (h << 2u128) ^ (h << 7u128)
}

/// Field addition is exclusive or: associative, commutative, with zero as unit, and
/// every element its own opposite.
pub proof fn lemma_xor_facts(a: u128, b: u128, c: u128)
    ensures
        (a ^ b) ^ c == a ^ (b ^ c),
        a ^ 0 == a,
        0 ^ a == a,
        (a ^ b) ^ b == a,
        a ^ b == b ^ a,
        a ^ a == 0,
{
    assert((a ^ b) ^ c == a ^ (b ^ c) && a ^ 0 == a && 0 ^ a == a && (a ^ b) ^ b == a && a ^ b == b
        ^ a && a ^ a == 0) by (bit_vector);
}

/// Regrouping a sum of four terms.
pub proof fn lemma_xor_swap(a: u128, b: u128, c: u128, d: u128)
    ensures
        (a ^ b) ^ (c ^ d) == (a ^ c) ^ (b ^ d),
        0u128 ^ 0u128 == 0u128,
{
    assert((a ^ b) ^ (c ^ d) == (a ^ c) ^ (b ^ d) && 0u128 ^ 0u128 == 0u128) by (bit_vector);
}

/// Facts on the low bit and the shift by one of a word.
proof fn lemma_bit_facts(b: u128, c: u128)
    ensures
        (b ^ c) >> 1u128 == (b >> 1u128) ^ (c >> 1u128),
        ((b ^ c) & 1 == 1) == ((b & 1 == 1) != (c & 1 == 1)),
        (b & 1) & 1 == b & 1,
        (b & 1) >> 1u128 == 0,
        b & 1 == 1 || b & 1 == 0,
        b == (b & 1) ^ xtime(b >> 1u128),
        b > 0 ==> (b >> 1u128) < b,
        b >> 0u128 == b,
{
    assert((b ^ c) >> 1u128 == (b >> 1u128) ^ (c >> 1u128) && ((b ^ c) & 1 == 1) == ((b & 1 == 1)
        != (c & 1 == 1)) && (b & 1) & 1 == b & 1 && (b & 1) >> 1u128 == 0 && (b & 1 == 1 || b & 1
        == 0) && b == (b & 1) ^ xtime(b >> 1u128) && (b > 0 ==> (b >> 1u128) < b) && b >> 0u128
        == b) by (bit_vector);
}

/// Multiplication by x is linear.
proof fn lemma_xtime_linear(a: u128, b: u128)
    ensures
        xtime(a ^ b) == xtime(a) ^ xtime(b),
        xtime(0) == 0,
{
    assert(xtime(a ^ b) == xtime(a) ^ xtime(b) && xtime(0) == 0) by (bit_vector);
}

/// Multiplication by x^(k + 1) is multiplication by x^k of `x * a`.
proof fn lemma_xtime_n_succ(a: u128, k: nat)
    ensures
        xtime_n(xtime(a), k) == xtime_n(a, k + 1),
    decreases k,
{
    if k > 0 {
        lemma_xtime_n_succ(a, (k - 1) as nat);
        assert(xtime_n(a, k + 1) == xtime(xtime_n(a, k)));
        assert(xtime_n(xtime(a), k) == xtime(xtime_n(xtime(a), (k - 1) as nat)));
    } else {
        assert(xtime_n(a, 1) == xtime(xtime_n(a, 0)));
    }
}

/// Multiplication by x^(m + n) is multiplication by x^m, then by x^n.
proof fn lemma_xtime_n_add(a: u128, m: nat, n: nat)
    ensures
        xtime_n(a, m + n) == xtime_n(xtime_n(a, m), n),
    decreases n,
{
    if n > 0 {
        lemma_xtime_n_add(a, m, (n - 1) as nat);
        assert(m + n - 1 == m + (n - 1));
    }
}

/// Field multiplication.
pub fn gf128_mul(a: u128, b: u128) -> (r: u128)
    ensures
        r == gf_mul(a, b),
{
    let mut acc: u128 = 0;
    let mut x = a;
    let mut y = b;
    let mut i: u32 = 0;
    proof {
        lemma_xor_facts(gf_mul(a, b), 0, 0);
    }
    while i < 128
        invariant
            i <= 128,
            acc ^ gf_mul_bits(x, y, (128 - i) as nat) == gf_mul(a, b),
        decreases 128 - i,
    {
        let ghost rest = gf_mul_bits(xtime(x), y >> 1u128, (128 - i - 1) as nat);
        let ghost term: u128 = if y & 1 == 1 {
            x
        } else {
            0
        };
        proof {
            lemma_xor_facts(acc, term, rest);
        }
        if y & 1 == 1 {
            acc = acc ^ x;
        }
        x = if (x >> 127u128) == 1 {
            (x << 1u128) ^ REDUCTION
        } else {
            x << 1u128
        };
        y = y >> 1u128;
        i = i + 1;
    }
    proof {
        lemma_xor_facts(acc, 0, 0);
    }
    acc
}

proof fn lemma_gf_mul_bits_right_zero(a: u128, n: nat)
    ensures
        gf_mul_bits(a, 0, n) == 0,
    decreases n,
{
    if n > 0 {
        lemma_bit_facts(0, 0);
        lemma_gf_mul_bits_right_zero(xtime(a), (n - 1) as nat);
        lemma_xor_facts(0, 0, 0);
    }
}

proof fn lemma_gf_mul_bits_left_zero(b: u128, n: nat)
    ensures
        gf_mul_bits(0, b, n) == 0,
    decreases n,
{
    if n > 0 {
        lemma_xtime_linear(0, 0);
        lemma_gf_mul_bits_left_zero(b >> 1u128, (n - 1) as nat);
        lemma_xor_facts(0, 0, 0);
    }
}

proof fn lemma_gf_mul_bits_distributes_right(a: u128, b: u128, c: u128, n: nat)
    ensures
        gf_mul_bits(a, b ^ c, n) == gf_mul_bits(a, b, n) ^ gf_mul_bits(a, c, n),
    decreases n,
{
    lemma_xor_facts(0, 0, 0);
    if n > 0 {
        lemma_gf_mul_bits_distributes_right(xtime(a), b >> 1u128, c >> 1u128, (n - 1) as nat);
        lemma_bit_facts(b, c);
        let tb: u128 = if b & 1 == 1 {
            a
        } else {
            0
        };
        let tc: u128 = if c & 1 == 1 {
            a
        } else {
            0
        };
        lemma_xor_facts(a, 0, 0);
        let rb = gf_mul_bits(xtime(a), b >> 1u128, (n - 1) as nat);
        let rc = gf_mul_bits(xtime(a), c >> 1u128, (n - 1) as nat);
        lemma_xor_swap(tb, tc, rb, rc);
    }
}

proof fn lemma_gf_mul_bits_distributes_left(a: u128, b: u128, c: u128, n: nat)
    ensures
        gf_mul_bits(a ^ b, c, n) == gf_mul_bits(a, c, n) ^ gf_mul_bits(b, c, n),
    decreases n,
{
    lemma_xor_facts(0, 0, 0);
    if n > 0 {
        lemma_xtime_linear(a, b);
        lemma_gf_mul_bits_distributes_left(xtime(a), xtime(b), c >> 1u128, (n - 1) as nat);
        let ra = gf_mul_bits(xtime(a), c >> 1u128, (n - 1) as nat);
        let rb = gf_mul_bits(xtime(b), c >> 1u128, (n - 1) as nat);
        lemma_xor_swap(a, b, ra, rb);
        lemma_xor_swap(0, 0, ra, rb);
    }
}

/// Multiplying `x * a` by `b` is multiplying `a * b` by x.
proof fn lemma_gf_mul_bits_xtime_left(a: u128, b: u128, n: nat)
    ensures
        gf_mul_bits(xtime(a), b, n) == xtime(gf_mul_bits(a, b, n)),
    decreases n,
{
    lemma_xtime_linear(0, 0);
    if n > 0 {
        lemma_gf_mul_bits_xtime_left(xtime(a), b >> 1u128, (n - 1) as nat);
        let t: u128 = if b & 1 == 1 {
            a
        } else {
            0
        };
        lemma_xtime_linear(t, gf_mul_bits(xtime(a), b >> 1u128, (n - 1) as nat));
    }
}

/// The top step of the sum: adding bit `n` of `b`.
proof fn lemma_gf_mul_bits_top(a: u128, b: u128, n: nat)
    requires
        n < 128,
    ensures
        gf_mul_bits(a, b, n + 1) == gf_mul_bits(a, b, n) ^ (if (b >> n as u128) & 1 == 1 {
            xtime_n(a, n)
        } else {
            0
        }),
    decreases n,
{
    lemma_xor_facts(0, 0, 0);
    lemma_bit_facts(b, 0);
    if n == 0 {
        lemma_xor_facts(if b & 1 == 1 { a } else { 0 }, 0, 0);
        assert(gf_mul_bits(xtime(a), b >> 1u128, 0) == 0);
        assert(xtime_n(a, 0) == a);
    } else {
        lemma_gf_mul_bits_top(xtime(a), b >> 1u128, (n - 1) as nat);
        lemma_shift_compose(b, n as u128);
        lemma_xtime_n_succ(a, (n - 1) as nat);
        let t: u128 = if b & 1 == 1 {
            a
        } else {
            0
        };
        let r = gf_mul_bits(xtime(a), b >> 1u128, (n - 1) as nat);
        let top: u128 = if (b >> n as u128) & 1 == 1 {
            xtime_n(a, n)
        } else {
            0
        };
        lemma_xor_facts(t, r, top);
        assert(((n - 1) as nat) as u128 == (n as u128 - 1) as u128);
        assert(gf_mul_bits(xtime(a), b >> 1u128, n) == r ^ top);
        assert(gf_mul_bits(a, b, n + 1) == t ^ gf_mul_bits(xtime(a), b >> 1u128, n));
        assert(gf_mul_bits(a, b, n) == t ^ r);
    }
}

/// Shifting right by one and then by `n - 1` is shifting by `n`.
proof fn lemma_shift_compose(b: u128, n: u128)
    requires
        1 <= n < 128,
    ensures
        (b >> 1u128) >> (n - 1) as u128 == b >> n,
        (1u128 << n) & 1 == 0,
        (1u128 << n) >> 1u128 == 1u128 << (n - 1) as u128,
{
    assert((b >> 1u128) >> (n - 1) as u128 == b >> n && (1u128 << n) & 1 == 0 && (1u128 << n)
        >> 1u128 == 1u128 << (n - 1) as u128) by (bit_vector)
        requires
            1 <= n < 128,
    ;
}

/// A single bit `j` contributes nothing to the sum over the low `n <= j` bits.
proof fn lemma_gf_mul_bits_high_bit(a: u128, j: u128, n: nat)
    requires
        n <= j < 128,
    ensures
        gf_mul_bits(a, 1u128 << j, n) == 0,
    decreases n,
{
    if n > 0 {
        lemma_shift_compose(0, j);
        lemma_gf_mul_bits_high_bit(xtime(a), (j - 1) as u128, (n - 1) as nat);
        lemma_xor_facts(0, 0, 0);
    }
}

/// Multiplication by x^k equals its closed form for `k` a power of two up to 64.
proof fn lemma_xtime_n_closed(a: u128, k: u128)
    requires
        k == 1 || k == 2 || k == 4 || k == 8 || k == 16 || k == 32 || k == 64,
    ensures
        xtime_n(a, k as nat) == shift_reduce(a, k),
    decreases k,
{
    if k == 1 {
        assert(xtime_n(a, 0) == a);
        assert(xtime(a) == shift_reduce(a, 1)) by (bit_vector);
    } else {
        let h = (k / 2) as u128;
        assert(k as nat == h as nat + h as nat && (2 * h) as u128 == k);
        lemma_xtime_n_closed(a, h);
        lemma_xtime_n_closed(shift_reduce(a, h), h);
        lemma_xtime_n_add(a, h as nat, h as nat);
        lemma_shift_reduce_double(a, h);
    }
}

/// Two multiplications by x^k in closed form make one by x^(2k).
proof fn lemma_shift_reduce_double(a: u128, k: u128)
    requires
        k == 1 || k == 2 || k == 4 || k == 8 || k == 16 || k == 32,
    ensures
        shift_reduce(shift_reduce(a, k), k) == shift_reduce(a, (2 * k) as u128),
{
    assert(shift_reduce(shift_reduce(a, 1), 1) == shift_reduce(a, 2) && shift_reduce(
        shift_reduce(a, 2),
        2,
    ) == shift_reduce(a, 4) && shift_reduce(shift_reduce(a, 4), 4) == shift_reduce(a, 8)
        && shift_reduce(shift_reduce(a, 8), 8) == shift_reduce(a, 16) && shift_reduce(
        shift_reduce(a, 16),
        16,
    ) == shift_reduce(a, 32) && shift_reduce(shift_reduce(a, 32), 32) == shift_reduce(a, 64))
        by (bit_vector);
}

/// The reduction identity: x^128 = x^7 + x^2 + x + 1.
proof fn lemma_xtime_128(a: u128)
    ensures
        xtime_n(a, 128) == a ^ xtime(a) ^ xtime_n(a, 2) ^ xtime_n(a, 7),
{
    lemma_xtime_n_add(a, 64, 64);
    lemma_xtime_n_closed(a, 64);
    lemma_xtime_n_closed(shift_reduce(a, 64), 64);
    lemma_xtime_n_closed(a, 1);
    lemma_xtime_n_closed(a, 2);
    lemma_xtime_n_closed(shift_reduce(a, 1), 2);
    lemma_xtime_n_closed(shift_reduce(shift_reduce(a, 1), 2), 4);
    lemma_xtime_n_add(a, 1, 2);
    lemma_xtime_n_add(a, 3, 4);
    assert(xtime_n(a, 0) == a);
    assert(xtime_n(a, 1) == xtime(a));
    assert(shift_reduce(shift_reduce(a, 64), 64) == a ^ shift_reduce(a, 1) ^ shift_reduce(a, 2)
        ^ shift_reduce(shift_reduce(shift_reduce(a, 1), 2), 4)) by (bit_vector);
}

/// Multiplying by the low part of the reduction polynomial.
proof fn lemma_gf_mul_reduction(a: u128)
    ensures
        gf_mul(a, REDUCTION) == a ^ xtime(a) ^ xtime_n(a, 2) ^ xtime_n(a, 7),
{
    assert(0x87u128 & 1 == 1 && 0x87u128 >> 1u128 == 0x43 && 0x43u128 & 1 == 1 && 0x43u128
        >> 1u128 == 0x21 && 0x21u128 & 1 == 1 && 0x21u128 >> 1u128 == 0x10 && 0x10u128 & 1 == 0
        && 0x10u128 >> 1u128 == 0x8 && 0x8u128 & 1 == 0 && 0x8u128 >> 1u128 == 0x4 && 0x4u128 & 1
        == 0 && 0x4u128 >> 1u128 == 0x2 && 0x2u128 & 1 == 0 && 0x2u128 >> 1u128 == 0x1 && 0x1u128
        & 1 == 1 && 0x1u128 >> 1u128 == 0) by (bit_vector);
    let x1 = xtime(a);
    let x2 = xtime(x1);
    let x3 = xtime(x2);
    let x4 = xtime(x3);
    let x5 = xtime(x4);
    let x6 = xtime(x5);
    let x7 = xtime(x6);
    let x8 = xtime(x7);
    lemma_gf_mul_bits_right_zero(x8, 120);
    lemma_xor_facts(0, 0, 0);
    lemma_xor_facts(x7, 0, 0);
    assert(gf_mul_bits(x7, 1, 121) == x7);
    assert(gf_mul_bits(x6, 2, 122) == x7);
    assert(gf_mul_bits(x5, 4, 123) == x7);
    assert(gf_mul_bits(x4, 8, 124) == x7);
    assert(gf_mul_bits(x3, 0x10, 125) == x7);
    assert(gf_mul_bits(x2, 0x21, 126) == x2 ^ x7);
    assert(gf_mul_bits(x1, 0x43, 127) == x1 ^ (x2 ^ x7));
    assert(gf_mul_bits(a, 0x87, 128) == a ^ (x1 ^ (x2 ^ x7)));
    assert(xtime_n(a, 2) == x2) by {
        reveal_with_fuel(xtime_n, 3);
    }
    assert(xtime_n(a, 7) == x7) by {
        reveal_with_fuel(xtime_n, 8);
    }
    lemma_xor_facts(a, x1, x2 ^ x7);
    lemma_xor_facts(a ^ x1, x2, x7);
}

/// Multiplying `a` by `x * b` is multiplying `a * b` by x.
pub proof fn lemma_gf_mul_xtime_right(a: u128, b: u128)
    ensures
        gf_mul(a, xtime(b)) == xtime(gf_mul(a, b)),
{
    let top = (b >> 127u128) == 1;
    let low = (b << 1u128) >> 1u128;
    let t: u128 = if top {
        REDUCTION
    } else {
        0
    };
    let e: u128 = if top {
        1u128 << 127u128
    } else {
        0
    };
    assert(xtime(b) == (b << 1u128) ^ t && b == low ^ e && (b << 1u128) & 1 == 0 && ((b
        >> 127u128) & 1 == 1) == top) by (bit_vector)
        requires
            top == ((b >> 127u128) == 1),
            low == (b << 1u128) >> 1u128,
            t == (if top { REDUCTION } else { 0u128 }),
            e == (if top { 1u128 << 127u128 } else { 0u128 }),
    ;
    let xa = xtime(a);
    let full = a ^ xtime(a) ^ xtime_n(a, 2) ^ xtime_n(a, 7);
    let r = gf_mul_bits(xa, low, 127);
    lemma_xor_facts(r, 0, 0);
    lemma_xor_facts(0, r, 0);
    // a * (x * b) = a * (b << 1) + [top] a * REDUCTION
    lemma_gf_mul_bits_distributes_right(a, b << 1u128, t, 128);
    lemma_gf_mul_bits_right_zero(a, 128);
    lemma_gf_mul_reduction(a);
    assert(gf_mul_bits(a, t, 128) == if top { full } else { 0 });
    assert(gf_mul_bits(a, b << 1u128, 128) == 0 ^ r);
    assert(gf_mul(a, xtime(b)) == r ^ (if top { full } else { 0 }));
    // (x * a) * b over 127 bits equals (x * a) * low over 127 bits
    lemma_gf_mul_bits_distributes_right(xa, low, e, 127);
    lemma_gf_mul_bits_high_bit(xa, 127, 127);
    lemma_gf_mul_bits_right_zero(xa, 127);
    assert(gf_mul_bits(xa, e, 127) == 0);
    assert(gf_mul_bits(xa, b, 127) == r);
    // x * (a * b) = (x * a) * b over 128 bits = over 127 bits plus the top bit
    lemma_gf_mul_bits_xtime_left(a, b, 128);
    lemma_gf_mul_bits_top(xa, b, 127);
    lemma_xtime_n_succ(a, 127);
    lemma_xtime_128(a);
    assert(xtime_n(xa, 127) == full);
    assert(xtime(gf_mul(a, b)) == r ^ (if top { full } else { 0 }));
}

/// Multiplication distributes over addition in its right factor.
pub proof fn lemma_gf_mul_distributes_right(a: u128, b: u128, c: u128)
    ensures
        gf_mul(a, b ^ c) == gf_mul(a, b) ^ gf_mul(a, c),
{
    lemma_gf_mul_bits_distributes_right(a, b, c, 128);
}

/// Multiplication distributes over addition in its left factor.
pub proof fn lemma_gf_mul_distributes_left(a: u128, b: u128, c: u128)
    ensures
        gf_mul(a ^ b, c) == gf_mul(a, c) ^ gf_mul(b, c),
{
    lemma_gf_mul_bits_distributes_left(a, b, c, 128);
}

/// Zero absorbs multiplication on both sides.
pub proof fn lemma_gf_mul_zero(a: u128)
    ensures
        gf_mul(0, a) == 0,
        gf_mul(a, 0) == 0,
{
    lemma_gf_mul_bits_left_zero(a, 128);
    lemma_gf_mul_bits_right_zero(a, 128);
}

/// The product by the low bit of `b`.
proof fn lemma_gf_mul_low_bit(a: u128, b: u128)
    ensures
        gf_mul(a, b & 1) == if b & 1 == 1 {
            a
        } else {
            0
        },
{
    lemma_bit_facts(b, 0);
    lemma_gf_mul_bits_right_zero(xtime(a), 127);
    lemma_xor_facts(a, 0, 0);
    lemma_xor_facts(0, 0, 0);
}

/// Splitting the right factor into its low bit and x times the rest.
proof fn lemma_gf_mul_split_right(a: u128, b: u128)
    ensures
        gf_mul(a, b) == (if b & 1 == 1 {
            a
        } else {
            0
        }) ^ xtime(gf_mul(a, b >> 1u128)),
{
    lemma_bit_facts(b, 0);
    lemma_gf_mul_distributes_right(a, b & 1, xtime(b >> 1u128));
    lemma_gf_mul_low_bit(a, b);
    lemma_gf_mul_xtime_right(a, b >> 1u128);
}

/// One is the unit of multiplication on both sides.
pub proof fn lemma_gf_mul_one(a: u128)
    ensures
        gf_mul(a, 1) == a,
        gf_mul(1, a) == a,
    decreases a,
{
    assert((1u128 & 1) == 1 && (1u128 >> 1u128) == 0) by (bit_vector);
    lemma_gf_mul_bits_right_zero(xtime(a), 127);
    lemma_xor_facts(a, 0, 0);
    lemma_bit_facts(a, 0);
    lemma_xtime_linear(0, 0);
    if a == 0 {
        lemma_gf_mul_zero(1);
    } else {
        lemma_gf_mul_one(a >> 1u128);
        lemma_gf_mul_split_right(1, a);
        lemma_xor_facts(a & 1, 0, 0);
        lemma_xor_facts(0, xtime(a >> 1u128), 0);
    }
}

/// Multiplication is commutative.
pub proof fn lemma_gf_mul_commutes(a: u128, b: u128)
    ensures
        gf_mul(a, b) == gf_mul(b, a),
    decreases b,
{
    lemma_bit_facts(b, 0);
    if b == 0 {
        lemma_gf_mul_zero(a);
    } else {
        lemma_gf_mul_commutes(a, b >> 1u128);
        lemma_gf_mul_split_right(a, b);
        // b * a = (low bit + x * (b >> 1)) * a
        lemma_gf_mul_distributes_left(b & 1, xtime(b >> 1u128), a);
        lemma_gf_mul_bits_xtime_left(b >> 1u128, a, 128);
        lemma_gf_mul_one(a);
        lemma_gf_mul_zero(a);
    }
}

/// Multiplication is associative.
pub proof fn lemma_gf_mul_associates(a: u128, b: u128, c: u128)
    ensures
        gf_mul(gf_mul(a, b), c) == gf_mul(a, gf_mul(b, c)),
    decreases c,
{
    lemma_bit_facts(c, 0);
    if c == 0 {
        lemma_gf_mul_zero(gf_mul(a, b));
        lemma_gf_mul_zero(b);
        lemma_gf_mul_zero(a);
    } else {
        let c1 = c >> 1u128;
        lemma_gf_mul_associates(a, b, c1);
        lemma_gf_mul_split_right(gf_mul(a, b), c);
        lemma_gf_mul_split_right(b, c);
        let t: u128 = if c & 1 == 1 {
            b
        } else {
            0
        };
        lemma_gf_mul_distributes_right(a, t, xtime(gf_mul(b, c1)));
        lemma_gf_mul_xtime_right(a, gf_mul(b, c1));
        lemma_gf_mul_zero(a);
    }
}

/// Sum of `f(0), ..., f(n - 1)`.
pub open spec fn gf_sum_fn(f: spec_fn(int) -> u128, n: nat) -> u128
    decreases n,
{
    if n == 0 {
        0
    } else {
        gf_sum_fn(f, (n - 1) as nat) ^ f(n - 1)
    }
}

/// Sums of functions that agree below `n` agree.
pub proof fn lemma_gf_sum_fn_congruent(f: spec_fn(int) -> u128, g: spec_fn(int) -> u128, n: nat)
    requires
        forall|k: int| 0 <= k < n ==> #[trigger] f(k) == g(k),
    ensures
        gf_sum_fn(f, n) == gf_sum_fn(g, n),
    decreases n,
{
    if n > 0 {
        lemma_gf_sum_fn_congruent(f, g, (n - 1) as nat);
    }
}

/// A dot product is the sum of its products.
pub proof fn lemma_gf_dot_as_sum(row: Seq<u128>, v: Seq<u128>, n: nat)
    ensures
        gf_dot(row, v, n) == gf_sum_fn(|k: int| gf_mul(row[k], v[k]), n),
    decreases n,
{
    if n > 0 {
        lemma_gf_dot_as_sum(row, v, (n - 1) as nat);
    }
}

/// The sum of pointwise sums is the sum of the two sums.
pub proof fn lemma_gf_sum_fn_add(f: spec_fn(int) -> u128, g: spec_fn(int) -> u128, n: nat)
    ensures
        gf_sum_fn(|k: int| f(k) ^ g(k), n) == gf_sum_fn(f, n) ^ gf_sum_fn(g, n),
    decreases n,
{
    lemma_xor_facts(0, 0, 0);
    if n > 0 {
        lemma_gf_sum_fn_add(f, g, (n - 1) as nat);
        lemma_xor_swap(
            gf_sum_fn(f, (n - 1) as nat),
            gf_sum_fn(g, (n - 1) as nat),
            f(n - 1),
            g(n - 1),
        );
    }
}

/// Multiplying a sum on the left multiplies each term.
pub proof fn lemma_gf_mul_sum_fn(c: u128, f: spec_fn(int) -> u128, n: nat)
    ensures
        gf_mul(c, gf_sum_fn(f, n)) == gf_sum_fn(|k: int| gf_mul(c, f(k)), n),
    decreases n,
{
    if n == 0 {
        lemma_gf_mul_zero(c);
    } else {
        lemma_gf_mul_sum_fn(c, f, (n - 1) as nat);
        lemma_gf_mul_distributes_right(c, gf_sum_fn(f, (n - 1) as nat), f(n - 1));
    }
}

/// Multiplying a sum on the right multiplies each term.
pub proof fn lemma_gf_sum_fn_mul(f: spec_fn(int) -> u128, c: u128, n: nat)
    ensures
        gf_mul(gf_sum_fn(f, n), c) == gf_sum_fn(|k: int| gf_mul(f(k), c), n),
    decreases n,
{
    if n == 0 {
        lemma_gf_mul_zero(c);
    } else {
        lemma_gf_sum_fn_mul(f, c, (n - 1) as nat);
        lemma_gf_mul_distributes_left(gf_sum_fn(f, (n - 1) as nat), f(n - 1), c);
    }
}

/// Double sums may be taken in either order.
pub proof fn lemma_gf_sum_fn_swap(f: spec_fn(int, int) -> u128, n1: nat, n2: nat)
    ensures
        gf_sum_fn(|j: int| gf_sum_fn(|l: int| f(j, l), n2), n1) == gf_sum_fn(
            |l: int| gf_sum_fn(|j: int| f(j, l), n1),
            n2,
        ),
    decreases n1,
{
    if n1 == 0 {
        lemma_gf_sum_fn_zero(n2);
        lemma_gf_sum_fn_congruent(|l: int| gf_sum_fn(|j: int| f(j, l), 0), |l: int| 0u128, n2);
    } else {
        let m = (n1 - 1) as nat;
        lemma_gf_sum_fn_swap(f, m, n2);
        let g = |l: int| gf_sum_fn(|j: int| f(j, l), m);
        let h = |l: int| f(m as int, l);
        lemma_gf_sum_fn_add(g, h, n2);
        lemma_gf_sum_fn_congruent(
            |l: int| gf_sum_fn(|j: int| f(j, l), n1),
            |l: int| g(l) ^ h(l),
            n2,
        );
    }
}

/// The sum of zeros is zero.
pub proof fn lemma_gf_sum_fn_zero(n: nat)
    ensures
        gf_sum_fn(|k: int| 0u128, n) == 0,
    decreases n,
{
    lemma_xor_facts(0, 0, 0);
    if n > 0 {
        lemma_gf_sum_fn_zero((n - 1) as nat);
    }
}

/// A sum whose terms vanish but at `i` is the term at `i`.
pub proof fn lemma_gf_sum_fn_single(f: spec_fn(int) -> u128, i: int, n: nat)
    requires
        forall|k: int| 0 <= k < n && k != i ==> #[trigger] f(k) == 0,
    ensures
        gf_sum_fn(f, n) == if 0 <= i < n {
            f(i)
        } else {
            0
        },
    decreases n,
{
    lemma_xor_facts(0, 0, 0);
    if n > 0 {
        lemma_gf_sum_fn_single(f, i, (n - 1) as nat);
        lemma_xor_facts(f(n - 1), 0, 0);
        lemma_xor_facts(f(i), 0, 0);
    }
}

/// `a` to the power `n`: one times `n` factors `a`.
pub open spec fn gf_pow(a: u128, n: nat) -> u128
    decreases n,
{
    if n == 0 {
        1
    } else {
        gf_mul(gf_pow(a, (n - 1) as nat), a)
    }
}

/// The multiplicative inverse of a nonzero `a`: `a` to the power 2^128 - 2 (and zero
/// for zero).
pub open spec fn gf_inv(a: u128) -> u128 {
    gf_pow(a, 0xffff_ffff_ffff_ffff_ffff_ffff_ffff_fffeu128 as nat)
}

/// Powers add their exponents.
pub proof fn lemma_gf_pow_add(a: u128, m: nat, n: nat)
    ensures
        gf_pow(a, m + n) == gf_mul(gf_pow(a, m), gf_pow(a, n)),
    decreases n,
{
    if n == 0 {
        lemma_gf_mul_one(gf_pow(a, m));
    } else {
        lemma_gf_pow_add(a, m, (n - 1) as nat);
        assert((m + n - 1) as nat == m + (n - 1) as nat);
        lemma_gf_mul_associates(gf_pow(a, m), gf_pow(a, (n - 1) as nat), a);
    }
}

/// An even power is a power of the square.
pub proof fn lemma_gf_pow_square(a: u128, k: nat)
    ensures
        gf_pow(a, 2 * k) == gf_pow(gf_mul(a, a), k),
    decreases k,
{
    if k > 0 {
        lemma_gf_pow_square(a, (k - 1) as nat);
        lemma_gf_pow_add(a, 2 * (k - 1) as nat, 2);
        assert(gf_pow(a, 2) == gf_mul(gf_mul(1, a), a)) by {
            reveal_with_fuel(gf_pow, 3);
        }
        lemma_gf_mul_one(a);
        assert(2 * k == 2 * (k - 1) as nat + 2);
    }
}

/// A power of a product is the product of the powers.
pub proof fn lemma_gf_pow_mul(a: u128, b: u128, n: nat)
    ensures
        gf_pow(gf_mul(a, b), n) == gf_mul(gf_pow(a, n), gf_pow(b, n)),
    decreases n,
{
    if n == 0 {
        lemma_gf_mul_one(1);
    } else {
        let m = (n - 1) as nat;
        lemma_gf_pow_mul(a, b, m);
        let pa = gf_pow(a, m);
        let pb = gf_pow(b, m);
        // (pa pb)(a b) = (pa a)(pb b)
        lemma_gf_mul_associates(gf_mul(pa, pb), a, b);
        lemma_gf_mul_associates(pa, pb, a);
        lemma_gf_mul_commutes(pb, a);
        lemma_gf_mul_associates(pa, a, pb);
        lemma_gf_mul_associates(gf_mul(pa, a), pb, b);
    }
}

/// Bits of an exponent.
proof fn lemma_exponent_bits(e: u128)
    ensures
        e >> 1u128 == e / 2,
        (e & 1 == 1) == (e % 2 == 1),
{
    assert(e >> 1u128 == e / 2 && (e & 1 == 1) == (e % 2 == 1)) by (bit_vector);
}

/// `a` to the power `e`, by repeated squaring.
pub fn gf128_pow(a: u128, e: u128) -> (r: u128)
    ensures
        r == gf_pow(a, e as nat),
{
    let mut result: u128 = 1;
    let mut base = a;
    let mut rest = e;
    proof {
        lemma_gf_mul_one(gf_pow(a, e as nat));
    }
    while rest > 0
        invariant
            gf_mul(result, gf_pow(base, rest as nat)) == gf_pow(a, e as nat),
        decreases rest,
    {
        proof {
            lemma_exponent_bits(rest);
            let half = (rest / 2) as nat;
            lemma_gf_pow_square(base, half);
            if rest % 2 == 1 {
                lemma_gf_pow_add(base, 2 * half, 1);
                assert(gf_pow(base, 1) == gf_mul(1, base)) by {
                    reveal_with_fuel(gf_pow, 2);
                }
                lemma_gf_mul_one(base);
                lemma_gf_mul_commutes(gf_pow(base, 2 * half), base);
                lemma_gf_mul_associates(result, base, gf_pow(base, 2 * half));
            }
        }
        if rest & 1 == 1 {
            result = gf128_mul(result, base);
        }
        base = gf128_mul(base, base);
        rest = rest >> 1u128;
    }
    proof {
        lemma_gf_mul_one(result);
    }
    result
}

/// The multiplicative inverse of a nonzero element (zero for zero).
pub fn gf128_invert(a: u128) -> (r: u128)
    ensures
        r == gf_inv(a),
{
    gf128_pow(a, 0xffff_ffff_ffff_ffff_ffff_ffff_ffff_fffeu128)
}

/// The bits of the low 64 bits of `z` spread to the even positions: the square of a
/// polynomial of degree below 64.
pub open spec fn spread_bits(z: u128) -> u128 {
    let z1 = (z ^ (z << 32u128)) & 0x00000000FFFFFFFF00000000FFFFFFFFu128;
    let z2 = (z1 ^ (z1 << 16u128)) & 0x0000FFFF0000FFFF0000FFFF0000FFFFu128;
    let z3 = (z2 ^ (z2 << 8u128)) & 0x00FF00FF00FF00FF00FF00FF00FF00FFu128;
    let z4 = (z3 ^ (z3 << 4u128)) & 0x0F0F0F0F0F0F0F0F0F0F0F0F0F0F0F0Fu128;
    let z5 = (z4 ^ (z4 << 2u128)) & 0x33333333333333333333333333333333u128;
    (z5 ^ (z5 << 1u128)) & 0x55555555555555555555555555555555u128
}

/// `h * x^128`, reduced: `h` times x^7 + x^2 + x + 1, with the bits above x^127
/// reduced once more.
pub open spec fn reduce_high(h: u128) -> u128 {
    let o = (h >> 127u128) ^ (h >> 126u128) ^ (h >> 121u128);
    h ^ (h << 1u128) ^ (h << 2u128) ^ (h << 7u128) ^ o ^ (o << 1u128) ^ (o << 2u128) ^ (o
        << 7u128)
}

/// The square in closed form: the bits spread to even positions, the high half reduced.
pub open spec fn square_closed(a: u128) -> u128 {
    spread_bits(a & 0xFFFF_FFFF_FFFF_FFFFu128) ^ reduce_high(spread_bits(a >> 64u128))
}

/// The closed form of the square is linear, takes x * b to x^2 times its value, and
/// fixes zero and one.
proof fn lemma_square_closed_facts(a: u128, b: u128)
    ensures
        square_closed(a ^ b) == square_closed(a) ^ square_closed(b),
        square_closed(xtime(b)) == xtime(xtime(square_closed(b))),
        square_closed(0) == 0,
        square_closed(1) == 1,
{
    assert(square_closed(a ^ b) == square_closed(a) ^ square_closed(b)) by (bit_vector);
    assert(square_closed(xtime(b)) == xtime(xtime(square_closed(b)))) by (bit_vector);
    assert(square_closed(0) == 0 && square_closed(1) == 1) by (bit_vector);
}

/// The only elements equal to their own square are zero and one.
proof fn lemma_square_fixed_points(y: u128)
    requires
        square_closed(y) == y,
    ensures
        y == 0 || y == 1,
{
    assert(square_closed(y) == y ==> y == 0 || y == 1) by (bit_vector);
}

/// Multiplying by x is multiplying by the element x.
proof fn lemma_xtime_is_mul(b: u128)
    ensures
        xtime(b) == gf_mul(b, 2),
{
    assert(xtime(1) == 2) by (bit_vector);
    lemma_gf_mul_xtime_right(b, 1);
    lemma_gf_mul_one(b);
}

/// The square is its closed form.
pub proof fn lemma_gf_square(a: u128)
    ensures
        gf_mul(a, a) == square_closed(a),
    decreases a,
{
    lemma_bit_facts(a, 0);
    let l = a & 1;
    let b = a >> 1u128;
    let xb = xtime(b);
    lemma_square_closed_facts(l, xb);
    lemma_square_closed_facts(0, b);
    if a == 0 {
        lemma_gf_mul_zero(0);
    } else {
        lemma_gf_square(b);
        lemma_gf_mul_distributes_left(l, xb, a);
        lemma_gf_mul_distributes_right(l, l, xb);
        lemma_gf_mul_distributes_right(xb, l, xb);
        lemma_gf_mul_commutes(l, xb);
        lemma_gf_mul_xtime_right(xb, b);
        lemma_gf_mul_commutes(xb, b);
        lemma_gf_mul_xtime_right(b, b);
        if l == 1 {
            lemma_gf_mul_one(1);
            lemma_square_closed_facts(1, 0);
        } else {
            lemma_gf_mul_zero(0);
        }
        let p = gf_mul(l, xb);
        lemma_xor_swap(gf_mul(l, l), p, gf_mul(xb, xb), p);
        lemma_xor_facts(p, p, gf_mul(xb, xb));
        lemma_xor_facts(gf_mul(l, l) ^ gf_mul(xb, xb), p, 0);
        lemma_xor_facts(p, gf_mul(xb, xb), 0);
    }
}

/// `a` squared `k` times: `a` to the power 2^k.
pub open spec fn gf_square_n(a: u128, k: nat) -> u128
    decreases k,
{
    if k == 0 {
        a
    } else {
        gf_square_n(gf_mul(a, a), (k - 1) as nat)
    }
}

/// `a` squared `k` times in closed form.
pub open spec fn square_closed_n(a: u128, k: nat) -> u128
    decreases k,
{
    if k == 0 {
        a
    } else {
        square_closed_n(square_closed(a), (k - 1) as nat)
    }
}

/// Repeated squaring is its closed form repeated.
proof fn lemma_square_n_closed(a: u128, k: nat)
    ensures
        gf_square_n(a, k) == square_closed_n(a, k),
    decreases k,
{
    if k > 0 {
        lemma_gf_square(a);
        lemma_square_n_closed(gf_mul(a, a), (k - 1) as nat);
    }
}

/// Repeated squaring is additive.
proof fn lemma_square_n_adds(a: u128, b: u128, k: nat)
    ensures
        gf_square_n(a ^ b, k) == gf_square_n(a, k) ^ gf_square_n(b, k),
    decreases k,
{
    if k > 0 {
        lemma_gf_square(a);
        lemma_gf_square(b);
        lemma_gf_square(a ^ b);
        lemma_square_closed_facts(a, b);
        lemma_square_n_adds(gf_mul(a, a), gf_mul(b, b), (k - 1) as nat);
    }
}

/// Repeated squaring is multiplicative.
proof fn lemma_square_n_multiplies(a: u128, b: u128, k: nat)
    ensures
        gf_square_n(gf_mul(a, b), k) == gf_mul(gf_square_n(a, k), gf_square_n(b, k)),
    decreases k,
{
    if k > 0 {
        // (a b)(a b) = (a a)(b b)
        lemma_gf_mul_associates(gf_mul(a, b), a, b);
        lemma_gf_mul_associates(a, b, a);
        lemma_gf_mul_commutes(b, a);
        lemma_gf_mul_associates(a, a, b);
        lemma_gf_mul_associates(gf_mul(a, a), b, b);
        lemma_square_n_multiplies(gf_mul(a, a), gf_mul(b, b), (k - 1) as nat);
    }
}

/// Zero and one are fixed by repeated squaring.
proof fn lemma_square_n_bit(l: u128, k: nat)
    requires
        l == 0 || l == 1,
    ensures
        gf_square_n(l, k) == l,
    decreases k,
{
    if k > 0 {
        lemma_gf_mul_zero(0);
        lemma_gf_mul_one(1);
        lemma_square_n_bit(l, (k - 1) as nat);
    }
}

/// Squaring x^(2^0) 128 times is squaring x^(2^16) 112 times: each step is the
/// closed-form square of the previous power.
proof fn lemma_square_chain_0()
    ensures
        square_closed_n(0x2u128, 128) == square_closed_n(0x1001001111110961118fe6196978ef70u128, 112),
{
    assert(square_closed(0x2u128) == 0x4u128 &&
        square_closed(0x4u128) == 0x10u128 &&
        square_closed(0x10u128) == 0x100u128 &&
        square_closed(0x100u128) == 0x10000u128 &&
        square_closed(0x10000u128) == 0x100000000u128 &&
        square_closed(0x100000000u128) == 0x10000000000000000u128 &&
        square_closed(0x10000000000000000u128) == 0x87u128 &&
        square_closed(0x87u128) == 0x4015u128 &&
        square_closed(0x4015u128) == 0x10000111u128 &&
        square_closed(0x10000111u128) == 0x100000000010101u128 &&
        square_closed(0x100000000010101u128) == 0x10000000000000000000100010001u128 &&
        square_closed(0x10000000000000000000100010001u128) == 0x87000000010000000100000001u128 &&
        square_closed(0x87000000010000000100000001u128) == 0x21caea0000000000000086u128 &&
        square_closed(0x21caea0000000000000086u128) == 0x21cae93f7cfc8u128 &&
        square_closed(0x21cae93f7cfc8u128) == 0x4015044544105551550555040u128 &&
        square_closed(0x4015044544105551550555040u128) == 0x1001001111110961118fe6196978ef70u128) by (bit_vector);
    assert(square_closed_n(0x2u128, 128) == square_closed_n(0x4u128, 127));
    assert(square_closed_n(0x4u128, 127) == square_closed_n(0x10u128, 126));
    assert(square_closed_n(0x10u128, 126) == square_closed_n(0x100u128, 125));
    assert(square_closed_n(0x100u128, 125) == square_closed_n(0x10000u128, 124));
    assert(square_closed_n(0x10000u128, 124) == square_closed_n(0x100000000u128, 123));
    assert(square_closed_n(0x100000000u128, 123) == square_closed_n(0x10000000000000000u128, 122));
    assert(square_closed_n(0x10000000000000000u128, 122) == square_closed_n(0x87u128, 121));
    assert(square_closed_n(0x87u128, 121) == square_closed_n(0x4015u128, 120));
    assert(square_closed_n(0x4015u128, 120) == square_closed_n(0x10000111u128, 119));
    assert(square_closed_n(0x10000111u128, 119) == square_closed_n(0x100000000010101u128, 118));
    assert(square_closed_n(0x100000000010101u128, 118) == square_closed_n(0x10000000000000000000100010001u128, 117));
    assert(square_closed_n(0x10000000000000000000100010001u128, 117) == square_closed_n(0x87000000010000000100000001u128, 116));
    assert(square_closed_n(0x87000000010000000100000001u128, 116) == square_closed_n(0x21caea0000000000000086u128, 115));
    assert(square_closed_n(0x21caea0000000000000086u128, 115) == square_closed_n(0x21cae93f7cfc8u128, 114));
    assert(square_closed_n(0x21cae93f7cfc8u128, 114) == square_closed_n(0x4015044544105551550555040u128, 113));
    assert(square_closed_n(0x4015044544105551550555040u128, 113) == square_closed_n(0x1001001111110961118fe6196978ef70u128, 112));
}

/// Squaring x^(2^16) 112 times is squaring x^(2^32) 96 times: each step is the
/// closed-form square of the previous power.
proof fn lemma_square_chain_1()
    ensures
        square_closed_n(0x1001001111110961118fe6196978ef70u128, 112) == square_closed_n(0x782d0a995dd3b01821777af80695052au128, 96),
{
    assert(square_closed(0x1001001111110961118fe6196978ef70u128) == 0x860140d2541486c693c692c775187987u128 &&
        square_closed(0x860140d2541486c693c692c775187987u128) == 0x8b69509b312d6501ea618e11df04ea1eu128 &&
        square_closed(0x8b69509b312d6501ea618e11df04ea1eu128) == 0xb715594eb7756558cad0352d30b311b4u128 &&
        square_closed(0xb715594eb7756558cad0352d30b311b4u128) == 0x1afdeffd35e5fde54e1a6f865fe82b9u128 &&
        square_closed(0x1afdeffd35e5fde54e1a6f865fe82b9u128) == 0x11b4a30358935542218289f09c0659edu128 &&
        square_closed(0x11b4a30358935542218289f09c0659edu128) == 0x83a513579eda579397b14587eebe264du128 &&
        square_closed(0x83a513579eda579397b14587eebe264du128) == 0x83ad91f69582bddf38d15180f9de45adu128 &&
        square_closed(0x83ad91f69582bddf38d15180f9de45adu128) == 0xc7f8a41756ad614d1a97936b620f481du128 &&
        square_closed(0xc7f8a41756ad614d1a97936b620f481du128) == 0xbb844bf6957599a6e94bf5687ccf4c39u128 &&
        square_closed(0xbb844bf6957599a6e94bf5687ccf4c39u128) == 0x2c3bd83d0661350d5aadb3837634c244u128 &&
        square_closed(0x2c3bd83d0661350d5aadb3837634c244u128) == 0x24f6fc2353c7f2321f726995c3f33829u128 &&
        square_closed(0x24f6fc2353c7f2321f726995c3f33829u128) == 0x150e344316f35f82a5b7efc52c5e9c53u128 &&
        square_closed(0x150e344316f35f82a5b7efc52c5e9c53u128) == 0xcbe66ebbc72d228a891738c79d5ad319u128 &&
        square_closed(0xcbe66ebbc72d228a891738c79d5ad319u128) == 0xd331a77342cf2867fbb824714f38f6c2u128 &&
        square_closed(0xd331a77342cf2867fbb824714f38f6c2u128) == 0x60dcdee4d2f1fc9262609e6968de22b0u128 &&
        square_closed(0x60dcdee4d2f1fc9262609e6968de22b0u128) == 0x782d0a995dd3b01821777af80695052au128) by (bit_vector);
    assert(square_closed_n(0x1001001111110961118fe6196978ef70u128, 112) == square_closed_n(0x860140d2541486c693c692c775187987u128, 111));
    assert(square_closed_n(0x860140d2541486c693c692c775187987u128, 111) == square_closed_n(0x8b69509b312d6501ea618e11df04ea1eu128, 110));
    assert(square_closed_n(0x8b69509b312d6501ea618e11df04ea1eu128, 110) == square_closed_n(0xb715594eb7756558cad0352d30b311b4u128, 109));
    assert(square_closed_n(0xb715594eb7756558cad0352d30b311b4u128, 109) == square_closed_n(0x1afdeffd35e5fde54e1a6f865fe82b9u128, 108));
    assert(square_closed_n(0x1afdeffd35e5fde54e1a6f865fe82b9u128, 108) == square_closed_n(0x11b4a30358935542218289f09c0659edu128, 107));
    assert(square_closed_n(0x11b4a30358935542218289f09c0659edu128, 107) == square_closed_n(0x83a513579eda579397b14587eebe264du128, 106));
    assert(square_closed_n(0x83a513579eda579397b14587eebe264du128, 106) == square_closed_n(0x83ad91f69582bddf38d15180f9de45adu128, 105));
    assert(square_closed_n(0x83ad91f69582bddf38d15180f9de45adu128, 105) == square_closed_n(0xc7f8a41756ad614d1a97936b620f481du128, 104));
    assert(square_closed_n(0xc7f8a41756ad614d1a97936b620f481du128, 104) == square_closed_n(0xbb844bf6957599a6e94bf5687ccf4c39u128, 103));
    assert(square_closed_n(0xbb844bf6957599a6e94bf5687ccf4c39u128, 103) == square_closed_n(0x2c3bd83d0661350d5aadb3837634c244u128, 102));
    assert(square_closed_n(0x2c3bd83d0661350d5aadb3837634c244u128, 102) == square_closed_n(0x24f6fc2353c7f2321f726995c3f33829u128, 101));
    assert(square_closed_n(0x24f6fc2353c7f2321f726995c3f33829u128, 101) == square_closed_n(0x150e344316f35f82a5b7efc52c5e9c53u128, 100));
    assert(square_closed_n(0x150e344316f35f82a5b7efc52c5e9c53u128, 100) == square_closed_n(0xcbe66ebbc72d228a891738c79d5ad319u128, 99));
    assert(square_closed_n(0xcbe66ebbc72d228a891738c79d5ad319u128, 99) == square_closed_n(0xd331a77342cf2867fbb824714f38f6c2u128, 98));
    assert(square_closed_n(0xd331a77342cf2867fbb824714f38f6c2u128, 98) == square_closed_n(0x60dcdee4d2f1fc9262609e6968de22b0u128, 97));
    assert(square_closed_n(0x60dcdee4d2f1fc9262609e6968de22b0u128, 97) == square_closed_n(0x782d0a995dd3b01821777af80695052au128, 96));
}

/// Squaring x^(2^32) 96 times is squaring x^(2^48) 80 times: each step is the
/// closed-form square of the previous power.
proof fn lemma_square_chain_2()
    ensures
        square_closed_n(0x782d0a995dd3b01821777af80695052au128, 96) == square_closed_n(0xe316b61772920218fe1d7816d9eb81fdu128, 80),
{
    assert(square_closed(0x782d0a995dd3b01821777af80695052au128) == 0xcec3202236b9330fde0a74a95b11a7b2u128 &&
        square_closed(0xcec3202236b9330fde0a74a95b11a7b2u128) == 0xcad1b2dd09125a5f800a7b44dd8e7a70u128 &&
        square_closed(0xcad1b2dd09125a5f800a7b44dd8e7a70u128) == 0xd3f537e04c700e277016c540c190dd74u128 &&
        square_closed(0xd3f537e04c700e277016c540c190dd74u128) == 0x20b022e1c1d1bc0809bbaa007aff17a4u128 &&
        square_closed(0x20b022e1c1d1bc0809bbaa007aff17a4u128) == 0x1c621e475a73acaea5ea62f173a564deu128 &&
        square_closed(0x1c621e475a73acaea5ea62f173a564deu128) == 0xeaab3a58b8a02fe2c1d3ada9e183a6f8u128 &&
        square_closed(0xeaab3a58b8a02fe2c1d3ada9e183a6f8u128) == 0xdffeae5cfc8592a22ee29c077314ee0du128 &&
        square_closed(0xdffeae5cfc8592a22ee29c077314ee0du128) == 0x1854548bb6f4de8e1794c9c6116bca12u128 &&
        square_closed(0x1854548bb6f4de8e1794c9c6116bca12u128) == 0xa7ddbe68af10b36c5046371c4cc9eaa8u128 &&
        square_closed(0xa7ddbe68af10b36c5046371c4cc9eaa8u128) == 0xc7c20e0075b34cb3e77bd7620dd51099u128 &&
        square_closed(0xc7c20e0075b34cb3e77bd7620dd51099u128) == 0xeed7a7597ab9140ee385088258930c85u128 &&
        square_closed(0xeed7a7597ab9140ee385088258930c85u128) == 0xd3807dd9d6a39649d9bf3b428f207eecu128 &&
        square_closed(0xd3807dd9d6a39649d9bf3b428f207eecu128) == 0x64fb855fc75b066a7d1adaba58301148u128 &&
        square_closed(0x64fb855fc75b066a7d1adaba58301148u128) == 0x710a093e99bb9946aba3d15b0b675aaau128 &&
        square_closed(0x710a093e99bb9946aba3d15b0b675aaau128) == 0xafc267d97044a1c866216c6f770b3b1eu128 &&
        square_closed(0xafc267d97044a1c866216c6f770b3b1eu128) == 0xe316b61772920218fe1d7816d9eb81fdu128) by (bit_vector);
    assert(square_closed_n(0x782d0a995dd3b01821777af80695052au128, 96) == square_closed_n(0xcec3202236b9330fde0a74a95b11a7b2u128, 95));
    assert(square_closed_n(0xcec3202236b9330fde0a74a95b11a7b2u128, 95) == square_closed_n(0xcad1b2dd09125a5f800a7b44dd8e7a70u128, 94));
    assert(square_closed_n(0xcad1b2dd09125a5f800a7b44dd8e7a70u128, 94) == square_closed_n(0xd3f537e04c700e277016c540c190dd74u128, 93));
    assert(square_closed_n(0xd3f537e04c700e277016c540c190dd74u128, 93) == square_closed_n(0x20b022e1c1d1bc0809bbaa007aff17a4u128, 92));
    assert(square_closed_n(0x20b022e1c1d1bc0809bbaa007aff17a4u128, 92) == square_closed_n(0x1c621e475a73acaea5ea62f173a564deu128, 91));
    assert(square_closed_n(0x1c621e475a73acaea5ea62f173a564deu128, 91) == square_closed_n(0xeaab3a58b8a02fe2c1d3ada9e183a6f8u128, 90));
    assert(square_closed_n(0xeaab3a58b8a02fe2c1d3ada9e183a6f8u128, 90) == square_closed_n(0xdffeae5cfc8592a22ee29c077314ee0du128, 89));
    assert(square_closed_n(0xdffeae5cfc8592a22ee29c077314ee0du128, 89) == square_closed_n(0x1854548bb6f4de8e1794c9c6116bca12u128, 88));
    assert(square_closed_n(0x1854548bb6f4de8e1794c9c6116bca12u128, 88) == square_closed_n(0xa7ddbe68af10b36c5046371c4cc9eaa8u128, 87));
    assert(square_closed_n(0xa7ddbe68af10b36c5046371c4cc9eaa8u128, 87) == square_closed_n(0xc7c20e0075b34cb3e77bd7620dd51099u128, 86));
    assert(square_closed_n(0xc7c20e0075b34cb3e77bd7620dd51099u128, 86) == square_closed_n(0xeed7a7597ab9140ee385088258930c85u128, 85));
    assert(square_closed_n(0xeed7a7597ab9140ee385088258930c85u128, 85) == square_closed_n(0xd3807dd9d6a39649d9bf3b428f207eecu128, 84));
    assert(square_closed_n(0xd3807dd9d6a39649d9bf3b428f207eecu128, 84) == square_closed_n(0x64fb855fc75b066a7d1adaba58301148u128, 83));
    assert(square_closed_n(0x64fb855fc75b066a7d1adaba58301148u128, 83) == square_closed_n(0x710a093e99bb9946aba3d15b0b675aaau128, 82));
    assert(square_closed_n(0x710a093e99bb9946aba3d15b0b675aaau128, 82) == square_closed_n(0xafc267d97044a1c866216c6f770b3b1eu128, 81));
    assert(square_closed_n(0xafc267d97044a1c866216c6f770b3b1eu128, 81) == square_closed_n(0xe316b61772920218fe1d7816d9eb81fdu128, 80));
}

/// Squaring x^(2^48) 80 times is squaring x^(2^64) 64 times: each step is the
/// closed-form square of the previous power.
proof fn lemma_square_chain_3()
    ensures
        square_closed_n(0xe316b61772920218fe1d7816d9eb81fdu128, 80) == square_closed_n(0x61651fea6b5832b944e598a795a299f6u128, 64),
{
    assert(square_closed(0xe316b61772920218fe1d7816d9eb81fdu128) == 0xfbcf8c1e442c8cf5b87c1159421de6c0u128 &&
        square_closed(0xfbcf8c1e442c8cf5b87c1159421de6c0u128) == 0x4d328e5ae8b1bde5687634c0bd8f66a6u128 &&
        square_closed(0x4d328e5ae8b1bde5687634c0bd8f66a6u128) == 0x4d758c29eeb484f7c8b21bf16608e4dbu128 &&
        square_closed(0x4d758c29eeb484f7c8b21bf16608e4dbu128) == 0x97da6d2e8f7686d939b53119c4b7496u128 &&
        square_closed(0x97da6d2e8f7686d939b53119c4b7496u128) == 0x60488351c7403436ccbb31a458da0423u128 &&
        square_closed(0x60488351c7403436ccbb31a458da0423u128) == 0x3c5814a4c792b3beaba321469362905fu128 &&
        square_closed(0x3c5814a4c792b3beaba321469362905fu128) == 0xf6fd92c58b52c44dfbcf513b18b860f7u128 &&
        square_closed(0xf6fd92c58b52c44dfbcf513b18b860f7u128) == 0x740252435434bd93e213b075ac781973u128 &&
        square_closed(0x740252435434bd93e213b075ac781973u128) == 0xb7740311b0146782bb228613735755a8u128 &&
        square_closed(0xb7740311b0146782bb228613735755a8u128) == 0x14a4e774428f86a14e059e6f77db9735u128 &&
        square_closed(0x14a4e774428f86a14e059e6f77db9735u128) == 0x9f07d44ae7b5f72d6728ba4f8b5ad996u128 &&
        square_closed(0x9f07d44ae7b5f72d6728ba4f8b5ad996u128) == 0x783e0e827a3c43a2e68d429870a86444u128 &&
        square_closed(0x783e0e827a3c43a2e68d429870a86444u128) == 0x9ed6f0fd3b898356dddef6f866a8cb3au128 &&
        square_closed(0x9ed6f0fd3b898356dddef6f866a8cb3au128) == 0x3dd46c137e3f5775ac6ea52692d6e84fu128 &&
        square_closed(0x3dd46c137e3f5775ac6ea52692d6e84fu128) == 0xf64e2b2e01a1818581aae137a9a1f2acu128 &&
        square_closed(0xf64e2b2e01a1818581aae137a9a1f2acu128) == 0x61651fea6b5832b944e598a795a299f6u128) by (bit_vector);
    assert(square_closed_n(0xe316b61772920218fe1d7816d9eb81fdu128, 80) == square_closed_n(0xfbcf8c1e442c8cf5b87c1159421de6c0u128, 79));
    assert(square_closed_n(0xfbcf8c1e442c8cf5b87c1159421de6c0u128, 79) == square_closed_n(0x4d328e5ae8b1bde5687634c0bd8f66a6u128, 78));
    assert(square_closed_n(0x4d328e5ae8b1bde5687634c0bd8f66a6u128, 78) == square_closed_n(0x4d758c29eeb484f7c8b21bf16608e4dbu128, 77));
    assert(square_closed_n(0x4d758c29eeb484f7c8b21bf16608e4dbu128, 77) == square_closed_n(0x97da6d2e8f7686d939b53119c4b7496u128, 76));
    assert(square_closed_n(0x97da6d2e8f7686d939b53119c4b7496u128, 76) == square_closed_n(0x60488351c7403436ccbb31a458da0423u128, 75));
    assert(square_closed_n(0x60488351c7403436ccbb31a458da0423u128, 75) == square_closed_n(0x3c5814a4c792b3beaba321469362905fu128, 74));
    assert(square_closed_n(0x3c5814a4c792b3beaba321469362905fu128, 74) == square_closed_n(0xf6fd92c58b52c44dfbcf513b18b860f7u128, 73));
    assert(square_closed_n(0xf6fd92c58b52c44dfbcf513b18b860f7u128, 73) == square_closed_n(0x740252435434bd93e213b075ac781973u128, 72));
    assert(square_closed_n(0x740252435434bd93e213b075ac781973u128, 72) == square_closed_n(0xb7740311b0146782bb228613735755a8u128, 71));
    assert(square_closed_n(0xb7740311b0146782bb228613735755a8u128, 71) == square_closed_n(0x14a4e774428f86a14e059e6f77db9735u128, 70));
    assert(square_closed_n(0x14a4e774428f86a14e059e6f77db9735u128, 70) == square_closed_n(0x9f07d44ae7b5f72d6728ba4f8b5ad996u128, 69));
    assert(square_closed_n(0x9f07d44ae7b5f72d6728ba4f8b5ad996u128, 69) == square_closed_n(0x783e0e827a3c43a2e68d429870a86444u128, 68));
    assert(square_closed_n(0x783e0e827a3c43a2e68d429870a86444u128, 68) == square_closed_n(0x9ed6f0fd3b898356dddef6f866a8cb3au128, 67));
    assert(square_closed_n(0x9ed6f0fd3b898356dddef6f866a8cb3au128, 67) == square_closed_n(0x3dd46c137e3f5775ac6ea52692d6e84fu128, 66));
    assert(square_closed_n(0x3dd46c137e3f5775ac6ea52692d6e84fu128, 66) == square_closed_n(0xf64e2b2e01a1818581aae137a9a1f2acu128, 65));
    assert(square_closed_n(0xf64e2b2e01a1818581aae137a9a1f2acu128, 65) == square_closed_n(0x61651fea6b5832b944e598a795a299f6u128, 64));
}

/// Squaring x^(2^64) 64 times is squaring x^(2^80) 48 times: each step is the
/// closed-form square of the previous power.
proof fn lemma_square_chain_4()
    ensures
        square_closed_n(0x61651fea6b5832b944e598a795a299f6u128, 64) == square_closed_n(0x79a3d532b4dca977042a87c2811ee47au128, 48),
{
    assert(square_closed(0x61651fea6b5832b944e598a795a299f6u128) == 0x7c9d30e6ed40cbc30e4292c6d87e2a65u128 &&
        square_closed(0x7c9d30e6ed40cbc30e4292c6d87e2a65u128) == 0xc2c57e31da2ff653d47f657d9736a3bcu128 &&
        square_closed(0xc2c57e31da2ff653d47f657d9736a3bcu128) == 0xe325ada8d4bf8eff55cb32146561a494u128 &&
        square_closed(0xe325ada8d4bf8eff55cb32146561a494u128) == 0xbf884491f010fcf92b42640baf97546au128 &&
        square_closed(0xbf884491f010fcf92b42640baf97546au128) == 0x744ff1cc6c4147e96f55c63e138b0f6au128 &&
        square_closed(0x744ff1cc6c4147e96f55c63e138b0f6au128) == 0xf72d4a117bba9cee44bd30ca7a959c35u128 &&
        square_closed(0xf72d4a117bba9cee44bd30ca7a959c35u128) == 0x31f9706e56dcd7c9dd3c39ec2fcb97ecu128 &&
        square_closed(0x31f9706e56dcd7c9dd3c39ec2fcb97ecu128) == 0xcafd0f1dee4b13f4f9104edc7cd7c419u128 &&
        square_closed(0xcafd0f1dee4b13f4f9104edc7cd7c419u128) == 0xc6b603373b7fff4c92f4024ed5a0366eu128 &&
        square_closed(0xc6b603373b7fff4c92f4024ed5a0366eu128) == 0xfb4b047c029d81bde9408400053759bbu128 &&
        square_closed(0xfb4b047c029d81bde9408400053759bbu128) == 0x5c12435b486ac2b0022c6b03d1e52223u128 &&
        square_closed(0x5c12435b486ac2b0022c6b03d1e52223u128) == 0xdeb4814466d6d45600cb1be4b63b5b3du128 &&
        square_closed(0xdeb4814466d6d45600cb1be4b63b5b3du128) == 0x1c8f0314c1ca2c6a235138002e3dec62u128 &&
        square_closed(0x1c8f0314c1ca2c6a235138002e3dec62u128) == 0xaa94fa2a07db8f59b4fa968f61ea5bd8u128 &&
        square_closed(0xaa94fa2a07db8f59b4fa968f61ea5bd8u128) == 0xbaed1a1f49ca7f891ec3403efa66966eu128 &&
        square_closed(0xbaed1a1f49ca7f891ec3403efa66966eu128) == 0x79a3d532b4dca977042a87c2811ee47au128) by (bit_vector);
    assert(square_closed_n(0x61651fea6b5832b944e598a795a299f6u128, 64) == square_closed_n(0x7c9d30e6ed40cbc30e4292c6d87e2a65u128, 63));
    assert(square_closed_n(0x7c9d30e6ed40cbc30e4292c6d87e2a65u128, 63) == square_closed_n(0xc2c57e31da2ff653d47f657d9736a3bcu128, 62));
    assert(square_closed_n(0xc2c57e31da2ff653d47f657d9736a3bcu128, 62) == square_closed_n(0xe325ada8d4bf8eff55cb32146561a494u128, 61));
    assert(square_closed_n(0xe325ada8d4bf8eff55cb32146561a494u128, 61) == square_closed_n(0xbf884491f010fcf92b42640baf97546au128, 60));
    assert(square_closed_n(0xbf884491f010fcf92b42640baf97546au128, 60) == square_closed_n(0x744ff1cc6c4147e96f55c63e138b0f6au128, 59));
    assert(square_closed_n(0x744ff1cc6c4147e96f55c63e138b0f6au128, 59) == square_closed_n(0xf72d4a117bba9cee44bd30ca7a959c35u128, 58));
    assert(square_closed_n(0xf72d4a117bba9cee44bd30ca7a959c35u128, 58) == square_closed_n(0x31f9706e56dcd7c9dd3c39ec2fcb97ecu128, 57));
    assert(square_closed_n(0x31f9706e56dcd7c9dd3c39ec2fcb97ecu128, 57) == square_closed_n(0xcafd0f1dee4b13f4f9104edc7cd7c419u128, 56));
    assert(square_closed_n(0xcafd0f1dee4b13f4f9104edc7cd7c419u128, 56) == square_closed_n(0xc6b603373b7fff4c92f4024ed5a0366eu128, 55));
    assert(square_closed_n(0xc6b603373b7fff4c92f4024ed5a0366eu128, 55) == square_closed_n(0xfb4b047c029d81bde9408400053759bbu128, 54));
    assert(square_closed_n(0xfb4b047c029d81bde9408400053759bbu128, 54) == square_closed_n(0x5c12435b486ac2b0022c6b03d1e52223u128, 53));
    assert(square_closed_n(0x5c12435b486ac2b0022c6b03d1e52223u128, 53) == square_closed_n(0xdeb4814466d6d45600cb1be4b63b5b3du128, 52));
    assert(square_closed_n(0xdeb4814466d6d45600cb1be4b63b5b3du128, 52) == square_closed_n(0x1c8f0314c1ca2c6a235138002e3dec62u128, 51));
    assert(square_closed_n(0x1c8f0314c1ca2c6a235138002e3dec62u128, 51) == square_closed_n(0xaa94fa2a07db8f59b4fa968f61ea5bd8u128, 50));
    assert(square_closed_n(0xaa94fa2a07db8f59b4fa968f61ea5bd8u128, 50) == square_closed_n(0xbaed1a1f49ca7f891ec3403efa66966eu128, 49));
    assert(square_closed_n(0xbaed1a1f49ca7f891ec3403efa66966eu128, 49) == square_closed_n(0x79a3d532b4dca977042a87c2811ee47au128, 48));
}

/// Squaring x^(2^80) 48 times is squaring x^(2^96) 32 times: each step is the
/// closed-form square of the previous power.
proof fn lemma_square_chain_5()
    ensures
        square_closed_n(0x79a3d532b4dca977042a87c2811ee47au128, 48) == square_closed_n(0x40e2dfc1450698cadca8758ed620dd7bu128, 32),
{
    assert(square_closed(0x79a3d532b4dca977042a87c2811ee47au128) == 0xca74daf67fe0c93b13581fc7a95df199u128 &&
        square_closed(0xca74daf67fe0c93b13581fc7a95df199u128) == 0x92d3f21915a271738441bd78c444ed45u128 &&
        square_closed(0x92d3f21915a271738441bd78c444ed45u128) == 0x52525b16c4db307dfc4ce06bfdce9edu128 &&
        square_closed(0x52525b16c4db307dfc4ce06bfdce9edu128) == 0x59a044e544805b9900ed08440dda5ebau128 &&
        square_closed(0x59a044e544805b9900ed08440dda5ebau128) == 0xd6648859781bb4ef7800914cc52e273bu128 &&
        square_closed(0xd6648859781bb4ef7800914cc52e273bu128) == 0x28266451a0c9c61d9ad1a02c574e9631u128 &&
        square_closed(0x28266451a0c9c61d9ad1a02c574e9631u128) == 0x7c8647672078f3f4cd3c813afb78aa38u128 &&
        square_closed(0x7c8647672078f3f4cd3c813afb78aa38u128) == 0x92c0cf343ae063ad494fdfab6df42306u128 &&
        square_closed(0x92c0cf343ae063ad494fdfab6df42306u128) == 0x5574a07cca7cd737aca6f91a6abde544u128 &&
        square_closed(0x5574a07cca7cd737aca6f91a6abde544u128) == 0xbbada747894bc3dd879287c869f885c3u128 &&
        square_closed(0xbbada747894bc3dd879287c869f885c3u128) == 0x386db41096f62a8af50e0632f2a35f5bu128 &&
        square_closed(0x386db41096f62a8af50e0632f2a35f5bu128) == 0xefdb4540536482251843656b2ea8f397u128 &&
        square_closed(0xefdb4540536482251843656b2ea8f397u128) == 0x864204566cee644df1c52011971b40b3u128 &&
        square_closed(0x864204566cee644df1c52011971b40b3u128) == 0x9f65220d0c78fc67048e86e374780c55u128 &&
        square_closed(0x9f65220d0c78fc67048e86e374780c55u128) == 0x6c3124a15e087d323caadfab02ea679du128 &&
        square_closed(0x6c3124a15e087d323caadfab02ea679du128) == 0x40e2dfc1450698cadca8758ed620dd7bu128) by (bit_vector);
    assert(square_closed_n(0x79a3d532b4dca977042a87c2811ee47au128, 48) == square_closed_n(0xca74daf67fe0c93b13581fc7a95df199u128, 47));
    assert(square_closed_n(0xca74daf67fe0c93b13581fc7a95df199u128, 47) == square_closed_n(0x92d3f21915a271738441bd78c444ed45u128, 46));
    assert(square_closed_n(0x92d3f21915a271738441bd78c444ed45u128, 46) == square_closed_n(0x52525b16c4db307dfc4ce06bfdce9edu128, 45));
    assert(square_closed_n(0x52525b16c4db307dfc4ce06bfdce9edu128, 45) == square_closed_n(0x59a044e544805b9900ed08440dda5ebau128, 44));
    assert(square_closed_n(0x59a044e544805b9900ed08440dda5ebau128, 44) == square_closed_n(0xd6648859781bb4ef7800914cc52e273bu128, 43));
    assert(square_closed_n(0xd6648859781bb4ef7800914cc52e273bu128, 43) == square_closed_n(0x28266451a0c9c61d9ad1a02c574e9631u128, 42));
    assert(square_closed_n(0x28266451a0c9c61d9ad1a02c574e9631u128, 42) == square_closed_n(0x7c8647672078f3f4cd3c813afb78aa38u128, 41));
    assert(square_closed_n(0x7c8647672078f3f4cd3c813afb78aa38u128, 41) == square_closed_n(0x92c0cf343ae063ad494fdfab6df42306u128, 40));
    assert(square_closed_n(0x92c0cf343ae063ad494fdfab6df42306u128, 40) == square_closed_n(0x5574a07cca7cd737aca6f91a6abde544u128, 39));
    assert(square_closed_n(0x5574a07cca7cd737aca6f91a6abde544u128, 39) == square_closed_n(0xbbada747894bc3dd879287c869f885c3u128, 38));
    assert(square_closed_n(0xbbada747894bc3dd879287c869f885c3u128, 38) == square_closed_n(0x386db41096f62a8af50e0632f2a35f5bu128, 37));
    assert(square_closed_n(0x386db41096f62a8af50e0632f2a35f5bu128, 37) == square_closed_n(0xefdb4540536482251843656b2ea8f397u128, 36));
    assert(square_closed_n(0xefdb4540536482251843656b2ea8f397u128, 36) == square_closed_n(0x864204566cee644df1c52011971b40b3u128, 35));
    assert(square_closed_n(0x864204566cee644df1c52011971b40b3u128, 35) == square_closed_n(0x9f65220d0c78fc67048e86e374780c55u128, 34));
    assert(square_closed_n(0x9f65220d0c78fc67048e86e374780c55u128, 34) == square_closed_n(0x6c3124a15e087d323caadfab02ea679du128, 33));
    assert(square_closed_n(0x6c3124a15e087d323caadfab02ea679du128, 33) == square_closed_n(0x40e2dfc1450698cadca8758ed620dd7bu128, 32));
}

/// Squaring x^(2^96) 32 times is squaring x^(2^112) 16 times: each step is the
/// closed-form square of the previous power.
proof fn lemma_square_chain_6()
    ensures
        square_closed_n(0x40e2dfc1450698cadca8758ed620dd7bu128, 32) == square_closed_n(0xc77a431b17442dc246bdf85b5f5764d5u128, 16),
{
    assert(square_closed(0x40e2dfc1450698cadca8758ed620dd7bu128) == 0x217bea750913f0db29e30e4d37b882a1u128 &&
        square_closed(0x217bea750913f0db29e30e4d37b882a1u128) == 0x18cc9c758f82f3a62452c0f06b2d5154u128 &&
        square_closed(0x18cc9c758f82f3a62452c0f06b2d5154u128) == 0xa2f988953ebab6d6ff4fc66638b9c77cu128 &&
        square_closed(0xa2f988953ebab6d6ff4fc66638b9c77cu128) == 0x8b621a33b1f55be1b5cf3dbe01503955u128 &&
        square_closed(0x8b621a33b1f55be1b5cf3dbe01503955u128) == 0xa6403e49a18fdcec5bad32ffd131adf1u128 &&
        square_closed(0xa6403e49a18fdcec5bad32ffd131adf1u128) == 0xc7213453b5a004318da7ee035acac1d8u128 &&
        square_closed(0xc7213453b5a004318da7ee035acac1d8u128) == 0xfab85890c72cf5bd42908c445873de98u128 &&
        square_closed(0xfab85890c72cf5bd42908c445873de98u128) == 0x18fb3bc896b15739aba9209e72802626u128 &&
        square_closed(0x18fb3bc896b15739aba9209e72802626u128) == 0xe2ae4c18bc72d0b5584b1b8ff9fdbe53u128 &&
        square_closed(0xe2ae4c18bc72d0b5584b1b8ff9fdbe53u128) == 0xbf7fe7e158f5e6b627fbbc64727757a3u128 &&
        square_closed(0xbf7fe7e158f5e6b627fbbc64727757a3u128) == 0x74349545e390b89fc3ef36c9b75a0400u128 &&
        square_closed(0x74349545e390b89fc3ef36c9b75a0400u128) == 0xb377c7044aeb289debaf56677af1691du128 &&
        square_closed(0xb377c7044aeb289debaf56677af1691du128) == 0xdd4a597abff1c6d46b3da5829a07e0fu128 &&
        square_closed(0xdd4a597abff1c6d46b3da5829a07e0fu128) == 0x390a7a5685925c88fb31442bbbee4562u128 &&
        square_closed(0x390a7a5685925c88fb31442bbbee4562u128) == 0xef0226d7d8c4f9088d931140ce80f4cau128 &&
        square_closed(0xef0226d7d8c4f9088d931140ce80f4cau128) == 0xc77a431b17442dc246bdf85b5f5764d5u128) by (bit_vector);
    assert(square_closed_n(0x40e2dfc1450698cadca8758ed620dd7bu128, 32) == square_closed_n(0x217bea750913f0db29e30e4d37b882a1u128, 31));
    assert(square_closed_n(0x217bea750913f0db29e30e4d37b882a1u128, 31) == square_closed_n(0x18cc9c758f82f3a62452c0f06b2d5154u128, 30));
    assert(square_closed_n(0x18cc9c758f82f3a62452c0f06b2d5154u128, 30) == square_closed_n(0xa2f988953ebab6d6ff4fc66638b9c77cu128, 29));
    assert(square_closed_n(0xa2f988953ebab6d6ff4fc66638b9c77cu128, 29) == square_closed_n(0x8b621a33b1f55be1b5cf3dbe01503955u128, 28));
    assert(square_closed_n(0x8b621a33b1f55be1b5cf3dbe01503955u128, 28) == square_closed_n(0xa6403e49a18fdcec5bad32ffd131adf1u128, 27));
    assert(square_closed_n(0xa6403e49a18fdcec5bad32ffd131adf1u128, 27) == square_closed_n(0xc7213453b5a004318da7ee035acac1d8u128, 26));
    assert(square_closed_n(0xc7213453b5a004318da7ee035acac1d8u128, 26) == square_closed_n(0xfab85890c72cf5bd42908c445873de98u128, 25));
    assert(square_closed_n(0xfab85890c72cf5bd42908c445873de98u128, 25) == square_closed_n(0x18fb3bc896b15739aba9209e72802626u128, 24));
    assert(square_closed_n(0x18fb3bc896b15739aba9209e72802626u128, 24) == square_closed_n(0xe2ae4c18bc72d0b5584b1b8ff9fdbe53u128, 23));
    assert(square_closed_n(0xe2ae4c18bc72d0b5584b1b8ff9fdbe53u128, 23) == square_closed_n(0xbf7fe7e158f5e6b627fbbc64727757a3u128, 22));
    assert(square_closed_n(0xbf7fe7e158f5e6b627fbbc64727757a3u128, 22) == square_closed_n(0x74349545e390b89fc3ef36c9b75a0400u128, 21));
    assert(square_closed_n(0x74349545e390b89fc3ef36c9b75a0400u128, 21) == square_closed_n(0xb377c7044aeb289debaf56677af1691du128, 20));
    assert(square_closed_n(0xb377c7044aeb289debaf56677af1691du128, 20) == square_closed_n(0xdd4a597abff1c6d46b3da5829a07e0fu128, 19));
    assert(square_closed_n(0xdd4a597abff1c6d46b3da5829a07e0fu128, 19) == square_closed_n(0x390a7a5685925c88fb31442bbbee4562u128, 18));
    assert(square_closed_n(0x390a7a5685925c88fb31442bbbee4562u128, 18) == square_closed_n(0xef0226d7d8c4f9088d931140ce80f4cau128, 17));
    assert(square_closed_n(0xef0226d7d8c4f9088d931140ce80f4cau128, 17) == square_closed_n(0xc77a431b17442dc246bdf85b5f5764d5u128, 16));
}

/// Squaring x^(2^112) 16 times is squaring x^(2^128) 0 times: each step is the
/// closed-form square of the previous power.
proof fn lemma_square_chain_7()
    ensures
        square_closed_n(0xc77a431b17442dc246bdf85b5f5764d5u128, 16) == square_closed_n(0x2u128, 0),
{
    assert(square_closed(0xc77a431b17442dc246bdf85b5f5764d5u128) == 0xaaf58d8527dbb51e9cb66967210ef752u128 &&
        square_closed(0xaaf58d8527dbb51e9cb66967210ef752u128) == 0xbea766c2fd57dce012c3142c06e2acc1u128 &&
        square_closed(0xbea766c2fd57dce012c3142c06e2acc1u128) == 0x718b86e46755b667022ba9c65acbed68u128 &&
        square_closed(0x718b86e46755b667022ba9c65acbed68u128) == 0xeba2e73f8e06f46e77a7af910537779du128 &&
        square_closed(0xeba2e73f8e06f46e77a7af910537779du128) == 0x9a6d9a22e2bcf10bebbd0f52366f13acu128 &&
        square_closed(0x9a6d9a22e2bcf10bebbd0f52366f13acu128) == 0x30930047648b0f33ab2b66ce2a82776cu128 &&
        square_closed(0x30930047648b0f33ab2b66ce2a82776cu128) == 0xdf6441de141c2ab56015a35f3e3c8cc5u128 &&
        square_closed(0xdf6441de141c2ab56015a35f3e3c8cc5u128) == 0x821656934ab0df98a24abe27faf17b9u128 &&
        square_closed(0x821656934ab0df98a24abe27faf17b9u128) == 0x6186189d20b819418606bb0e28094f06u128 &&
        square_closed(0x6186189d20b819418606bb0e28094f06u128) == 0x2cb2ca78e3a46e6118637a81b61a75a5u128 &&
        square_closed(0x2cb2ca78e3a46e6118637a81b61a75a5u128) == 0x34d34d3086928aeaebacd53e52b72998u128 &&
        square_closed(0x34d34d3086928aeaebacd53e52b72998u128) == 0xc71c71c308249e75db490028e7b6cf92u128 &&
        square_closed(0xc71c71c308249e75db490028e7b6cf92u128) == 0xebaebefbebaeb6db75d751453cf3b6acu128 &&
        square_closed(0xebaebefbebaeb6db75d751453cf3b6acu128) == 0x9a69a69a618618618a28a28a1451455au128 &&
        square_closed(0x9a69a69a618618618a28a28a1451455au128) == 0x24924924924924926db6db6db6db6da4u128 &&
        square_closed(0x24924924924924926db6db6db6db6da4u128) == 0x2u128) by (bit_vector);
    assert(square_closed_n(0xc77a431b17442dc246bdf85b5f5764d5u128, 16) == square_closed_n(0xaaf58d8527dbb51e9cb66967210ef752u128, 15));
    assert(square_closed_n(0xaaf58d8527dbb51e9cb66967210ef752u128, 15) == square_closed_n(0xbea766c2fd57dce012c3142c06e2acc1u128, 14));
    assert(square_closed_n(0xbea766c2fd57dce012c3142c06e2acc1u128, 14) == square_closed_n(0x718b86e46755b667022ba9c65acbed68u128, 13));
    assert(square_closed_n(0x718b86e46755b667022ba9c65acbed68u128, 13) == square_closed_n(0xeba2e73f8e06f46e77a7af910537779du128, 12));
    assert(square_closed_n(0xeba2e73f8e06f46e77a7af910537779du128, 12) == square_closed_n(0x9a6d9a22e2bcf10bebbd0f52366f13acu128, 11));
    assert(square_closed_n(0x9a6d9a22e2bcf10bebbd0f52366f13acu128, 11) == square_closed_n(0x30930047648b0f33ab2b66ce2a82776cu128, 10));
    assert(square_closed_n(0x30930047648b0f33ab2b66ce2a82776cu128, 10) == square_closed_n(0xdf6441de141c2ab56015a35f3e3c8cc5u128, 9));
    assert(square_closed_n(0xdf6441de141c2ab56015a35f3e3c8cc5u128, 9) == square_closed_n(0x821656934ab0df98a24abe27faf17b9u128, 8));
    assert(square_closed_n(0x821656934ab0df98a24abe27faf17b9u128, 8) == square_closed_n(0x6186189d20b819418606bb0e28094f06u128, 7));
    assert(square_closed_n(0x6186189d20b819418606bb0e28094f06u128, 7) == square_closed_n(0x2cb2ca78e3a46e6118637a81b61a75a5u128, 6));
    assert(square_closed_n(0x2cb2ca78e3a46e6118637a81b61a75a5u128, 6) == square_closed_n(0x34d34d3086928aeaebacd53e52b72998u128, 5));
    assert(square_closed_n(0x34d34d3086928aeaebacd53e52b72998u128, 5) == square_closed_n(0xc71c71c308249e75db490028e7b6cf92u128, 4));
    assert(square_closed_n(0xc71c71c308249e75db490028e7b6cf92u128, 4) == square_closed_n(0xebaebefbebaeb6db75d751453cf3b6acu128, 3));
    assert(square_closed_n(0xebaebefbebaeb6db75d751453cf3b6acu128, 3) == square_closed_n(0x9a69a69a618618618a28a28a1451455au128, 2));
    assert(square_closed_n(0x9a69a69a618618618a28a28a1451455au128, 2) == square_closed_n(0x24924924924924926db6db6db6db6da4u128, 1));
    assert(square_closed_n(0x24924924924924926db6db6db6db6da4u128, 1) == square_closed_n(0x2u128, 0));
}

/// x squared 128 times is x.
proof fn lemma_square_chain()
    ensures
        gf_square_n(2, 128) == 2,
{
    lemma_square_chain_0();
    lemma_square_chain_1();
    lemma_square_chain_2();
    lemma_square_chain_3();
    lemma_square_chain_4();
    lemma_square_chain_5();
    lemma_square_chain_6();
    lemma_square_chain_7();
    lemma_square_n_closed(2, 128);
}

/// Every element is its own 2^128-th power.
pub proof fn lemma_gf_frobenius(a: u128)
    ensures
        gf_square_n(a, 128) == a,
    decreases a,
{
    lemma_bit_facts(a, 0);
    if a == 0 {
        lemma_square_n_bit(0, 128);
    } else {
        let b = a >> 1u128;
        lemma_gf_frobenius(b);
        lemma_square_n_adds(a & 1, xtime(b), 128);
        lemma_square_n_bit(a & 1, 128);
        lemma_xtime_is_mul(b);
        lemma_square_n_multiplies(b, 2, 128);
        lemma_square_chain();
    }
}

/// `a` to the power 2^k is `a` squared `k` times.
proof fn lemma_gf_pow_two_power(a: u128, k: nat)
    ensures
        gf_pow(a, pow2(k)) == gf_square_n(a, k),
    decreases k,
{
    if k == 0 {
        lemma2_to64();
        assert(gf_pow(a, 1) == gf_mul(1, a)) by {
            reveal_with_fuel(gf_pow, 2);
        }
        lemma_gf_mul_one(a);
    } else {
        lemma_pow2_unfold(k);
        lemma_gf_pow_square(a, pow2((k - 1) as nat));
        lemma_gf_pow_two_power(gf_mul(a, a), (k - 1) as nat);
    }
}

/// Every nonzero element has an inverse: `a` times `a` to the power 2^128 - 2 is one.
pub proof fn lemma_gf_inv(a: u128)
    requires
        a != 0,
    ensures
        gf_mul(a, gf_inv(a)) == 1,
{
    let n: nat = pow2(128);
    lemma2_to64();
    lemma_pow2_adds(64, 64);
    assert(n == 0x1_0000_0000_0000_0000_0000_0000_0000_0000nat);
    let m: nat = 0xffff_ffff_ffff_ffff_ffff_ffff_ffff_fffeu128 as nat;
    let inv = gf_inv(a);
    let e = gf_mul(a, inv);
    // a^(2^128) = a
    lemma_gf_pow_two_power(a, 128);
    lemma_gf_frobenius(a);
    assert(gf_pow(a, 1) == gf_mul(1, a)) by {
        reveal_with_fuel(gf_pow, 2);
    }
    lemma_gf_mul_one(a);
    // a^(m + 1) = inv * a = e
    lemma_gf_pow_add(a, m, 1);
    lemma_gf_mul_commutes(inv, a);
    // a^(2^128 + m) = a * inv = e
    lemma_gf_pow_add(a, n, m);
    // e * e = a^((m + 1) + (m + 1)) = a^(2^128 + m) = e
    lemma_gf_pow_add(a, m + 1, m + 1);
    assert((m + 1) + (m + 1) == n + m);
    lemma_gf_square(e);
    lemma_square_fixed_points(e);
    if e == 0 {
        // then a = a^(2^128) = a * a^(m + 1) = a * e = 0
        lemma_gf_pow_add(a, 1, m + 1);
        assert(1 + (m + 1) == n);
        lemma_gf_mul_zero(a);
    }
}

} // verus!
