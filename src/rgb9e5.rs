//! Shared-exponent RGB9E5 encoding of linear HDR colour.
//!
//! Channel values travel as IEEE-754 binary32 bit patterns (`f32::to_bits`).
//! In the contracts a non-negative binary32 value is measured as a whole
//! number of units of 2^-149, the smallest positive subnormal, so every
//! finite value is an exact natural number.
use vstd::arithmetic::div_mod::*;
use vstd::arithmetic::power2::*;
use vstd::bits::*;
use vstd::prelude::*;

verus! {

pub const RGB9E5_EXPONENT_BITS: u32 = 5;

pub const RGB9E5_MANTISSA_BITS: u32 = 9;

pub const RGB9E5_EXP_BIAS: u32 = 15;

pub const RGB9E5_MAX_VALID_BIASED_EXP: u32 = 31;

/// Largest mantissa field value.
pub const MAX_RGB9E5_MANTISSA: u32 = 511;

/// The mantissa field of `word` that holds channel `c` (0 red, 1 green, 2 blue).
pub open spec fn mantissa_field(word: u32, c: int) -> nat {
    ((word as nat / pow2((9 * c) as nat)) % 512) as nat
}

/// The biased shared exponent of `word`.
pub open spec fn exponent_field(word: u32) -> nat {
    word as nat / pow2(27)
}

/// The three mantissas and the exponent packed into one word.
pub open spec fn pack(r: nat, g: nat, b: nat, e: nat) -> nat {
    e * pow2(27) + b * pow2(18) + g * pow2(9) + r
}

/// Sign bit of a binary32 pattern.
pub open spec fn f32_sign(bits: u32) -> bool {
    bits >= 0x8000_0000
}

/// Biased exponent field of a binary32 pattern.
pub open spec fn f32_exp(bits: u32) -> nat {
    ((bits as nat / pow2(23)) % 256) as nat
}

/// Fraction field of a binary32 pattern.
pub open spec fn f32_frac(bits: u32) -> nat {
    (bits as nat % pow2(23)) as nat
}

pub open spec fn f32_is_nan(bits: u32) -> bool {
    f32_exp(bits) == 255 && f32_frac(bits) != 0
}

pub open spec fn f32_is_inf(bits: u32) -> bool {
    f32_exp(bits) == 255 && f32_frac(bits) == 0
}

/// Magnitude of a finite binary32 pattern, in units of 2^-149.
pub open spec fn f32_magnitude(bits: u32) -> nat {
    if f32_exp(bits) == 0 {
        f32_frac(bits)
    } else {
        (f32_frac(bits) + pow2(23)) * pow2((f32_exp(bits) - 1) as nat)
    }
}

/// A finite, non-negative binary32 pattern whose value is `v` units of 2^-149.
pub open spec fn is_f32_of_value(bits: u32, v: nat) -> bool {
    !f32_sign(bits) && f32_exp(bits) < 255 && f32_magnitude(bits) == v
}

/// Largest representable channel value, `(2^9 - 1) / 2^9 * 2^16`, in units of 2^-149.
pub open spec fn max_rgb9e5_units() -> nat {
    511 * pow2(156)
}

/// Smallest positive representable channel value, `(1 / 2^9) / 2^15`, in units of 2^-149.
pub open spec fn epsilon_rgb9e5_units() -> nat {
    pow2(125)
}

/// A channel after clamping to `[0, max]`, in units of 2^-149: NaN and
/// negative values (negative infinity included) become zero, positive
/// infinity and values above the maximum become the maximum.
pub open spec fn clamped_channel(bits: u32) -> nat {
    if f32_is_nan(bits) || f32_sign(bits) {
        0
    } else if f32_is_inf(bits) || f32_magnitude(bits) > max_rgb9e5_units() {
        max_rgb9e5_units()
    } else {
        f32_magnitude(bits)
    }
}

pub open spec fn max3(a: nat, b: nat, c: nat) -> nat {
    if a >= b && a >= c {
        a
    } else if b >= c {
        b
    } else {
        c
    }
}

/// `max(-15 - 1, floor(log2(x))) + 1 + 15` for the value `x` of `v` units:
/// since `log2(x) == log2(v) - 149`, this is `max(0, floor_log2(v) - 133)`.
pub open spec fn provisional_exponent(v: nat) -> nat {
    if v < pow2(134) {
        0
    } else {
        (floor_log2(v) - 133) as nat
    }
}

/// `floor(x / 2^(e - 15 - 9) + 1/2)` for the value `x` of `v` units.
pub open spec fn rounded_mantissa(v: nat, e: nat) -> nat {
    (v + pow2(e + 124)) / pow2(e + 125)
}

/// The provisional exponent, raised by one where the largest channel would
/// round up to a mantissa of `2^9`.
pub open spec fn shared_exponent(max_channel: nat) -> nat {
    let e0 = provisional_exponent(max_channel);
    if rounded_mantissa(max_channel, e0) == 512 {
        e0 + 1
    } else {
        e0
    }
}

/// The word that encodes the clamped channel values `r`, `g`, `b` (in units of 2^-149).
pub open spec fn encode_values(r: nat, g: nat, b: nat) -> nat {
    let e = shared_exponent(max3(r, g, b));
    pack(rounded_mantissa(r, e), rounded_mantissa(g, e), rounded_mantissa(b, e), e)
}

/// The word that `float3_to_rgb9e5` gives for three binary32 patterns.
pub open spec fn rgb9e5_of(r: u32, g: u32, b: u32) -> nat {
    encode_values(clamped_channel(r), clamped_channel(g), clamped_channel(b))
}

/// Bits `offset .. offset + bits` of `value`, moved down to bit 0.
pub fn bitfield_extract(value: u32, offset: u32, bits: u32) -> (r: u32)
    requires
        offset < 32,
        bits < 32,
    ensures
        r == (value as nat / pow2(offset as nat)) % pow2(bits as nat),
{
    proof {
        lemma_u32_pow2_no_overflow(bits as nat);
        lemma_u32_shl_is_mul(1, bits);
        lemma_u32_shr_is_div(value, offset);
        lemma_u32_low_bits_mask_is_mod(value >> offset, bits as nat);
        lemma_pow2_pos(bits as nat);
    }
    let mask = (1u32 << bits) - 1u32;
    (value >> offset) & mask
}

/// `floor(log2(n))`, with 0 for 0 and 1.
pub open spec fn floor_log2(n: nat) -> nat
    decreases n,
{
    if n < 2 {
        0
    } else {
        1 + floor_log2(n / 2)
    }
}

pub proof fn lemma_floor_log2_between(n: nat, k: nat)
    requires
        pow2(k) <= n < pow2(k + 1),
    ensures
        floor_log2(n) == k,
    decreases k,
{
    lemma_pow2_unfold(k + 1);
    if k == 0 {
        lemma2_to64();
    } else {
        lemma_pow2_unfold(k);
        lemma_floor_log2_between(n / 2, (k - 1) as nat);
    }
}

proof fn lemma_div_bounds(x: nat, d: nat, a: nat)
    requires
        d > 0,
    ensures
        x / d >= a <==> x >= a * d,
        x / d < a <==> x < a * d,
{
    lemma_fundamental_div_mod(x as int, d as int);
    lemma_mod_pos_bound(x as int, d as int);
    let q = x / d;
    let r = x % d;
    assert(q >= a ==> x >= a * d) by (nonlinear_arith)
        requires
            x == d * q + r,
            0 <= r < d,
    ;
    assert(q < a ==> x < a * d) by (nonlinear_arith)
        requires
            x == d * q + r,
            0 <= r < d,
    ;
}

/// Rounding on the channel value truncated to 26 fraction bits agrees with
/// rounding on the exact value.
proof fn lemma_rounding_on_fixed(v: nat, e: nat)
    ensures
        rounded_mantissa(v, e) == (v / pow2(123) + pow2(e + 1)) / pow2(e + 2),
{
    let k = pow2(123);
    lemma_pow2_pos(123);
    lemma_pow2_pos(e + 2);
    lemma_pow2_adds(e + 1, 123);
    lemma_pow2_adds(e + 2, 123);
    assert(e + 1 + 123 == e + 124);
    assert(e + 2 + 123 == e + 125);
    lemma_hoist_over_denominator(v as int, pow2(e + 1) as int, k);
    lemma_div_denominator((v + pow2(e + 1) * k) as int, k as int, pow2(e + 2) as int);
    assert(k * pow2(e + 2) == pow2(e + 2) * k) by (nonlinear_arith);
}

fn pow2_u64(k: u64) -> (r: u64)
    requires
        k < 64,
    ensures
        r == pow2(k as nat),
{
    proof {
        lemma_u64_pow2_no_overflow(k as nat);
        lemma_u64_shl_is_mul(1, k);
    }
    1u64 << k
}

/// The largest channel value with 26 fraction bits: `511 * 2^33`.
const MAX_FIXED: u64 = 4389456576512;

/// A clamped channel truncated to 26 fraction bits (in units of 2^-26).
fn channel_fixed(bits: u32) -> (t: u64)
    ensures
        t == clamped_channel(bits) / pow2(123),
        t <= MAX_FIXED,
{
    let e = bitfield_extract(bits, 23, 8);
    let f = bitfield_extract(bits, 0, 23);
    let ghost k = pow2(123);
    proof {
        lemma2_to64();
        lemma2_to64_rest();
        lemma_pow2_pos(123);
        assert(e == f32_exp(bits));
        assert(f == f32_frac(bits));
        lemma_pow2_adds(33, 123);
        assert(max_rgb9e5_units() == (MAX_FIXED as nat) * k) by (nonlinear_arith)
            requires
                pow2(33 + 123) == pow2(33) * pow2(123),
                pow2(33) == 8589934592,
                k == pow2(123),
        ;
        lemma_div_by_multiple(MAX_FIXED as int, k as int);
        lemma_div_bounds(0, k, 1);
    }
    if e == 255 {
        if f != 0 || bits >= 0x8000_0000 {
            0
        } else {
            MAX_FIXED
        }
    } else if bits >= 0x8000_0000 {
        0
    } else if e == 0 {
        proof {
            lemma_pow2_strictly_increases(23, 123);
            lemma_div_bounds(f as nat, k, 1);
        }
        0
    } else if e >= 143 {
        proof {
            let mag = f32_magnitude(bits);
            lemma_pow2_adds(23, 142);
            assert(23 + 142 == 9 + 156);
            lemma_pow2_pos(156);
            lemma_pow2_adds(9, 156);
            if e > 143 {
                lemma_pow2_strictly_increases(142, (e - 1) as nat);
            }
            assert(mag >= pow2(23) * pow2(142)) by (nonlinear_arith)
                requires
                    mag == (f + pow2(23)) * pow2((e - 1) as nat),
                    pow2((e - 1) as nat) >= pow2(142),
            ;
            assert(mag > max_rgb9e5_units()) by (nonlinear_arith)
                requires
                    mag >= pow2(23) * pow2(142),
                    pow2(23) * pow2(142) == pow2(9) * pow2(156),
                    pow2(9) == 512,
                    pow2(156) > 0,
            ;
        }
        MAX_FIXED
    } else {
        let m = (f as u64) + 8388608;
        let ghost mag = f32_magnitude(bits);
        assert(mag == m * pow2((e - 1) as nat));
        if e >= 124 {
            let p = pow2_u64((e - 124) as u64);
            proof {
                lemma_pow2_adds((e - 124) as nat, 123);
                assert((e - 124) as nat + 123 == (e - 1) as nat);
                lemma_pow2_strictly_increases((e - 124) as nat, 19);
                assert(m * p <= 0xffff_ffff_ffff_ffffu64) by (nonlinear_arith)
                    requires
                        m < 16777216,
                        p < pow2(19),
                        pow2(19) == 524288,
                ;
                assert(mag == (m * p) * k) by (nonlinear_arith)
                    requires
                        mag == m * pow2((e - 1) as nat),
                        pow2((e - 1) as nat) == p * k,
                ;
                lemma_div_by_multiple((m * p) as int, k as int);
                assert(mag > max_rgb9e5_units() <==> m * p > MAX_FIXED) by (nonlinear_arith)
                    requires
                        mag == (m * p) * k,
                        max_rgb9e5_units() == (MAX_FIXED as nat) * k,
                        k > 0,
                ;
            }
            let t = m * p;
            if t > MAX_FIXED {
                MAX_FIXED
            } else {
                t
            }
        } else {
            proof {
                lemma_pow2_adds((e - 1) as nat, (124 - e) as nat);
                assert((e - 1) as nat + (124 - e) as nat == 123);
                lemma_pow2_strictly_increases((e - 1) as nat, 123);
                lemma_pow2_adds(24, 123);
                lemma_pow2_strictly_increases(123, 156);
                assert(mag < max_rgb9e5_units()) by (nonlinear_arith)
                    requires
                        mag == m * pow2((e - 1) as nat),
                        m < pow2(24),
                        pow2((e - 1) as nat) < k,
                        pow2(156) == pow2(33) * k,
                        pow2(33) == 8589934592,
                        pow2(24) == 16777216,
                        k > 0,
                ;
            }
            if e >= 100 {
                let d = pow2_u64((124 - e) as u64);
                proof {
                    let c = pow2((e - 1) as nat);
                    lemma_pow2_pos((e - 1) as nat);
                    lemma_div_by_multiple(m as int, c as int);
                    assert(mag == m * c);
                    assert(m * c == c * m) by (nonlinear_arith);
                    lemma_div_denominator(mag as int, c as int, d as int);
                }
                m / d
            } else {
                proof {
                    lemma_pow2_strictly_increases((e - 1) as nat, 99);
                    lemma_pow2_adds(24, 99);
                    assert(mag < k) by (nonlinear_arith)
                        requires
                            mag == m * pow2((e - 1) as nat),
                            m < pow2(24),
                            pow2((e - 1) as nat) < pow2(99),
                            pow2(24 + 99) == pow2(24) * pow2(99),
                            k == pow2(123),
                            pow2(24) == 16777216,
                    ;
                    lemma_div_bounds(mag, k, 1);
                }
                0
            }
        }
    }
}

fn round_fixed(t: u64, e: u64) -> (m: u64)
    requires
        t <= MAX_FIXED,
        e <= 32,
    ensures
        m as nat == (t + pow2(e as nat + 1)) as nat / pow2(e as nat + 2),
{
    proof {
        lemma2_to64();
        lemma2_to64_rest();
        lemma_pow2_strictly_increases(e as nat + 1, 34);
    }
    (t + pow2_u64(e + 1)) / pow2_u64(e + 2)
}

/// `e0` is the least exponent in `0 ..= 31` with `mx < 2^(e0 + 11)`.
fn provisional_exponent_fixed(mx: u64) -> (e0: u64)
    requires
        mx <= MAX_FIXED,
    ensures
        e0 <= 31,
        mx < pow2(e0 as nat + 11),
        e0 > 0 ==> mx >= pow2(e0 as nat + 10),
{
    proof {
        lemma2_to64();
        lemma2_to64_rest();
    }
    let mut e0: u64 = 0;
    while e0 < 31 && mx >= pow2_u64(e0 + 11)
        invariant
            e0 <= 31,
            mx <= MAX_FIXED,
            e0 > 0 ==> mx >= pow2(e0 as nat + 10),
        decreases 31 - e0,
    {
        e0 = e0 + 1;
    }
    e0
}

proof fn lemma_provisional_exponent(v: nat, e0: nat)
    requires
        e0 <= 31,
        v / pow2(123) < pow2(e0 + 11),
        e0 > 0 ==> v / pow2(123) >= pow2(e0 + 10),
    ensures
        provisional_exponent(v) == e0,
{
    let k = pow2(123);
    lemma_pow2_pos(123);
    lemma_div_bounds(v, k, pow2(e0 + 11));
    lemma_pow2_adds(e0 + 11, 123);
    assert(e0 + 11 + 123 == e0 + 134);
    if e0 > 0 {
        lemma_div_bounds(v, k, pow2(e0 + 10));
        lemma_pow2_adds(e0 + 10, 123);
        assert(e0 + 10 + 123 == e0 + 133);
        lemma_pow2_unfold(e0 + 134);
        lemma_floor_log2_between(v, e0 + 133);
        if e0 + 133 > 134 {
            lemma_pow2_strictly_increases(134, e0 + 133);
        }
    }
}

/// Bounds on the mantissa of the largest channel at the provisional exponent
/// and, where that overflows, at the next one.
proof fn lemma_mantissa_bounds(mx: nat, e0: nat)
    requires
        e0 <= 31,
        mx <= MAX_FIXED,
        mx < pow2(e0 + 11),
    ensures
        (mx + pow2(e0 + 1)) / pow2(e0 + 2) <= 512,
        e0 == 31 ==> (mx + pow2(e0 + 1)) / pow2(e0 + 2) <= 511,
        (mx + pow2(e0 + 2)) / pow2(e0 + 3) <= 256,
{
    let p = pow2(e0 + 1);
    lemma2_to64();
    lemma2_to64_rest();
    lemma_pow2_adds(e0 + 1, 10);
    lemma_pow2_adds(e0 + 1, 1);
    lemma_pow2_adds(e0 + 1, 2);
    assert(e0 + 1 + 10 == e0 + 11);
    assert(e0 + 1 + 1 == e0 + 2);
    assert(e0 + 1 + 2 == e0 + 3);
    lemma_pow2_pos(e0 + 1);
    lemma_div_bounds((mx + p) as nat, 2 * p, 513);
    assert(mx + p < 513 * (2 * p)) by (nonlinear_arith)
        requires
            mx < pow2(e0 + 11),
            pow2(e0 + 11) == p * 1024,
            p > 0,
    ;
    if e0 == 31 {
        lemma_div_bounds((mx + p) as nat, 2 * p, 512);
    }
    lemma_div_bounds((mx + 2 * p) as nat, 4 * p, 257);
    assert(mx + 2 * p < 257 * (4 * p)) by (nonlinear_arith)
        requires
            mx < pow2(e0 + 11),
            pow2(e0 + 11) == p * 1024,
            p > 0,
    ;
}

/// Packs three channels, given as binary32 bit patterns, into one RGB9E5
/// word. Each channel is clamped to `[0, max]` first; the shared exponent is
/// the one of the largest channel, raised by one where its mantissa would
/// round up to `2^9`; mantissas are rounded half up.
pub fn float3_to_rgb9e5(rgb: &[u32]) -> (r: u32)
    requires
        rgb@.len() >= 3,
    ensures
        r == rgb9e5_of(rgb@[0], rgb@[1], rgb@[2]),
{
    let tr = channel_fixed(rgb[0]);
    let tg = channel_fixed(rgb[1]);
    let tb = channel_fixed(rgb[2]);
    let ghost vr = clamped_channel(rgb@[0]);
    let ghost vg = clamped_channel(rgb@[1]);
    let ghost vb = clamped_channel(rgb@[2]);
    let ghost vmax = max3(vr, vg, vb);
    let mx = if tr >= tg && tr >= tb {
        tr
    } else if tg >= tb {
        tg
    } else {
        tb
    };
    proof {
        let k = pow2(123);
        lemma_pow2_pos(123);
        lemma_div_is_ordered(vr as int, vmax as int, k as int);
        lemma_div_is_ordered(vg as int, vmax as int, k as int);
        lemma_div_is_ordered(vb as int, vmax as int, k as int);
        assert(mx == vmax / k);
    }
    let e0 = provisional_exponent_fixed(mx);
    proof {
        lemma_provisional_exponent(vmax, e0 as nat);
        lemma_rounding_on_fixed(vmax, e0 as nat);
        lemma_mantissa_bounds(mx as nat, e0 as nat);
    }
    let m0 = round_fixed(mx, e0);
    let e = if m0 == 512 {
        e0 + 1
    } else {
        e0
    };
    proof {
        assert(e == shared_exponent(vmax));
        assert(e0 as nat + 1 + 1 == e0 as nat + 2);
        assert(e0 as nat + 1 + 2 == e0 as nat + 3);
        assert((mx + pow2(e as nat + 1)) as nat / pow2(e as nat + 2) <= 511);
        let c = pow2(e as nat + 1);
        let d = pow2(e as nat + 2);
        lemma_pow2_pos(e as nat + 2);
        lemma_div_is_ordered((tr + c) as int, (mx + c) as int, d as int);
        lemma_div_is_ordered((tg + c) as int, (mx + c) as int, d as int);
        lemma_div_is_ordered((tb + c) as int, (mx + c) as int, d as int);
        lemma_rounding_on_fixed(vr, e as nat);
        lemma_rounding_on_fixed(vg, e as nat);
        lemma_rounding_on_fixed(vb, e as nat);
    }
    let rm = round_fixed(tr, e);
    let gm = round_fixed(tg, e);
    let bm = round_fixed(tb, e);
    proof {
        lemma2_to64();
    }
    (e as u32) * 134217728 + (bm as u32) * 262144 + (gm as u32) * 512 + (rm as u32)
}

/// Binary32 pattern of `m * 2^(e - 24)`: positive, normal and exact for every
/// mantissa and exponent field value.
fn scaled_to_f32_bits(m: u32, e: u32) -> (r: u32)
    requires
        m < 512,
        e < 32,
    ensures
        is_f32_of_value(r, (m * pow2(e as nat + 125)) as nat),
{
    if m == 0 {
        proof {
            lemma2_to64();
            assert(f32_frac(0) == 0);
            assert(f32_exp(0) == 0);
        }
        return 0;
    }
    let mut p: u32 = 0;
    proof {
        lemma2_to64();
    }
    while p < 8 && m >= (2u32 << p)
        invariant
            p <= 8,
            0 < m < 512,
            pow2(p as nat) <= m,
        decreases 8 - p,
    {
        proof {
            lemma_u32_shl_is_mul(2, p);
            lemma_pow2_unfold(p as nat + 1);
        }
        p = p + 1;
    }
    proof {
        lemma2_to64();
        lemma_u32_shl_is_mul(2, p);
        lemma_pow2_unfold(p as nat + 1);
        lemma_pow2_strictly_increases(p as nat, 9);
        lemma_u32_shl_is_mul(1, p);
    }
    assert(m < pow2(p as nat + 1)) by {
        if p == 8 {
            assert(pow2(9) == 512);
        }
    }
    let low = m - (1u32 << p);
    let shift = 23 - p;
    proof {
        lemma_u32_shl_is_mul(1, p);
        lemma_pow2_adds(p as nat, shift as nat);
        assert(low < pow2(p as nat)) by {
            lemma_pow2_unfold(p as nat + 1);
        }
        assert(low * pow2(shift as nat) < pow2(23)) by (nonlinear_arith)
            requires
                low < pow2(p as nat),
                pow2(p as nat) * pow2(shift as nat) == pow2(23),
                pow2(shift as nat) > 0,
        ;
        lemma_u32_shl_is_mul(low, shift);
    }
    let frac = low << shift;
    let biased = p + e + 103;
    let r = biased * 8388608 + frac;
    proof {
        let b = biased as nat;
        let fr = frac as nat;
        assert(pow2(23) == 8388608);
        assert(r as nat / pow2(23) == b) by (nonlinear_arith)
            requires
                r == b * 8388608 + fr,
                fr < 8388608,
                pow2(23) == 8388608,
        ;
        assert(r as nat % pow2(23) == fr) by (nonlinear_arith)
            requires
                r == b * 8388608 + fr,
                fr < 8388608,
                pow2(23) == 8388608,
        ;
        assert(f32_exp(r) == b);
        assert(f32_frac(r) == fr);
        // (frac + 2^23) * 2^(b - 1) == m * 2^shift * 2^(p + e + 102)
        lemma_pow2_adds(shift as nat, (p + e + 102) as nat);
        assert(shift as nat + (p + e + 102) as nat == e as nat + 125);
        assert(fr + pow2(23) == m * pow2(shift as nat)) by (nonlinear_arith)
            requires
                fr == low * pow2(shift as nat),
                low == m - pow2(p as nat),
                pow2(p as nat) * pow2(shift as nat) == pow2(23),
        ;
        assert((m * pow2(shift as nat)) * pow2((p + e + 102) as nat) == m * pow2(e as nat + 125))
            by (nonlinear_arith)
            requires
                pow2(shift as nat) * pow2((p + e + 102) as nat) == pow2(e as nat + 125),
        ;
    }
    r
}

/// Unpacks a word into the binary32 patterns of its three channels, each
/// `mantissa * 2^(exponent - 15 - 9)`.
pub fn rgb9e5_to_float3(v: u32) -> (r: [u32; 3])
    ensures
        forall|c: int|
            0 <= c < 3 ==> is_f32_of_value(
                #[trigger] r[c],
                (mantissa_field(v, c) * pow2((exponent_field(v) + 125) as nat)) as nat,
            ),
{
    let e = bitfield_extract(v, 27, RGB9E5_EXPONENT_BITS);
    let rm = bitfield_extract(v, 0, RGB9E5_MANTISSA_BITS);
    let gm = bitfield_extract(v, 9, RGB9E5_MANTISSA_BITS);
    let bm = bitfield_extract(v, 18, RGB9E5_MANTISSA_BITS);
    proof {
        lemma2_to64();
        assert(v as nat / pow2(27) < 32) by {
            lemma_div_is_ordered(v as int, 0xffff_ffff, pow2(27) as int);
        }
        assert(pow2(0) == 1);
        assert(e == exponent_field(v));
        assert(rm == mantissa_field(v, 0));
        assert(gm == mantissa_field(v, 1));
        assert(bm == mantissa_field(v, 2));
    }
    [scaled_to_f32_bits(rm, e), scaled_to_f32_bits(gm, e), scaled_to_f32_bits(bm, e)]
}

} // verus!

verus! {

/// Bit pattern of the largest representable channel value, 65408.0.
pub const MAX_RGB9E5_BITS: u32 = 0x477F_8000;

proof fn lemma_floor_log2_bounds(v: nat)
    requires
        v >= 1,
    ensures
        pow2(floor_log2(v)) <= v < pow2(floor_log2(v) + 1),
    decreases v,
{
    lemma2_to64();
    if v >= 2 {
        lemma_floor_log2_bounds(v / 2);
        lemma_pow2_unfold(floor_log2(v));
        lemma_pow2_unfold(floor_log2(v) + 1);
    }
}

/// Shared exponent and mantissas of clamped channels fit their fields.
proof fn lemma_encode_bounds(vr: nat, vg: nat, vb: nat)
    requires
        vr <= max_rgb9e5_units(),
        vg <= max_rgb9e5_units(),
        vb <= max_rgb9e5_units(),
    ensures
        shared_exponent(max3(vr, vg, vb)) <= 31,
        rounded_mantissa(vr, shared_exponent(max3(vr, vg, vb))) <= 511,
        rounded_mantissa(vg, shared_exponent(max3(vr, vg, vb))) <= 511,
        rounded_mantissa(vb, shared_exponent(max3(vr, vg, vb))) <= 511,
        rounded_mantissa(max3(vr, vg, vb), provisional_exponent(max3(vr, vg, vb))) <= 512,
{
    let v = max3(vr, vg, vb);
    let k = pow2(123);
    let e0 = provisional_exponent(v);
    lemma2_to64();
    lemma2_to64_rest();
    lemma_pow2_pos(123);
    lemma_pow2_adds(33, 123);
    assert(max_rgb9e5_units() == (MAX_FIXED as nat) * k) by (nonlinear_arith)
        requires
            pow2(33 + 123) == pow2(33) * pow2(123),
            pow2(33) == 8589934592,
            k == pow2(123),
    ;
    lemma_div_is_ordered(v as int, max_rgb9e5_units() as int, k as int);
    lemma_div_by_multiple(MAX_FIXED as int, k as int);
    let mx = v / k;
    if v < pow2(134) {
        lemma_pow2_adds(11, 123);
        lemma_div_bounds(v, k, pow2(11));
    } else {
        lemma_pow2_strictly_increases(0, 134);
        lemma_floor_log2_bounds(v);
        let f = floor_log2(v);
        if f < 134 {
            lemma_pow2_strictly_increases(f + 1, 134);
        }
        lemma_pow2_adds(9, 156);
        lemma_pow2_pos(156);
        if f >= 165 {
            if f > 165 {
                lemma_pow2_strictly_increases(165, f);
            }
            assert(pow2(165) > max_rgb9e5_units()) by (nonlinear_arith)
                requires
                    pow2(9 + 156) == pow2(9) * pow2(156),
                    pow2(9) == 512,
                    pow2(156) > 0,
            ;
        }
        assert(e0 <= 31);
        lemma_pow2_adds(e0 + 11, 123);
        assert(e0 + 11 + 123 == f + 1);
        lemma_div_bounds(v, k, pow2(e0 + 11));
    }
    lemma_mantissa_bounds(mx, e0);
    lemma_rounding_on_fixed(v, e0);
    let e = shared_exponent(v);
    assert(e0 + 1 + 1 == e0 + 2);
    assert(e0 + 1 + 2 == e0 + 3);
    lemma_rounding_on_fixed(v, e);
    let c = pow2(e + 124);
    let d = pow2(e + 125);
    lemma_pow2_pos(e + 125);
    lemma_div_is_ordered((vr + c) as int, (v + c) as int, d as int);
    lemma_div_is_ordered((vg + c) as int, (v + c) as int, d as int);
    lemma_div_is_ordered((vb + c) as int, (v + c) as int, d as int);
}

proof fn lemma_unpack(r: nat, g: nat, b: nat, e: nat, w: u32)
    requires
        r < 512,
        g < 512,
        b < 512,
        e < 32,
        w == pack(r, g, b, e),
    ensures
        mantissa_field(w, 0) == r,
        mantissa_field(w, 1) == g,
        mantissa_field(w, 2) == b,
        exponent_field(w) == e,
{
    lemma2_to64();
    let x1 = e * 262144 + b * 512 + g;
    let x2 = e * 512 + b;
    assert(w == 512 * x1 + r);
    assert(x1 == 512 * x2 + g);
    assert(w == 262144 * x2 + (g * 512 + r));
    assert(w == 134217728 * e + (b * 262144 + g * 512 + r));
    lemma_div_multiples_vanish_fancy(x1 as int, r as int, 512);
    lemma_div_multiples_vanish_fancy(x2 as int, (g * 512 + r) as int, 262144);
    lemma_div_multiples_vanish_fancy(e as int, (b * 262144 + g * 512 + r) as int, 134217728);
    lemma_mod_multiples_vanish(x1 as int, r as int, 512);
    lemma_mod_multiples_vanish(x2 as int, g as int, 512);
    lemma_mod_multiples_vanish(e as int, b as int, 512);
    lemma_small_mod(r, 512);
    lemma_small_mod(g, 512);
    lemma_small_mod(b, 512);
    assert(pow2(0) == 1);
    assert(w as nat / pow2(0) == w as nat);
    assert((512 * x1 + r) % 512 == r % 512);
}

proof fn lemma_rounding_error(v: nat, e: nat)
    ensures
        rounded_mantissa(v, e) * pow2(e + 125) <= v + pow2(e + 124),
        v < rounded_mantissa(v, e) * pow2(e + 125) + pow2(e + 124),
{
    let h = pow2(e + 124);
    let d = pow2(e + 125);
    lemma_pow2_unfold(e + 125);
    lemma_pow2_pos(e + 124);
    lemma_fundamental_div_mod((v + h) as int, d as int);
    lemma_mod_pos_bound((v + h) as int, d as int);
    let m = (v + h) / d;
    assert(m * d == d * m) by (nonlinear_arith);
}

/// The fields of the word that three channels encode to.
pub proof fn lemma_encode_fields(r: u32, g: u32, b: u32, w: u32)
    requires
        w == rgb9e5_of(r, g, b),
    ensures
        ({
            let (vr, vg, vb) = (clamped_channel(r), clamped_channel(g), clamped_channel(b));
            let e = shared_exponent(max3(vr, vg, vb));
            &&& exponent_field(w) == e
            &&& e <= 31
            &&& mantissa_field(w, 0) == rounded_mantissa(vr, e)
            &&& mantissa_field(w, 1) == rounded_mantissa(vg, e)
            &&& mantissa_field(w, 2) == rounded_mantissa(vb, e)
        }),
{
    let vr = clamped_channel(r);
    let vg = clamped_channel(g);
    let vb = clamped_channel(b);
    lemma_encode_bounds(vr, vg, vb);
    let e = shared_exponent(max3(vr, vg, vb));
    lemma_unpack(
        rounded_mantissa(vr, e),
        rounded_mantissa(vg, e),
        rounded_mantissa(vb, e),
        e,
        w,
    );
}

proof fn lemma_provisional_monotone(v1: nat, v2: nat)
    requires
        v1 <= v2,
    ensures
        provisional_exponent(v1) <= provisional_exponent(v2),
{
    if v1 >= pow2(134) {
        lemma_pow2_pos(134);
        lemma_floor_log2_bounds(v1);
        lemma_floor_log2_bounds(v2);
        if floor_log2(v1) >= floor_log2(v2) + 1 {
            if floor_log2(v1) > floor_log2(v2) + 1 {
                lemma_pow2_strictly_increases(floor_log2(v2) + 1, floor_log2(v1));
            }
            assert(false);
        }
        assert(floor_log2(v1) <= floor_log2(v2));
        if floor_log2(v1) < 134 {
            if floor_log2(v1) + 1 < 134 {
                lemma_pow2_strictly_increases(floor_log2(v1) + 1, 134);
            }
            assert(false);
        }
    }
}

/// The shared exponent never decreases as the largest clamped channel
/// grows; black encodes to the all-zero word.
pub proof fn lemma_exponent_monotone(
    r1: u32,
    g1: u32,
    b1: u32,
    w1: u32,
    r2: u32,
    g2: u32,
    b2: u32,
    w2: u32,
)
    requires
        w1 == rgb9e5_of(r1, g1, b1),
        w2 == rgb9e5_of(r2, g2, b2),
        max3(clamped_channel(r1), clamped_channel(g1), clamped_channel(b1)) <= max3(
            clamped_channel(r2),
            clamped_channel(g2),
            clamped_channel(b2),
        ),
    ensures
        exponent_field(w1) <= exponent_field(w2),
        rgb9e5_of(0, 0, 0) == 0,
{
    let v1 = max3(clamped_channel(r1), clamped_channel(g1), clamped_channel(b1));
    let v2 = max3(clamped_channel(r2), clamped_channel(g2), clamped_channel(b2));
    lemma_encode_fields(r1, g1, b1, w1);
    lemma_encode_fields(r2, g2, b2, w2);
    lemma_encode_bounds(v2, v2, v2);
    lemma_provisional_monotone(v1, v2);
    let e1 = provisional_exponent(v1);
    let e2 = provisional_exponent(v2);
    if e1 == e2 {
        lemma_pow2_pos(e1 + 125);
        lemma_div_is_ordered(
            (v1 + pow2(e1 + 124)) as int,
            (v2 + pow2(e1 + 124)) as int,
            pow2(e1 + 125) as int,
        );
    }
    // black
    lemma2_to64();
    assert(f32_exp(0) == 0);
    assert(f32_frac(0) == 0);
    assert(clamped_channel(0) == 0);
    lemma_pow2_pos(134);
    assert(provisional_exponent(0) == 0);
    lemma_pow2_unfold(125);
    lemma_pow2_pos(124);
    lemma_div_bounds(pow2(124), pow2(125), 1);
    assert(rounded_mantissa(0, 0) == 0);
}

/// Where the largest clamped channel rounds to a mantissa of `2^9` at the
/// provisional exponent, the word holds that exponent plus one, and every
/// mantissa is rounded at the doubled step.
pub proof fn lemma_mantissa_overflow(r: u32, g: u32, b: u32, w: u32)
    requires
        w == rgb9e5_of(r, g, b),
        rounded_mantissa(
            max3(clamped_channel(r), clamped_channel(g), clamped_channel(b)),
            provisional_exponent(max3(clamped_channel(r), clamped_channel(g), clamped_channel(b))),
        ) == 512,
    ensures
        ({
            let e0 = provisional_exponent(
                max3(clamped_channel(r), clamped_channel(g), clamped_channel(b)),
            );
            &&& exponent_field(w) == e0 + 1
            &&& mantissa_field(w, 0) == rounded_mantissa(clamped_channel(r), e0 + 1)
            &&& mantissa_field(w, 1) == rounded_mantissa(clamped_channel(g), e0 + 1)
            &&& mantissa_field(w, 2) == rounded_mantissa(clamped_channel(b), e0 + 1)
        }),
{
    lemma_encode_fields(r, g, b, w);
}

/// Decoding the word that a colour encodes to gives back every channel
/// within one unit in the last mantissa place of the exponent the word holds
/// (in fact within half of one), for channels in `[0, max)`.
pub proof fn lemma_round_trip(r: u32, g: u32, b: u32, w: u32)
    requires
        is_f32_of_value(r, f32_magnitude(r)),
        is_f32_of_value(g, f32_magnitude(g)),
        is_f32_of_value(b, f32_magnitude(b)),
        f32_magnitude(r) < max_rgb9e5_units(),
        f32_magnitude(g) < max_rgb9e5_units(),
        f32_magnitude(b) < max_rgb9e5_units(),
        w == rgb9e5_of(r, g, b),
    ensures
        forall|c: int, x: u32|
            #![trigger mantissa_field(w, c), f32_magnitude(x)]
            (c == 0 && x == r || c == 1 && x == g || c == 2 && x == b) ==> {
                let unit = pow2((exponent_field(w) + 125) as nat);
                let back = mantissa_field(w, c) * unit;
                back <= f32_magnitude(x) + unit / 2 && f32_magnitude(x) < back + unit / 2
                    && back <= f32_magnitude(x) + unit && f32_magnitude(x) <= back + unit
            },
{
    let vr = f32_magnitude(r);
    let vg = f32_magnitude(g);
    let vb = f32_magnitude(b);
    assert(clamped_channel(r) == vr);
    assert(clamped_channel(g) == vg);
    assert(clamped_channel(b) == vb);
    lemma_encode_bounds(vr, vg, vb);
    let e = shared_exponent(max3(vr, vg, vb));
    lemma_unpack(
        rounded_mantissa(vr, e),
        rounded_mantissa(vg, e),
        rounded_mantissa(vb, e),
        e,
        w,
    );
    lemma_rounding_error(vr, e);
    lemma_rounding_error(vg, e);
    lemma_rounding_error(vb, e);
    lemma_pow2_unfold(e + 125);
}

/// Negative channels (and NaN) encode as zero does; channels above the
/// maximum, infinity included, encode as the maximum does.
pub proof fn lemma_clamping(x: u32, y: u32, z: u32)
    ensures
        f32_sign(x) ==> rgb9e5_of(x, y, z) == rgb9e5_of(0, y, z) && rgb9e5_of(y, x, z)
            == rgb9e5_of(y, 0, z) && rgb9e5_of(y, z, x) == rgb9e5_of(y, z, 0),
        !f32_sign(x) && !f32_is_nan(x) && (f32_is_inf(x) || f32_magnitude(x) > max_rgb9e5_units())
            ==> rgb9e5_of(x, y, z) == rgb9e5_of(MAX_RGB9E5_BITS, y, z) && rgb9e5_of(y, x, z)
            == rgb9e5_of(y, MAX_RGB9E5_BITS, z) && rgb9e5_of(y, z, x) == rgb9e5_of(
            y,
            z,
            MAX_RGB9E5_BITS,
        ),
{
    lemma2_to64();
    assert(f32_exp(0) == 0);
    assert(f32_frac(0) == 0);
    assert(clamped_channel(0) == 0);
    let m = MAX_RGB9E5_BITS;
    assert(m as nat / pow2(23) == 142);
    assert(f32_exp(m) == 142);
    assert(f32_frac(m) == 0x7F8000);
    lemma_pow2_adds(15, 141);
    assert(f32_magnitude(m) == max_rgb9e5_units()) by (nonlinear_arith)
        requires
            f32_magnitude(m) == (0x7F8000 + pow2(23)) * pow2(141),
            pow2(23) == 8388608,
            pow2(15 + 141) == pow2(15) * pow2(141),
            pow2(15) == 32768,
            max_rgb9e5_units() == 511 * pow2(156),
    ;
    assert(clamped_channel(m) == max_rgb9e5_units());
}

} // verus!
