//! Per-body colours derived from a body's id and a colour seed.

use vstd::prelude::*;

verus! {

/// The 64-bit mixing function that scatters ids over the colour space.
pub open spec fn mix64_spec(x: u64) -> u64 {
    let x1 = x ^ (x >> 30u64);
    let x2 = x1.wrapping_mul(0xbf58476d1ce4e5b9u64);
    let x3 = x2 ^ (x2 >> 27u64);
    let x4 = x3.wrapping_mul(0x94d049bb133111ebu64);
    x4 ^ (x4 >> 31u64)
}

/// Multiplying by `c` modulo 2^64 is undone by multiplying by `ci` when
/// `c * ci` is one more than a multiple of 2^64.
proof fn lemma_wrapping_mul_undone(x: u64, c: u64, ci: u64, q: int)
    requires
        0 <= q,
        c as int * ci as int == 1 + q * 0x1_0000_0000_0000_0000,
    ensures
        x.wrapping_mul(c).wrapping_mul(ci) == x,
{
    let m: int = 0x1_0000_0000_0000_0000;
    let y: int = (x as int * c as int) % m;
    assert(x.wrapping_mul(c) as int == y);
    vstd::arithmetic::div_mod::lemma_mul_mod_noop_left(x as int * c as int, ci as int, m);
    assert((x as int * c as int) * ci as int == m * (x as int * q) + x as int) by (nonlinear_arith)
        requires
            c as int * ci as int == 1 + q * m,
    ;
    vstd::arithmetic::div_mod::lemma_mod_multiples_vanish(x as int * q, x as int, m);
    assert(x.wrapping_mul(c).wrapping_mul(ci) as int == (y * ci as int) % m);
}

/// The inverse of `mix64_spec`: each xor-shift and each odd multiplier of the
/// mix undone in reverse order.
pub open spec fn unmix64(r: u64) -> u64 {
    let x4 = r ^ (r >> 31u64) ^ (r >> 62u64);
    let x3 = x4.wrapping_mul(0x319642b2d24d8ec3u64);
    let x2 = x3 ^ (x3 >> 27u64) ^ (x3 >> 54u64);
    let x1 = x2.wrapping_mul(0x96de1b173f119089u64);
    x1 ^ (x1 >> 30u64) ^ (x1 >> 60u64)
}

/// Unmixing a mixed value gives back the input.
proof fn lemma_unmix64(v: u64)
    ensures
        unmix64(mix64_spec(v)) == v,
{
    let x1 = v ^ (v >> 30u64);
    let x2 = x1.wrapping_mul(0xbf58476d1ce4e5b9u64);
    let x3 = x2 ^ (x2 >> 27u64);
    let x4 = x3.wrapping_mul(0x94d049bb133111ebu64);
    let r = x4 ^ (x4 >> 31u64);
    assert(r ^ (r >> 31u64) ^ (r >> 62u64) == x4) by (bit_vector)
        requires
            r == x4 ^ (x4 >> 31u64),
    ;
    lemma_wrapping_mul_undone(x3, 0x94d049bb133111ebu64, 0x319642b2d24d8ec3u64, 2077064247507883091);
    assert(x3 ^ (x3 >> 27u64) ^ (x3 >> 54u64) == x2) by (bit_vector)
        requires
            x3 == x2 ^ (x2 >> 27u64),
    ;
    lemma_wrapping_mul_undone(x1, 0xbf58476d1ce4e5b9u64, 0x96de1b173f119089u64, 8125545580553827436);
    assert(x1 ^ (x1 >> 30u64) ^ (x1 >> 60u64) == v) by (bit_vector)
        requires
            x1 == v ^ (v >> 30u64),
    ;
}

/// Mixing loses nothing: distinct inputs give distinct mixed values, so
/// distinct ids under one seed never share a mixed value.
pub proof fn lemma_mix64_injective(x: u64, y: u64)
    ensures
        mix64_spec(x) == mix64_spec(y) ==> x == y,
{
    lemma_unmix64(x);
    lemma_unmix64(y);
}

/// Byte `k` of `x` (0 is the lowest), halved and lifted into `96..=223`.
pub open spec fn channel(x: u64, k: u64) -> int {
    ((x >> (8 * k)) & 0xffu64) as int / 2 + 96
}

/// Mixes the bits of `x`.
pub fn mix64(x: u64) -> (r: u64)
    ensures
        r == mix64_spec(x),
{
    let mut x = x;
    x ^= x >> 30;
    x = x.wrapping_mul(0xbf58476d1ce4e5b9);
    x ^= x >> 27;
    x = x.wrapping_mul(0x94d049bb133111eb);
    x ^= x >> 31;
    x
}

/// The colour of body `id` under colour seed `seed`: red, green and blue come
/// from the three low bytes of the mixed id, each kept in `96..=223` so that
/// bodies stay visible on a dark background; alpha is opaque.
pub fn color_for_id(id: u64, seed: u64) -> (c: [u8; 4])
    ensures
        c[0] as int == channel(mix64_spec(id ^ seed), 0),
        c[1] as int == channel(mix64_spec(id ^ seed), 1),
        c[2] as int == channel(mix64_spec(id ^ seed), 2),
        c[3] == 0xff,
        forall|k: int| 0 <= k < 3 ==> 96 <= #[trigger] c[k] <= 223,
{
    let x = mix64(id ^ seed);
    let r0: u64 = (x >> 0) & 0xff;
    let g0: u64 = (x >> 8) & 0xff;
    let b0: u64 = (x >> 16) & 0xff;
    assert(r0 <= 0xff && g0 <= 0xff && b0 <= 0xff) by (bit_vector)
        requires
            r0 == (x >> 0) & 0xff,
            g0 == (x >> 8) & 0xff,
            b0 == (x >> 16) & 0xff,
    ;
    let r = r0 as u8;
    let g = g0 as u8;
    let b = b0 as u8;
    let r = r / 2 + 96;
    let g = g / 2 + 96;
    let b = b / 2 + 96;
    [r, g, b, 0xff]
}

/// A fresh colour seed, drawn at random from `1..u64::MAX`.
pub fn new_color_seed() -> (s: u64)
    ensures
        1 <= s < u64::MAX,
{
    random_u64_in(1, u64::MAX)
}

/// Calls `fastrand::u64` on the range `low..high`; fastrand's global
/// generator returns a value in that range (it panics on an empty range,
/// which the `requires` rules out). Which value comes back is left open.
#[verifier::external_body]
fn random_u64_in(low: u64, high: u64) -> (r: u64)
    requires
        low < high,
    ensures
        low <= r < high,
{
    fastrand::u64(low..high)
}

} // verus!
