//! Small helpers behind the UI's visual effects: a fast xorshift generator,
//! picks from a character set or a range, a deterministic 64-bit mix that
//! seeds stable per-item shuffles, and the clock readings used on the
//! server-rendered side.

use vstd::prelude::*;

use crate::text::{fmt_pad2, push_str, str_chars, string_from_chars};

verus! {

/// The generator's starting state (never zero, so the sequence never dies).
pub const RNG_SEED: u64 = 0x2545_F491_4F6C_DD1D;

/// One xorshift step: `x ^= x << 13; x ^= x >> 7; x ^= x << 17`.
pub open spec fn xorshift(x: u64) -> u64 {
    let a = x ^ ((x << 13u64) as u64);
    let b = a ^ (a >> 7u64);
    b ^ ((b << 17u64) as u64)
}

/// Advance the generator state and return the new state as the number drawn.
pub fn rand_u64(state: &mut u64) -> (r: u64)
    ensures
        r == xorshift(*old(state)),
        *final(state) == r,
{
    let mut x = *state;
    x ^= x << 13u64;
    x ^= x >> 7u64;
    x ^= x << 17u64;
    *state = x;
    x
}

/// A non-zero state stays non-zero: the generator never gets stuck at zero.
pub proof fn law_xorshift_nonzero(x: u64)
    requires
        x != 0,
    ensures
        xorshift(x) != 0,
{
    assert(x != 0 ==> (x ^ ((x << 13u64) as u64)) != 0) by (bit_vector);
    let a = x ^ ((x << 13u64) as u64);
    assert(a != 0 ==> (a ^ (a >> 7u64)) != 0) by (bit_vector);
    let b = a ^ (a >> 7u64);
    assert(b != 0 ==> (b ^ ((b << 17u64) as u64)) != 0) by (bit_vector);
}

/// A pseudo-random character of `charset`: the next number drawn, modulo
/// the number of characters, picks the character.
pub fn rand_char(state: &mut u64, charset: &str) -> (r: char)
    requires
        charset@.len() > 0,
    ensures
        *final(state) == xorshift(*old(state)),
        r == charset@[(*final(state) as usize) as int % (charset@.len() as int)],
        charset@.contains(r),
{
    let chars = str_chars(charset);
    let n = rand_u64(state);
    let i = (n as usize) % chars.len();
    chars[i]
}

/// A pseudo-random index below `n` (0 when `n` is 0, drawing nothing).
pub fn rand_index(state: &mut u64, n: usize) -> (r: usize)
    ensures
        n == 0 ==> r == 0 && *final(state) == *old(state),
        n > 0 ==> *final(state) == xorshift(*old(state)) && r as int == *final(state) as int % (
        n as int) && r < n,
{
    if n == 0 {
        0
    } else {
        let x = rand_u64(state);
        (x % (n as u64)) as usize
    }
}

/// The deterministic 64-bit mix used to seed stable per-item shuffles.
pub open spec fn hash2_spec(a: u64, b: u64) -> u64 {
    let x0 = a.wrapping_mul(0x9E37_79B9_7F4A_7C15) ^ b.wrapping_add(0x632B_E59B_D9B4_E019);
    let x1 = x0 ^ (x0 >> 30u64);
    let x2 = x1.wrapping_mul(0xBF58_476D_1CE4_E5B9);
    let x3 = x2 ^ (x2 >> 27u64);
    let x4 = x3.wrapping_mul(0x94D0_49BB_1331_11EB);
    x4 ^ (x4 >> 31u64)
}

pub fn hash2(a: u64, b: u64) -> (r: u64)
    ensures
        r == hash2_spec(a, b),
{
    let mut x = a.wrapping_mul(0x9E37_79B9_7F4A_7C15) ^ b.wrapping_add(0x632B_E59B_D9B4_E019);
    x ^= x >> 30u64;
    x = x.wrapping_mul(0xBF58_476D_1CE4_E5B9);
    x ^= x >> 27u64;
    x = x.wrapping_mul(0x94D0_49BB_1331_11EB);
    x ^= x >> 31u64;
    x
}

/// 2^64, the modulus of `u64` arithmetic.
pub open spec fn word() -> int {
    0x1_0000_0000_0000_0000
}

/// Multiplying by `kinv` undoes a wrapping multiplication by `k` when the two
/// are inverse modulo 2^64.
proof fn lemma_mul_undo(x: u64, k: u64, kinv: u64)
    requires
        (k as int * kinv as int) % word() == 1,
    ensures
        (x.wrapping_mul(k) as int * kinv as int) % word() == x as int,
{
    let m = word();
    let p = x as int * k as int;
    assert(x.wrapping_mul(k) as int == p % m);
    vstd::arithmetic::div_mod::lemma_mul_mod_noop_left(p, kinv as int, m);
    vstd::arithmetic::mul::lemma_mul_is_associative(x as int, k as int, kinv as int);
    vstd::arithmetic::div_mod::lemma_mul_mod_noop_right(x as int, k as int * kinv as int, m);
    vstd::arithmetic::div_mod::lemma_small_mod(x as nat, m as nat);
}

/// A wrapping multiplication by an odd constant of the mix loses nothing.
proof fn lemma_mul_injective(x: u64, y: u64, k: u64, kinv: u64)
    requires
        (k as int * kinv as int) % word() == 1,
        x.wrapping_mul(k) == y.wrapping_mul(k),
    ensures
        x == y,
{
    lemma_mul_undo(x, k, kinv);
    lemma_mul_undo(y, k, kinv);
}

/// `x ^ (x >> s)` loses nothing for the shifts the mix uses.
proof fn lemma_xorshift_right_injective(x: u64, y: u64)
    ensures
        (x ^ (x >> 30u64)) == (y ^ (y >> 30u64)) ==> x == y,
        (x ^ (x >> 27u64)) == (y ^ (y >> 27u64)) ==> x == y,
        (x ^ (x >> 31u64)) == (y ^ (y >> 31u64)) ==> x == y,
{
    assert((x ^ (x >> 30u64)) == (y ^ (y >> 30u64)) ==> x == y) by (bit_vector);
    assert((x ^ (x >> 27u64)) == (y ^ (y >> 27u64)) ==> x == y) by (bit_vector);
    assert((x ^ (x >> 31u64)) == (y ^ (y >> 31u64)) ==> x == y) by (bit_vector);
}

/// Everything after the first line of the mix loses nothing.
proof fn lemma_finish_injective(x0: u64, y0: u64)
    ensures
        ({
            let x1 = x0 ^ (x0 >> 30u64);
            let x2 = x1.wrapping_mul(0xBF58_476D_1CE4_E5B9);
            let x3 = x2 ^ (x2 >> 27u64);
            let x4 = x3.wrapping_mul(0x94D0_49BB_1331_11EB);
            x4 ^ (x4 >> 31u64)
        }) == ({
            let y1 = y0 ^ (y0 >> 30u64);
            let y2 = y1.wrapping_mul(0xBF58_476D_1CE4_E5B9);
            let y3 = y2 ^ (y2 >> 27u64);
            let y4 = y3.wrapping_mul(0x94D0_49BB_1331_11EB);
            y4 ^ (y4 >> 31u64)
        }) ==> x0 == y0,
{
    let x1 = x0 ^ (x0 >> 30u64);
    let x2 = x1.wrapping_mul(0xBF58_476D_1CE4_E5B9);
    let x3 = x2 ^ (x2 >> 27u64);
    let x4 = x3.wrapping_mul(0x94D0_49BB_1331_11EB);
    let y1 = y0 ^ (y0 >> 30u64);
    let y2 = y1.wrapping_mul(0xBF58_476D_1CE4_E5B9);
    let y3 = y2 ^ (y2 >> 27u64);
    let y4 = y3.wrapping_mul(0x94D0_49BB_1331_11EB);
    if (x4 ^ (x4 >> 31u64)) == (y4 ^ (y4 >> 31u64)) {
        assert((0xBF58_476D_1CE4_E5B9u64 as int * 0x96DE_1B17_3F11_9089u64 as int) % word() == 1);
        assert((0x94D0_49BB_1331_11EBu64 as int * 0x3196_42B2_D24D_8EC3u64 as int) % word() == 1);
        lemma_xorshift_right_injective(x4, y4);
        lemma_mul_injective(x3, y3, 0x94D0_49BB_1331_11EB, 0x3196_42B2_D24D_8EC3);
        lemma_xorshift_right_injective(x2, y2);
        lemma_mul_injective(x1, y1, 0xBF58_476D_1CE4_E5B9, 0x96DE_1B17_3F11_9089);
        lemma_xorshift_right_injective(x0, y0);
    }
}

/// The mix is injective in each argument: with the other one fixed, two
/// different inputs never give the same key, so per-item shuffle keys never
/// collide.
pub proof fn law_hash2_injective(a: u64, b: u64, a2: u64, b2: u64)
    ensures
        hash2_spec(a, b) == hash2_spec(a, b2) ==> b == b2,
        hash2_spec(a, b) == hash2_spec(a2, b) ==> a == a2,
{
    let k: u64 = 0x9E37_79B9_7F4A_7C15;
    let c: u64 = 0x632B_E59B_D9B4_E019;
    let x0 = a.wrapping_mul(k) ^ b.wrapping_add(c);
    let y0 = a.wrapping_mul(k) ^ b2.wrapping_add(c);
    let z0 = a2.wrapping_mul(k) ^ b.wrapping_add(c);
    lemma_finish_injective(x0, y0);
    lemma_finish_injective(x0, z0);
    let (p, q, r) = (a.wrapping_mul(k), b.wrapping_add(c), b2.wrapping_add(c));
    assert((p ^ q) == (p ^ r) ==> q == r) by (bit_vector);
    let (p2, q2) = (a2.wrapping_mul(k), b.wrapping_add(c));
    assert((p ^ q2) == (p2 ^ q2) ==> p == p2) by (bit_vector);
    if hash2_spec(a, b) == hash2_spec(a2, b) {
        assert((k as int * 0xF1DE_83E1_9937_733Du64 as int) % word() == 1);
        lemma_mul_injective(a, a2, k, 0xF1DE_83E1_9937_733D);
    }
}

/// Wall-clock time as `HH:MM:SS`, each field two digits.
pub open spec fn hms_spec(h: u64, m: u64, s: u64) -> Seq<char> {
    crate::text::decimal_pad2(h as nat) + seq![':'] + crate::text::decimal_pad2(m as nat) + seq![
        ':',
    ] + crate::text::decimal_pad2(s as nat)
}

pub fn fmt_hms(h: u64, m: u64, s: u64) -> (r: String)
    ensures
        r@ == hms_spec(h, m, s),
{
    let mut out = fmt_pad2(h);
    out.push(':');
    let mm = fmt_pad2(m);
    crate::text::extend_chars(&mut out, mm.as_slice());
    out.push(':');
    let ss = fmt_pad2(s);
    crate::text::extend_chars(&mut out, ss.as_slice());
    string_from_chars(out.as_slice())
}

/// The time shown where no browser clock exists (server-side rendering).
pub fn now_hms() -> (r: String)
    ensures
        r@ == "00:00:00"@,
{
    let mut out: Vec<char> = Vec::new();
    push_str(&mut out, "00:00:00");
    string_from_chars(out.as_slice())
}

/// The date used where no browser clock exists (server-side rendering):
/// `(year, month 1-12, day)`.
pub fn today_ymd() -> (r: (i32, u32, u32))
    ensures
        r == (1970i32, 1u32, 1u32),
{
    (1970, 1, 1)
}

} // verus!
