//! Alignment and little-endian arithmetic, and the facts about them that the
//! rest of the crate leans on.

use vstd::arithmetic::div_mod;
use vstd::arithmetic::power2;
use vstd::prelude::*;

verus! {

/// The largest multiple of `a` that is no greater than `v`.
pub open spec fn down(v: int, a: int) -> int {
    v - v % a
}

/// The smallest multiple of `a` that is no less than `v`.
pub open spec fn up(v: int, a: int) -> int {
    down(v + a - 1, a)
}

/// `down` and `up` are what their names say: the nearest multiples of `a` on
/// either side of `v`.
pub proof fn law_nearest_multiples(v: int, a: int)
    requires
        a > 0,
    ensures
        down(v, a) % a == 0,
        down(v, a) <= v < down(v, a) + a,
        up(v, a) % a == 0,
        up(v, a) - a < v <= up(v, a),
        v % a == 0 ==> down(v, a) == v && up(v, a) == v,
{
    div_mod::lemma_mod_bound(v, a);
    div_mod::lemma_mod_bound(v + a - 1, a);
    lemma_down_is_multiple(v, a);
    lemma_down_is_multiple(v + a - 1, a);
    if v % a == 0 {
        div_mod::lemma_fundamental_div_mod(v, a);
        assert((v / a) * a == a * (v / a)) by (nonlinear_arith);
        div_mod::lemma_fundamental_div_mod_converse(v + a - 1, a, v / a, a - 1);
    }
}

proof fn lemma_down_is_multiple(v: int, a: int)
    requires
        a > 0,
    ensures
        down(v, a) % a == 0,
        down(v, a) == a * (v / a),
{
    div_mod::lemma_fundamental_div_mod(v, a);
    div_mod::lemma_mod_multiples_basic(v / a, a);
    assert((v / a) * a == a * (v / a)) by (nonlinear_arith);
}

/// A multiple of `a` above `v` is at least `up(v, a)`.
pub proof fn lemma_up_least(v: int, a: int, m: int)
    requires
        a > 0,
        m % a == 0,
        v <= m,
    ensures
        up(v, a) <= m,
{
    law_nearest_multiples(v, a);
    lemma_multiples_apart(m, up(v, a), a);
}

/// A multiple of `a` below `v` is at most `down(v, a)`.
pub proof fn lemma_down_greatest(v: int, a: int, m: int)
    requires
        a > 0,
        m % a == 0,
        m <= v,
    ensures
        m <= down(v, a),
{
    law_nearest_multiples(v, a);
    lemma_multiples_apart(down(v, a), m, a);
}

/// Two multiples of `a` that are less than `a` apart in one direction are in
/// the other order.
proof fn lemma_multiples_apart(x: int, y: int, a: int)
    requires
        a > 0,
        x % a == 0,
        y % a == 0,
        y < x + a,
    ensures
        y <= x,
{
    div_mod::lemma_fundamental_div_mod(x, a);
    div_mod::lemma_fundamental_div_mod(y, a);
    let p = x / a;
    let q = y / a;
    assert(q <= p) by (nonlinear_arith)
        requires
            a > 0,
            a * q < a * p + a,
    ;
    assert(a * q <= a * p) by (nonlinear_arith)
        requires
            a > 0,
            q <= p,
    ;
}

/// Rounding preserves order.
pub proof fn lemma_round_monotone(u: int, v: int, a: int)
    requires
        a > 0,
        u <= v,
    ensures
        down(u, a) <= down(v, a),
        up(u, a) <= up(v, a),
{
    law_nearest_multiples(u, a);
    law_nearest_multiples(v, a);
    lemma_down_greatest(v, a, down(u, a));
    lemma_up_least(u, a, up(v, a));
}

/// Shifting by a multiple of `a` commutes with rounding to `a`.
pub proof fn lemma_round_shift(v: int, s: int, a: int)
    requires
        a > 0,
        s % a == 0,
    ensures
        (v + s) % a == v % a,
        down(v + s, a) == down(v, a) + s,
        up(v + s, a) == up(v, a) + s,
{
    lemma_shift_mod(v, s, a);
    lemma_shift_mod(v + a - 1, s, a);
}

proof fn lemma_shift_mod(v: int, s: int, a: int)
    requires
        a > 0,
        s % a == 0,
    ensures
        (v + s) % a == v % a,
{
    div_mod::lemma_fundamental_div_mod(s, a);
    div_mod::lemma_mod_multiples_vanish(s / a, v, a);
}

/// Sums and differences of multiples are multiples.
pub proof fn lemma_multiples_closed(x: int, y: int, a: int)
    requires
        a > 0,
        x % a == 0,
        y % a == 0,
    ensures
        (x + y) % a == 0,
        (x - y) % a == 0,
{
    lemma_shift_mod(x, y, a);
    lemma_shift_mod(x - y, y, a);
}

/// A multiple of a multiple of `a` is a multiple of `a`.
pub proof fn lemma_multiple_of_multiple(x: int, b: int, a: int)
    requires
        a > 0,
        b > 0,
        x % b == 0,
        b % a == 0,
    ensures
        x % a == 0,
{
    div_mod::lemma_fundamental_div_mod(x, b);
    div_mod::lemma_fundamental_div_mod(b, a);
    let k = x / b;
    let m = b / a;
    assert(x == a * (m * k)) by (nonlinear_arith)
        requires
            x == b * k,
            b == a * m,
    ;
    div_mod::lemma_mod_multiples_basic(m * k, a);
    assert((m * k) * a == a * (m * k)) by (nonlinear_arith);
}

/// The smaller of two powers of two divides the larger.
pub proof fn lemma_pow2_divides(a: int, b: int)
    requires
        power2::is_pow2(a),
        power2::is_pow2(b),
        a <= b,
    ensures
        a > 0,
        b % a == 0,
    decreases b,
{
    reveal(power2::is_pow2);
    if a == b {
        div_mod::lemma_mod_multiples_basic(1, a);
    } else if a == 1 {
        div_mod::lemma_fundamental_div_mod_converse(b, 1, b, 0);
    } else {
        lemma_pow2_divides(a / 2, b / 2);
        let h = a / 2;
        let k = b / 2;
        div_mod::lemma_fundamental_div_mod(k, h);
        assert(b == a * (k / h)) by (nonlinear_arith)
            requires
                a == 2 * h,
                b == 2 * k,
                k == h * (k / h),
        ;
        div_mod::lemma_mod_multiples_basic(k / h, a);
        assert((k / h) * a == a * (k / h)) by (nonlinear_arith);
    }
}

proof fn lemma_two_to_64()
    ensures
        power2::is_pow2(0x1_0000_0000_0000_0000),
{
    power2::lemma2_to64();
    power2::lemma2_to64_rest();
    power2::lemma_pow2(64);
    assert(power2::pow2(64) == vstd::arithmetic::power::pow(2, 64));
    assert(power2::is_pow2_exists(0x1_0000_0000_0000_0000));
    power2::is_pow2_equiv(0x1_0000_0000_0000_0000);
}

/// Rounding up to a power of two stays below the top of the address space
/// exactly when the addition it is made of does.
pub proof fn law_up_fits(v: int, a: int)
    requires
        power2::is_pow2(a),
        a <= u64::MAX,
    ensures
        a > 0,
        up(v, a) <= u64::MAX <==> v + a - 1 <= u64::MAX,
{
    reveal(power2::is_pow2);
    let top: int = 0x1_0000_0000_0000_0000;
    lemma_two_to_64();
    lemma_pow2_divides(a, top);
    lemma_pow2_divides(a, a);
    law_nearest_multiples(v, a);
    if up(v, a) <= u64::MAX {
        lemma_multiples_closed(top, a, a);
        lemma_multiples_apart(top - a, up(v, a), a);
    }
}

/// Whether `x` is a power of two.
pub fn is_power_of_two(x: u64) -> (r: bool)
    ensures
        r == power2::is_pow2(x as int),
{
    proof {
        reveal(power2::is_pow2);
    }
    if x == 0 {
        return false;
    }
    let mut v: u64 = x;
    while v % 2 == 0
        invariant
            v > 0,
            power2::is_pow2(x as int) == power2::is_pow2(v as int),
        decreases v,
    {
        proof {
            reveal(power2::is_pow2);
        }
        v = v / 2;
    }
    proof {
        reveal(power2::is_pow2);
    }
    v == 1
}

/// Round `v` down to a multiple of `a`.
pub fn align_down(v: u64, a: u64) -> (r: u64)
    requires
        power2::is_pow2(a as int),
    ensures
        r == down(v as int, a as int),
{
    proof {
        reveal(power2::is_pow2);
        law_nearest_multiples(v as int, a as int);
        lemma_down_greatest(v as int, a as int, 0);
        div_mod::lemma_small_mod(0, a as nat);
    }
    v - v % a
}

/// Round `v` up to a multiple of `a`, or `None` when that does not fit.
pub fn align_up(v: u64, a: u64) -> (r: Option<u64>)
    requires
        power2::is_pow2(a as int),
    ensures
        v + a - 1 > u64::MAX ==> r == None::<u64>,
        v + a - 1 <= u64::MAX ==> (r matches Some(x) && x == up(v as int, a as int)),
{
    proof {
        reveal(power2::is_pow2);
    }
    match v.checked_add(a - 1) {
        Some(x) => Some(align_down(x, a)),
        None => None,
    }
}

/// The `n` bytes of `raw` at `off`, least significant first, as a number.
pub open spec fn le(raw: Seq<u8>, off: int, n: nat) -> nat
    decreases n,
{
    if n == 0 {
        0
    } else {
        raw[off] as nat + 256 * le(raw, off + 1, (n - 1) as nat)
    }
}

/// The 16-bit little-endian number at `off`.
pub fn u16le(b: &[u8], off: usize) -> (r: u16)
    requires
        off + 2 <= b.len(),
    ensures
        r == le(b@, off as int, 2),
{
    proof {
        reveal_with_fuel(le, 3);
    }
    (b[off] as u16) + (b[off + 1] as u16) * 256
}

/// The 32-bit little-endian number at `off`.
pub fn u32le(b: &[u8], off: usize) -> (r: u32)
    requires
        off + 4 <= b.len(),
    ensures
        r == le(b@, off as int, 4),
{
    proof {
        reveal_with_fuel(le, 5);
    }
    (b[off] as u32) + (b[off + 1] as u32) * 0x100 + (b[off + 2] as u32) * 0x1_0000
        + (b[off + 3] as u32) * 0x100_0000
}

/// The 64-bit little-endian number at `off`.
pub fn u64le(b: &[u8], off: usize) -> (r: u64)
    requires
        off + 8 <= b.len(),
    ensures
        r == le(b@, off as int, 8),
{
    proof {
        reveal_with_fuel(le, 9);
    }
    let lo: u64 = u32le(b, off) as u64;
    let hi: u64 = u32le(b, off + 4) as u64;
    lo + hi * 0x1_0000_0000
}

/// The `n` low bytes of `v`, least significant first.
pub open spec fn le_bytes(v: nat, n: nat) -> Seq<u8>
    decreases n,
{
    if n == 0 {
        seq![]
    } else {
        seq![(v % 256) as u8] + le_bytes(v / 256, (n - 1) as nat)
    }
}

/// Reading back the bytes of a number gives the number, as far as they hold it.
pub proof fn law_le_bytes_round_trip(v: nat, n: nat)
    requires
        v < power2::pow2(8 * n),
    ensures
        le_bytes(v, n).len() == n,
        le(le_bytes(v, n), 0, n) == v,
    decreases n,
{
    if n == 0 {
        power2::lemma2_to64();
    } else {
        let m = (n - 1) as nat;
        power2::lemma_pow2_adds(8, 8 * m);
        power2::lemma2_to64();
        assert(v / 256 < power2::pow2(8 * m)) by {
            div_mod::lemma_multiply_divide_lt(
                v as int,
                256,
                power2::pow2(8 * m) as int,
            );
        }
        law_le_bytes_round_trip(v / 256, m);
        let rest = le_bytes(v / 256, m);
        let all = le_bytes(v, n);
        assert(all == seq![(v % 256) as u8] + rest);
        lemma_le_shift(all, rest, 1, m);
    }
}

/// A number reads the same wherever its bytes are.
pub proof fn lemma_le_shift(a: Seq<u8>, b: Seq<u8>, off: int, n: nat)
    requires
        forall|i: int| 0 <= i < n ==> a[off + i] == #[trigger] b[i],
    ensures
        le(a, off, n) == le(b, 0, n),
{
    lemma_le_shift_both(a, off, b, 0, n);
}

proof fn lemma_le_shift_both(a: Seq<u8>, i: int, b: Seq<u8>, j: int, n: nat)
    requires
        forall|k: int| j <= k < j + n ==> a[i - j + k] == #[trigger] b[k],
    ensures
        le(a, i, n) == le(b, j, n),
    decreases n,
{
    if n > 0 {
        assert(a[i - j + j] == b[j]);
        lemma_le_shift_both(a, i + 1, b, j + 1, (n - 1) as nat);
    }
}

/// Digits are weighted by their place, the first byte least.
pub proof fn law_little_endian_digits(raw: Seq<u8>, off: int)
    ensures
        le(raw, off, 2) == raw[off] + 0x100 * raw[off + 1],
        le(raw, off, 4) == raw[off] + 0x100 * raw[off + 1] + 0x1_0000 * raw[off + 2] + 0x100_0000
            * raw[off + 3],
        le(raw, off, 8) == raw[off] + 0x100 * raw[off + 1] + 0x1_0000 * raw[off + 2] + 0x100_0000
            * raw[off + 3] + 0x1_0000_0000 * raw[off + 4] + 0x100_0000_0000 * raw[off + 5]
            + 0x1_0000_0000_0000 * raw[off + 6] + 0x100_0000_0000_0000 * raw[off + 7],
{
    reveal_with_fuel(le, 9);
}

/// The bytes of a word are its digits, the least significant first.
pub proof fn law_word_bytes_are_its_digits(v: u64)
    ensures
        ({
            let b = le_bytes(v as nat, 8);
            &&& b.len() == 8
            &&& v == b[0] + 0x100 * b[1] + 0x1_0000 * b[2] + 0x100_0000 * b[3] + 0x1_0000_0000
                * b[4] + 0x100_0000_0000 * b[5] + 0x1_0000_0000_0000 * b[6]
                + 0x100_0000_0000_0000 * b[7]
        }),
{
    lemma_two_to_64();
    power2::lemma2_to64();
    assert(power2::pow2(64) == 0x1_0000_0000_0000_0000) by {
        power2::lemma2_to64_rest();
    }
    law_le_bytes_round_trip(v as nat, 8);
    law_little_endian_digits(le_bytes(v as nat, 8), 0);
}

/// Rounding down gives the multiple just below.
pub proof fn law_align_down_is_just_below(v: u64, a: u64, r: u64)
    requires
        power2::is_pow2(a as int),
        call_ensures(align_down, (v, a), r),
    ensures
        r as int % a as int == 0,
        r <= v < r + a,
{
    reveal(power2::is_pow2);
    law_nearest_multiples(v as int, a as int);
}

/// Rounding up gives the multiple just above, unless the way there leads past
/// the largest address.
pub proof fn law_align_up_is_just_above(v: u64, a: u64, r: Option<u64>)
    requires
        power2::is_pow2(a as int),
        call_ensures(align_up, (v, a), r),
    ensures
        r is Some <==> v + (a - 1) <= 0xffff_ffff_ffff_ffff,
        r matches Some(x) ==> x as int % a as int == 0 && x - a < v <= x,
{
    reveal(power2::is_pow2);
    law_nearest_multiples(v as int, a as int);
}

} // verus!
