use vstd::arithmetic::power2::{lemma_pow2_adds, lemma_pow2_pos, lemma_pow2_unfold, pow2};
use vstd::prelude::*;

verus! {

/// Whether the `w`-bit pattern `x` has its sign bit set.
pub open spec fn is_negative(x: nat, w: nat) -> bool {
    w > 0 && x >= pow2((w - 1) as nat)
}

/// Two's-complement reading of the `w`-bit pattern `x`.
pub open spec fn as_signed(x: nat, w: nat) -> int {
    if is_negative(x, w) {
        x - pow2(w)
    } else {
        x as int
    }
}

/// The `w`-bit pattern that stands for the integer `v`: `v` modulo `2^w`.
pub open spec fn wrap(v: int, w: nat) -> nat {
    (v % (pow2(w) as int)) as nat
}

/// Whether `v` can be written in `w` bits of two's complement.
pub open spec fn in_signed_range(v: int, w: nat) -> bool {
    -(pow2((w - 1) as nat) as int) <= v < pow2((w - 1) as nat) as int
}

/// The one-bit pattern for a truth value.
pub open spec fn flag(b: bool) -> nat {
    if b {
        1
    } else {
        0
    }
}

/// Two's-complement negation of a `w`-bit pattern.
pub open spec fn negate(x: nat, w: nat) -> nat {
    wrap(-(x as int), w)
}

/// The pattern of `w` ones.
pub open spec fn all_ones(w: nat) -> nat {
    (pow2(w) - 1) as nat
}

/// Unsigned division; dividing by zero gives all ones.
pub open spec fn udiv(a: nat, b: nat, w: nat) -> nat {
    if b == 0 {
        all_ones(w)
    } else {
        a / b
    }
}

/// Unsigned remainder; a zero divisor gives the dividend.
pub open spec fn urem(a: nat, b: nat) -> nat {
    if b == 0 {
        a
    } else {
        a % b
    }
}

/// Signed division, by unsigned division of the magnitudes; the result is
/// negated where the signs of the operands differ.
pub open spec fn sdiv(a: nat, b: nat, w: nat) -> nat {
    if !is_negative(a, w) && !is_negative(b, w) {
        udiv(a, b, w)
    } else if is_negative(a, w) && !is_negative(b, w) {
        negate(udiv(negate(a, w), b, w), w)
    } else if !is_negative(a, w) && is_negative(b, w) {
        negate(udiv(a, negate(b, w), w), w)
    } else {
        udiv(negate(a, w), negate(b, w), w)
    }
}

/// Signed remainder, by unsigned remainder of the magnitudes; the result
/// takes the sign of the dividend.
pub open spec fn srem(a: nat, b: nat, w: nat) -> nat {
    if !is_negative(a, w) && !is_negative(b, w) {
        urem(a, b)
    } else if is_negative(a, w) && !is_negative(b, w) {
        negate(urem(negate(a, w), b), w)
    } else if !is_negative(a, w) && is_negative(b, w) {
        urem(a, negate(b, w))
    } else {
        negate(urem(negate(a, w), negate(b, w)), w)
    }
}

/// Bitwise conjunction of the low `w` bits of `a` and `b`.
pub open spec fn bit_and(a: nat, b: nat, w: nat) -> nat
    decreases w,
{
    if w == 0 {
        0
    } else {
        2 * bit_and(a / 2, b / 2, (w - 1) as nat) + flag(a % 2 == 1 && b % 2 == 1)
    }
}

/// Bitwise disjunction of the low `w` bits of `a` and `b`.
pub open spec fn bit_or(a: nat, b: nat, w: nat) -> nat
    decreases w,
{
    if w == 0 {
        0
    } else {
        2 * bit_or(a / 2, b / 2, (w - 1) as nat) + flag(a % 2 == 1 || b % 2 == 1)
    }
}

/// Bitwise exclusive or of the low `w` bits of `a` and `b`.
pub open spec fn bit_xor(a: nat, b: nat, w: nat) -> nat
    decreases w,
{
    if w == 0 {
        0
    } else {
        2 * bit_xor(a / 2, b / 2, (w - 1) as nat) + flag((a % 2 == 1) != (b % 2 == 1))
    }
}

/// Shift left by `s` within `w` bits.
pub open spec fn shl(a: nat, s: nat, w: nat) -> nat {
    (a * pow2(s)) % pow2(w)
}

/// Logical shift right by `s`.
pub open spec fn lshr(a: nat, s: nat) -> nat {
    a / pow2(s)
}

/// Arithmetic shift right by `s` within `w` bits: the sign bit fills in.
pub open spec fn ashr(a: nat, s: nat, w: nat) -> nat {
    if is_negative(a, w) {
        (all_ones(w) - (all_ones(w) - a) / (pow2(s) as int)) as nat
    } else {
        a / pow2(s)
    }
}

/// The bits `low ..= high` of `a`.
pub open spec fn extract(a: nat, low: nat, high: nat) -> nat {
    (a / pow2(low)) % pow2((high - low + 1) as nat)
}

/// `high` placed above the `w_low` bits of `low`.
pub open spec fn join(high: nat, low: nat, w_low: nat) -> nat {
    high * pow2(w_low) + low
}

/// Sign extension of a `w`-bit pattern by `n` more bits.
pub open spec fn sign_extend(a: nat, w: nat, n: nat) -> nat {
    if is_negative(a, w) {
        (a + pow2(w + n) - pow2(w)) as nat
    } else {
        a
    }
}

// -------------------------------------------------------------------------------------------------
// Ranges of the operations
// -------------------------------------------------------------------------------------------------

/// A power of two is twice the one below it.
pub proof fn lemma_pow2_double(w: nat)
    requires
        w >= 1,
    ensures
        pow2(w) == 2 * pow2((w - 1) as nat),
        pow2((w - 1) as nat) >= 1,
{
    lemma_pow2_unfold(w);
    lemma_pow2_pos((w - 1) as nat);
}

/// A wrapped integer is a `w`-bit pattern.
pub proof fn lemma_wrap_range(v: int, w: nat)
    ensures
        wrap(v, w) < pow2(w),
{
    lemma_pow2_pos(w);
    let m = pow2(w) as int;
    assert(0 <= v % m < m) by (nonlinear_arith)
        requires
            m > 0,
    ;
}

/// Wrapping leaves a `w`-bit pattern as it is.
pub proof fn lemma_wrap_small(v: int, w: nat)
    requires
        0 <= v < pow2(w),
    ensures
        wrap(v, w) == v,
{
    let m = pow2(w) as int;
    assert(v % m == v) by (nonlinear_arith)
        requires
            0 <= v < m,
    ;
}

/// Wrapping a negative number above minus the modulus adds one modulus.
pub proof fn lemma_wrap_negative(v: int, w: nat)
    requires
        -(pow2(w) as int) <= v < 0,
    ensures
        wrap(v, w) == v + pow2(w),
{
    let m = pow2(w) as int;
    assert(v % m == v + m) by (nonlinear_arith)
        requires
            -m <= v < 0,
    ;
}

/// The signed reading of a `w`-bit pattern can be written in `w` bits.
pub proof fn lemma_signed_range(x: nat, w: nat)
    requires
        w >= 1,
        x < pow2(w),
    ensures
        in_signed_range(as_signed(x, w), w),
{
    lemma_pow2_double(w);
}

/// Wrapping and reading back as signed gives the integer again, where it
/// can be written in `w` bits.
pub proof fn lemma_wrap_signed(v: int, w: nat)
    requires
        w >= 1,
        in_signed_range(v, w),
    ensures
        as_signed(wrap(v, w), w) == v,
{
    lemma_pow2_double(w);
    if v >= 0 {
        lemma_wrap_small(v, w);
    } else {
        lemma_wrap_negative(v, w);
    }
}

/// Unsigned division stays within `w` bits.
pub proof fn lemma_udiv_range(a: nat, b: nat, w: nat)
    requires
        a < pow2(w),
    ensures
        udiv(a, b, w) < pow2(w),
{
    lemma_pow2_pos(w);
    if b != 0 {
        assert(a / b <= a) by (nonlinear_arith)
            requires
                b > 0,
        ;
    }
}

/// Unsigned remainder stays within `w` bits.
pub proof fn lemma_urem_range(a: nat, b: nat, w: nat)
    requires
        a < pow2(w),
    ensures
        urem(a, b) < pow2(w),
{
    if b != 0 {
        assert(a % b <= a) by (nonlinear_arith)
            requires
                b > 0,
        ;
    }
}

/// Signed division stays within `w` bits.
pub proof fn lemma_sdiv_range(a: nat, b: nat, w: nat)
    requires
        a < pow2(w),
        b < pow2(w),
    ensures
        sdiv(a, b, w) < pow2(w),
{
    lemma_wrap_range(-(a as int), w);
    lemma_wrap_range(-(b as int), w);
    lemma_udiv_range(a, b, w);
    lemma_udiv_range(negate(a, w), b, w);
    lemma_udiv_range(a, negate(b, w), w);
    lemma_udiv_range(negate(a, w), negate(b, w), w);
    lemma_wrap_range(-(udiv(negate(a, w), b, w) as int), w);
    lemma_wrap_range(-(udiv(a, negate(b, w), w) as int), w);
}

/// Signed remainder stays within `w` bits.
pub proof fn lemma_srem_range(a: nat, b: nat, w: nat)
    requires
        a < pow2(w),
        b < pow2(w),
    ensures
        srem(a, b, w) < pow2(w),
{
    lemma_wrap_range(-(a as int), w);
    lemma_wrap_range(-(b as int), w);
    lemma_urem_range(a, b, w);
    lemma_urem_range(negate(a, w), b, w);
    lemma_urem_range(a, negate(b, w), w);
    lemma_urem_range(negate(a, w), negate(b, w), w);
    lemma_wrap_range(-(urem(negate(a, w), b) as int), w);
    lemma_wrap_range(-(urem(negate(a, w), negate(b, w)) as int), w);
}

/// The bitwise operations stay within `w` bits.
pub proof fn lemma_bitwise_range(a: nat, b: nat, w: nat)
    ensures
        bit_and(a, b, w) < pow2(w),
        bit_or(a, b, w) < pow2(w),
        bit_xor(a, b, w) < pow2(w),
    decreases w,
{
    lemma_pow2_pos(w);
    if w > 0 {
        lemma_bitwise_range(a / 2, b / 2, (w - 1) as nat);
        lemma_pow2_double(w);
    }
}

/// The shifts stay within `w` bits.
pub proof fn lemma_shift_range(a: nat, s: nat, w: nat)
    requires
        a < pow2(w),
    ensures
        shl(a, s, w) < pow2(w),
        lshr(a, s) < pow2(w),
        ashr(a, s, w) < pow2(w),
{
    lemma_pow2_pos(w);
    lemma_pow2_pos(s);
    let m = pow2(w) as int;
    let d = pow2(s) as int;
    let x = (a * pow2(s)) as int;
    assert(0 <= x % m < m) by (nonlinear_arith)
        requires
            m > 0,
    ;
    assert(0 <= a / (d as nat) <= a) by (nonlinear_arith)
        requires
            d > 0,
    ;
    let r = (m - 1 - a) as int;
    assert(0 <= r / d <= r) by (nonlinear_arith)
        requires
            d > 0,
            r >= 0,
    ;
}

/// A slice has as many bits as it names.
pub proof fn lemma_extract_range(a: nat, low: nat, high: nat)
    requires
        low <= high,
    ensures
        extract(a, low, high) < pow2((high - low + 1) as nat),
{
    lemma_pow2_pos(low);
    let n = (high - low + 1) as nat;
    lemma_pow2_pos(n);
    let m = pow2(n) as int;
    let x = (a / pow2(low)) as int;
    assert(0 <= x % m < m) by (nonlinear_arith)
        requires
            m > 0,
    ;
}

/// A concatenation has the bits of both parts.
pub proof fn lemma_join_range(high: nat, low: nat, w_high: nat, w_low: nat)
    requires
        high < pow2(w_high),
        low < pow2(w_low),
    ensures
        join(high, low, w_low) < pow2(w_high + w_low),
{
    lemma_pow2_adds(w_high, w_low);
    let mh = pow2(w_high) as int;
    let ml = pow2(w_low) as int;
    assert(high * ml + low < mh * ml) by (nonlinear_arith)
        requires
            0 <= high < mh,
            0 <= low < ml,
    ;
}

/// The low part of a concatenation is the part that was put there, and what
/// lies above it is the high part.
pub proof fn lemma_join_split(high: nat, low: nat, w_low: nat)
    requires
        low < pow2(w_low),
    ensures
        join(high, low, w_low) % pow2(w_low) == low,
        join(high, low, w_low) / pow2(w_low) == high,
{
    let ml = pow2(w_low) as int;
    let h = high as int;
    let l = low as int;
    assert((h * ml + l) % ml == l && (h * ml + l) / ml == h) by (nonlinear_arith)
        requires
            0 <= l < ml,
            0 <= h,
    ;
}

/// A sign-extended pattern has `n` more bits and the same signed reading.
pub proof fn lemma_sign_extend(a: nat, w: nat, n: nat)
    requires
        w >= 1,
        a < pow2(w),
    ensures
        sign_extend(a, w, n) < pow2(w + n),
        as_signed(sign_extend(a, w, n), w + n) == as_signed(a, w),
{
    lemma_pow2_adds(w, n);
    lemma_pow2_pos(n);
    lemma_pow2_double(w);
    lemma_pow2_double(w + n);
    lemma_pow2_adds((w - 1) as nat, n);
    let mw = pow2(w) as int;
    let hw = pow2((w - 1) as nat) as int;
    let mn = pow2(n) as int;
    assert(mw * mn >= mw && hw * mn >= hw) by (nonlinear_arith)
        requires
            mn >= 1,
            mw >= 0,
            hw >= 0,
    ;
}

/// A pattern below `2^w` is a pattern below `2^v` for any wider `v`.
pub proof fn lemma_pow2_monotone(w: nat, v: nat)
    requires
        w <= v,
    ensures
        pow2(w) <= pow2(v),
{
    if w < v {
        vstd::arithmetic::power2::lemma_pow2_strictly_increases(w, v);
    }
}

} // verus!
