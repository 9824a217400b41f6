use super::arith::{
    all_ones, as_signed, bit_and, bit_or, bit_xor, extract, flag, in_signed_range, is_negative,
    lemma_pow2_double, lemma_pow2_monotone, lemma_wrap_negative, lemma_wrap_small, lshr, negate,
    udiv, urem, wrap,
};
use super::eval::lemma_shift_out;
use super::model::Model;
use super::term::{lemma_eval_range, Array, BinOp, Term, CELL_BITS};
use vstd::arithmetic::div_mod::{
    lemma_add_mod_noop, lemma_fundamental_div_mod_converse, lemma_mul_mod_noop_right,
    lemma_small_mod, lemma_truncate_middle,
};
use vstd::arithmetic::power2::{lemma2_to64, lemma_pow2_adds, lemma_pow2_pos, pow2};
use vstd::prelude::*;

verus! {

/// The number that a row of bits stands for, the first bit being the
/// lowest.
pub open spec fn bits_nat(bits: Seq<bool>) -> nat
    decreases bits.len(),
{
    if bits.len() == 0 {
        0
    } else {
        bits_nat(bits.drop_last()) + flag(bits.last()) * pow2((bits.len() - 1) as nat)
    }
}

/// A bit times a number is the number or nothing.
pub proof fn lemma_flag_times(bit: bool, m: nat)
    ensures
        flag(bit) * m == (if bit {
            m
        } else {
            0
        }),
{
    let f = flag(bit) as int;
    let x = m as int;
    assert(f * x == (if bit {
        x
    } else {
        0
    })) by (nonlinear_arith)
        requires
            f == (if bit {
                1int
            } else {
                0int
            }),
    ;
}

/// A row of bits stands for a number below two to the power of its length.
pub proof fn lemma_bits_range(bits: Seq<bool>)
    ensures
        bits_nat(bits) < pow2(bits.len()),
    decreases bits.len(),
{
    lemma2_to64();
    if bits.len() > 0 {
        lemma_bits_range(bits.drop_last());
        lemma_pow2_double(bits.len());
    }
}

/// One more bit above a row adds its place value.
pub proof fn lemma_bits_push(bits: Seq<bool>, top: bool)
    ensures
        bits_nat(bits.push(top)) == bits_nat(bits) + flag(top) * pow2(bits.len()),
{
    assert(bits.push(top).drop_last() =~= bits);
}

/// A row of one bit stands for that bit.
pub proof fn lemma_bits_single(bit: bool)
    ensures
        bits_nat(seq![bit]) == flag(bit),
{
    lemma2_to64();
    assert(seq![bit].drop_last() =~= Seq::<bool>::empty());
    assert(bits_nat(seq![bit].drop_last()) == 0);
    assert(seq![bit].last() == bit);
}

/// A row put above another stands for the number of the lower row plus
/// that of the upper row at its place.
pub proof fn lemma_bits_concat(low: Seq<bool>, high: Seq<bool>)
    ensures
        bits_nat(low + high) == bits_nat(low) + bits_nat(high) * pow2(low.len()),
    decreases high.len(),
{
    if high.len() == 0 {
        assert(low + high =~= low);
    } else {
        let rest = high.drop_last();
        lemma_bits_concat(low, rest);
        assert((low + high).drop_last() =~= low + rest);
        lemma_pow2_adds(low.len(), rest.len());
        let p = pow2(low.len()) as int;
        let q = pow2(rest.len()) as int;
        let r = bits_nat(rest) as int;
        let f = flag(high.last()) as int;
        assert((r + f * q) * p == r * p + f * (p * q)) by (nonlinear_arith);
    }
}

/// The number that the bits `low ..= high` of a row stand for is those bits
/// of the number that the row stands for.
pub proof fn lemma_bits_subrange(bits: Seq<bool>, low: int, high: int)
    requires
        0 <= low <= high < bits.len(),
    ensures
        bits_nat(bits.subrange(low, high + 1)) == super::arith::extract(
            bits_nat(bits),
            low as nat,
            high as nat,
        ),
{
    let below = bits.subrange(0, low);
    let middle = bits.subrange(low, high + 1);
    let above = bits.subrange(high + 1, bits.len() as int);
    assert(bits =~= below + (middle + above));
    lemma_bits_concat(below, middle + above);
    lemma_bits_concat(middle, above);
    lemma_bits_range(below);
    lemma_bits_range(middle);
    lemma_pow2_pos(low as nat);
    lemma_pow2_pos(middle.len());
    let p = pow2(low as nat) as int;
    let q = pow2(middle.len()) as int;
    let b = bits_nat(below) as int;
    let m = bits_nat(middle) as int;
    let a = bits_nat(above) as int;
    assert(((b + (m + a * q) * p) / p) % q == m) by (nonlinear_arith)
        requires
            0 <= b < p,
            0 <= m < q,
            a >= 0,
    {
        assert((b + (m + a * q) * p) / p == m + a * q);
    }
}

/// The bits of `value` in a row of `width` bits: its low bits where the row
/// is shorter than 64, zeros above it where the row is longer.
pub fn bits_of(value: u64, width: u32) -> (bits: Vec<bool>)
    ensures
        bits@.len() == width,
        width < 64 ==> bits_nat(bits@) == value as nat % pow2(width as nat),
        width >= 64 ==> bits_nat(bits@) == value,
{
    let mut bits: Vec<bool> = Vec::new();
    let mut i: u32 = 0;
    proof {
        lemma2_to64();
    }
    while i < width
        invariant
            i <= width,
            bits@.len() == i,
            i <= 64 ==> bits_nat(bits@) == value as nat % pow2(i as nat),
            i > 64 ==> bits_nat(bits@) == value,
        decreases width - i,
    {
        let ghost before = bits@;
        let bit = i < 64 && (value >> i) & 1 == 1;
        bits.push(bit);
        proof {
            lemma_bits_push(before, bit);
            lemma2_to64();
            if i < 64 {
                let v = value;
                let s = i as u64;
                assert((v >> s) & 1 == (v >> s) % 2) by (bit_vector);
                vstd::bits::lemma_u64_shr_is_div(v, s);
                lemma_pow2_pos(i as nat);
                lemma_pow2_double((i + 1) as nat);
                let p = pow2(i as nat) as int;
                let x = v as int;
                assert(x % (2 * p) == x % p + ((x / p) % 2) * p) by (nonlinear_arith)
                    requires
                        p > 0,
                        x >= 0,
                {
                    vstd::arithmetic::div_mod::lemma_mod_breakdown(x, p, 2);
                }
                if i == 63 {
                    lemma_pow2_monotone(64, 64);
                    vstd::arithmetic::div_mod::lemma_small_mod(value as nat, pow2(64));
                }
            } else if i == 64 {
                vstd::arithmetic::div_mod::lemma_small_mod(value as nat, pow2(64));
            }
        }
        i += 1;
    }
    proof {
        if width == 64 {
            vstd::arithmetic::div_mod::lemma_small_mod(value as nat, pow2(64));
        }
    }
    bits
}

/// The number that a row of at most 64 bits stands for.
pub fn value_of(bits: &Vec<bool>) -> (value: u64)
    requires
        bits@.len() <= 64,
    ensures
        value == bits_nat(bits@),
{
    let mut value: u64 = 0;
    let mut place: u64 = 1;
    let mut i: usize = 0;
    proof {
        lemma2_to64();
        assert(bits@.take(0) =~= Seq::<bool>::empty());
    }
    while i < bits.len()
        invariant
            i <= bits@.len() <= 64,
            value == bits_nat(bits@.take(i as int)),
            i < 64 ==> place == pow2(i as nat),
        decreases bits@.len() - i,
    {
        proof {
            assert(bits@.take(i + 1).drop_last() =~= bits@.take(i as int));
            lemma_bits_range(bits@.take(i as int));
            lemma_bits_range(bits@.take(i + 1));
            lemma_pow2_double((i + 1) as nat);
            lemma_pow2_monotone((i + 1) as nat, 64);
            lemma2_to64();
            if i < 63 {
                lemma_pow2_monotone((i + 1) as nat, 63);
                vstd::arithmetic::power2::lemma2_to64_rest();
            }
        }
        if bits[i] {
            value = value + place;
        }
        if i < 63 {
            place = place * 2;
        }
        i += 1;
    }
    proof {
        assert(bits@.take(bits@.len() as int) =~= bits@);
    }
    value
}

/// The sum of two rows of one length and a carry: the row of the sum and
/// the carry out of it.
pub fn add_bits(a: &Vec<bool>, b: &Vec<bool>, carry: bool) -> (r: (Vec<bool>, bool))
    requires
        a@.len() == b@.len(),
    ensures
        r.0@.len() == a@.len(),
        bits_nat(r.0@) + flag(r.1) * pow2(a@.len()) == bits_nat(a@) + bits_nat(b@) + flag(carry),
{
    let mut sum: Vec<bool> = Vec::new();
    let mut c = carry;
    let mut i: usize = 0;
    proof {
        lemma2_to64();
        assert(a@.take(0) =~= Seq::<bool>::empty());
        assert(b@.take(0) =~= Seq::<bool>::empty());
    }
    while i < a.len()
        invariant
            i <= a@.len(),
            a@.len() == b@.len(),
            sum@.len() == i,
            bits_nat(sum@) + flag(c) * pow2(i as nat) == bits_nat(a@.take(i as int)) + bits_nat(
                b@.take(i as int),
            ) + flag(carry),
        decreases a@.len() - i,
    {
        let x = a[i];
        let y = b[i];
        let bit = (x != y) != c;
        let next = (x && y) || (c && (x || y));
        proof {
            assert(a@.take(i + 1).drop_last() =~= a@.take(i as int));
            assert(b@.take(i + 1).drop_last() =~= b@.take(i as int));
            lemma_bits_push(sum@, bit);
            lemma_pow2_double((i + 1) as nat);
            let p = pow2(i as nat) as int;
            assert(flag(bit) + 2 * flag(next) == flag(x) + flag(y) + flag(c));
            assert(flag(bit) * p + flag(next) * (2 * p) == (flag(x) + flag(y) + flag(c)) * p)
                by (nonlinear_arith)
                requires
                    flag(bit) + 2 * flag(next) == flag(x) + flag(y) + flag(c),
            ;
            assert((flag(x) + flag(y) + flag(c)) * p == flag(x) * p + flag(y) * p + flag(c) * p)
                by (nonlinear_arith);
        }
        sum.push(bit);
        c = next;
        i += 1;
    }
    proof {
        assert(a@.take(a@.len() as int) =~= a@);
        assert(b@.take(b@.len() as int) =~= b@);
    }
    (sum, c)
}

/// The complement of a row.
pub fn not_bits(a: &Vec<bool>) -> (r: Vec<bool>)
    ensures
        r@.len() == a@.len(),
        bits_nat(r@) == all_ones(a@.len()) - bits_nat(a@),
{
    let mut out: Vec<bool> = Vec::new();
    let mut i: usize = 0;
    proof {
        lemma2_to64();
        assert(a@.take(0) =~= Seq::<bool>::empty());
    }
    while i < a.len()
        invariant
            i <= a@.len(),
            out@.len() == i,
            bits_nat(out@) + bits_nat(a@.take(i as int)) + 1 == pow2(i as nat),
        decreases a@.len() - i,
    {
        proof {
            assert(a@.take(i + 1).drop_last() =~= a@.take(i as int));
            lemma_bits_push(out@, !a@[i as int]);
            lemma_pow2_double((i + 1) as nat);
        }
        out.push(!a[i]);
        i += 1;
    }
    proof {
        assert(a@.take(a@.len() as int) =~= a@);
        lemma_bits_range(a@);
    }
    out
}

/// The bitwise operations on numbers of `k` bits with one more bit above
/// each are those on the numbers, with the operation on the two bits
/// above.
pub proof fn lemma_bitwise_push(a: nat, b: nat, x: bool, y: bool, k: nat)
    requires
        a < pow2(k),
        b < pow2(k),
    ensures
        bit_and(a + flag(x) * pow2(k), b + flag(y) * pow2(k), k + 1) == bit_and(a, b, k) + flag(
            x && y,
        ) * pow2(k),
        bit_or(a + flag(x) * pow2(k), b + flag(y) * pow2(k), k + 1) == bit_or(a, b, k) + flag(
            x || y,
        ) * pow2(k),
        bit_xor(a + flag(x) * pow2(k), b + flag(y) * pow2(k), k + 1) == bit_xor(a, b, k) + flag(
            x != y,
        ) * pow2(k),
    decreases k,
{
    lemma2_to64();
    let wide_a = a + flag(x) * pow2(k);
    let wide_b = b + flag(y) * pow2(k);
    if k == 0 {
        assert(bit_and(wide_a / 2, wide_b / 2, 0) == 0);
        assert(bit_or(wide_a / 2, wide_b / 2, 0) == 0);
        assert(bit_xor(wide_a / 2, wide_b / 2, 0) == 0);
    } else {
        let below = (k - 1) as nat;
        lemma_pow2_double(k);
        lemma_bitwise_push(a / 2, b / 2, x, y, below);
        let h = pow2(below) as int;
        let fx = flag(x) as int;
        let fy = flag(y) as int;
        assert((a + fx * (2 * h)) / 2 == a / 2 + fx * h && (a + fx * (2 * h)) % 2 == a % 2)
            by (nonlinear_arith)
            requires
                a >= 0,
                fx >= 0,
                h >= 0,
        ;
        assert((b + fy * (2 * h)) / 2 == b / 2 + fy * h && (b + fy * (2 * h)) % 2 == b % 2)
            by (nonlinear_arith)
            requires
                b >= 0,
                fy >= 0,
                h >= 0,
        ;
        assert(flag(x && y) * (2 * h) == 2 * (flag(x && y) * h)) by (nonlinear_arith);
        assert(flag(x || y) * (2 * h) == 2 * (flag(x || y) * h)) by (nonlinear_arith);
        assert(flag(x != y) * (2 * h) == 2 * (flag(x != y) * h)) by (nonlinear_arith);
    }
}

/// Which of the bitwise operations.
#[derive(Clone, Copy, PartialEq, Eq, Structural)]
pub enum Bitwise {
    And,
    Or,
    Xor,
}

impl Bitwise {
    /// The operation on two numbers of `w` bits.
    pub open spec fn apply(self, a: nat, b: nat, w: nat) -> nat {
        match self {
            Bitwise::And => bit_and(a, b, w),
            Bitwise::Or => bit_or(a, b, w),
            Bitwise::Xor => bit_xor(a, b, w),
        }
    }
}

/// A bitwise operation on two rows of one length.
pub fn bitwise_bits(op: Bitwise, a: &Vec<bool>, b: &Vec<bool>) -> (r: Vec<bool>)
    requires
        a@.len() == b@.len(),
    ensures
        r@.len() == a@.len(),
        bits_nat(r@) == op.apply(bits_nat(a@), bits_nat(b@), a@.len()),
{
    let mut out: Vec<bool> = Vec::new();
    let mut i: usize = 0;
    proof {
        assert(a@.take(0) =~= Seq::<bool>::empty());
        assert(b@.take(0) =~= Seq::<bool>::empty());
    }
    while i < a.len()
        invariant
            i <= a@.len(),
            a@.len() == b@.len(),
            out@.len() == i,
            bits_nat(out@) == op.apply(
                bits_nat(a@.take(i as int)),
                bits_nat(b@.take(i as int)),
                i as nat,
            ),
        decreases a@.len() - i,
    {
        let x = a[i];
        let y = b[i];
        let bit = match op {
            Bitwise::And => x && y,
            Bitwise::Or => x || y,
            Bitwise::Xor => x != y,
        };
        proof {
            assert(a@.take(i + 1).drop_last() =~= a@.take(i as int));
            assert(b@.take(i + 1).drop_last() =~= b@.take(i as int));
            lemma_bits_push(out@, bit);
            lemma_bits_range(a@.take(i as int));
            lemma_bits_range(b@.take(i as int));
            lemma_bitwise_push(
                bits_nat(a@.take(i as int)),
                bits_nat(b@.take(i as int)),
                x,
                y,
                i as nat,
            );
        }
        out.push(bit);
        i += 1;
    }
    proof {
        assert(a@.take(a@.len() as int) =~= a@);
        assert(b@.take(b@.len() as int) =~= b@);
    }
    out
}

/// A row of `n` copies of `bit` above `a`.
pub fn extend_bits(a: &Vec<bool>, n: u32, bit: bool) -> (r: Vec<bool>)
    requires
        a@.len() + n <= u32::MAX,
    ensures
        r@.len() == a@.len() + n,
        r@.take(a@.len() as int) == a@,
        !bit ==> bits_nat(r@) == bits_nat(a@),
        bit ==> bits_nat(r@) == bits_nat(a@) + pow2(a@.len() + n as nat) - pow2(a@.len()),
{
    let mut out: Vec<bool> = Vec::new();
    let mut i: usize = 0;
    while i < a.len()
        invariant
            i <= a@.len(),
            out@ == a@.take(i as int),
        decreases a@.len() - i,
    {
        out.push(a[i]);
        assert(out@ =~= a@.take(i + 1));
        i += 1;
    }
    assert(a@.take(a@.len() as int) =~= a@);
    let mut k: u32 = 0;
    while k < n
        invariant
            k <= n,
            a@.len() + n <= u32::MAX,
            out@.len() == a@.len() + k,
            out@.take(a@.len() as int) == a@,
            !bit ==> bits_nat(out@) == bits_nat(a@),
            bit ==> bits_nat(out@) + pow2(a@.len()) == bits_nat(a@) + pow2(a@.len() + k as nat),
        decreases n - k,
    {
        proof {
            lemma_bits_push(out@, bit);
            lemma_pow2_double(a@.len() + k as nat + 1);
        }
        out.push(bit);
        assert(out@.take(a@.len() as int) =~= a@);
        k += 1;
    }
    out
}

/// A row of `n` zeros.
pub fn zero_bits(n: u32) -> (r: Vec<bool>)
    ensures
        r@.len() == n,
        bits_nat(r@) == 0,
{
    let nothing: Vec<bool> = Vec::new();
    extend_bits(&nothing, n, false)
}

/// The top bit of a row tells whether the number that it stands for is
/// negative, read as two's complement.
pub proof fn lemma_top_bit(bits: Seq<bool>)
    requires
        bits.len() > 0,
    ensures
        bits.last() == is_negative(bits_nat(bits), bits.len()),
{
    lemma_bits_range(bits.drop_last());
    let p = pow2((bits.len() - 1) as nat);
    assert(bits.drop_last().len() == bits.len() - 1);
    assert(bits_nat(bits) == bits_nat(bits.drop_last()) + flag(bits.last()) * p);
    lemma_flag_times(bits.last(), p);
}

/// The difference of two rows of one length, within their length, and
/// whether the first stands for less than the second.
pub fn sub_bits(a: &Vec<bool>, b: &Vec<bool>) -> (r: (Vec<bool>, bool))
    requires
        a@.len() == b@.len(),
    ensures
        r.0@.len() == a@.len(),
        bits_nat(r.0@) == wrap(bits_nat(a@) - bits_nat(b@), a@.len()),
        r.1 == (bits_nat(a@) < bits_nat(b@)),
{
    let other = not_bits(b);
    let (sum, carry) = add_bits(a, &other, true);
    proof {
        lemma_bits_range(a@);
        lemma_bits_range(b@);
        lemma_bits_range(sum@);
        lemma_pow2_pos(a@.len());
        let m = pow2(a@.len());
        assert(bits_nat(other@) == m - 1 - bits_nat(b@));
        lemma_flag_times(carry, m);
        let d = bits_nat(a@) - bits_nat(b@);
        assert(bits_nat(sum@) + flag(carry) * m == d + m);
        if d >= 0 {
            lemma_wrap_small(d, a@.len());
        } else {
            lemma_wrap_negative(d, a@.len());
        }
    }
    (sum, !carry)
}

/// Whether the first of two rows of one length stands for less than the
/// second.
pub fn less_bits(a: &Vec<bool>, b: &Vec<bool>) -> (r: bool)
    requires
        a@.len() == b@.len(),
    ensures
        r == (bits_nat(a@) < bits_nat(b@)),
{
    sub_bits(a, b).1
}

/// Whether two rows of one length stand for the same number.
pub fn equal_bits(a: &Vec<bool>, b: &Vec<bool>) -> (r: bool)
    requires
        a@.len() == b@.len(),
    ensures
        r == (bits_nat(a@) == bits_nat(b@)),
{
    !less_bits(a, b) && !less_bits(b, a)
}

/// Whether the first of two rows of one length stands for less than the
/// second, both read as two's complement.
pub fn signed_less_bits(a: &Vec<bool>, b: &Vec<bool>) -> (r: bool)
    requires
        a@.len() == b@.len(),
        a@.len() > 0,
    ensures
        r == (as_signed(bits_nat(a@), a@.len()) < as_signed(bits_nat(b@), a@.len())),
{
    proof {
        lemma_top_bit(a@);
        lemma_top_bit(b@);
        lemma_bits_range(a@);
        lemma_bits_range(b@);
        lemma_pow2_double(a@.len());
    }
    let a_negative = a[a.len() - 1];
    let b_negative = b[b.len() - 1];
    if a_negative != b_negative {
        a_negative
    } else {
        less_bits(a, b)
    }
}

/// The two's-complement negation of a row.
pub fn negate_bits(a: &Vec<bool>) -> (r: Vec<bool>)
    requires
        a@.len() <= u32::MAX,
    ensures
        r@.len() == a@.len(),
        bits_nat(r@) == negate(bits_nat(a@), a@.len()),
{
    let zero = zero_bits(a.len() as u32);
    sub_bits(&zero, a).0
}

/// A row with its bits moved up by one place, within its length.
pub fn double_bits(a: &Vec<bool>) -> (r: Vec<bool>)
    ensures
        r@.len() == a@.len(),
        bits_nat(r@) == (2 * bits_nat(a@)) % pow2(a@.len()),
{
    let (sum, _) = add_bits(a, a, false);
    proof {
        lemma_bits_range(sum@);
        lemma_pow2_pos(a@.len());
        let m = pow2(a@.len()) as int;
        let x = bits_nat(sum@) as int;
        let t = 2 * bits_nat(a@) as int;
        assert(t % m == x) by (nonlinear_arith)
            requires
                0 <= x < m,
                t == x || t == x + m,
        ;
    }
    sum
}

/// The bits `low ..= high` of a row.
pub fn slice_bits(a: &Vec<bool>, low: usize, high: usize) -> (r: Vec<bool>)
    requires
        low <= high < a@.len(),
    ensures
        r@ == a@.subrange(low as int, high + 1),
        bits_nat(r@) == extract(bits_nat(a@), low as nat, high as nat),
{
    let mut out: Vec<bool> = Vec::new();
    let mut i: usize = low;
    let n = a.len();
    while i <= high
        invariant
            low <= i <= high + 1,
            high < n,
            n == a@.len(),
            out@ == a@.subrange(low as int, i as int),
        decreases high + 1 - i,
    {
        out.push(a[i]);
        assert(out@ =~= a@.subrange(low as int, i + 1));
        i += 1;
    }
    proof {
        lemma_bits_subrange(a@, low as int, high as int);
    }
    out
}

/// The row `high` put above the row `low`.
pub fn concat_bits(low: &Vec<bool>, high: &Vec<bool>) -> (r: Vec<bool>)
    ensures
        r@ == low@ + high@,
        bits_nat(r@) == bits_nat(low@) + bits_nat(high@) * pow2(low@.len()),
{
    let mut out: Vec<bool> = Vec::new();
    let mut i: usize = 0;
    while i < low.len()
        invariant
            i <= low@.len(),
            out@ == low@.take(i as int),
        decreases low@.len() - i,
    {
        out.push(low[i]);
        assert(out@ =~= low@.take(i + 1));
        i += 1;
    }
    assert(low@.take(low@.len() as int) =~= low@);
    let mut k: usize = 0;
    while k < high.len()
        invariant
            k <= high@.len(),
            out@ == low@ + high@.take(k as int),
        decreases high@.len() - k,
    {
        out.push(high[k]);
        assert(out@ =~= low@ + high@.take(k + 1));
        k += 1;
    }
    proof {
        assert(high@.take(high@.len() as int) =~= high@);
        lemma_bits_concat(low@, high@);
    }
    out
}

/// The row of one bit.
pub fn flag_bits(bit: bool) -> (r: Vec<bool>)
    ensures
        r@.len() == 1,
        bits_nat(r@) == flag(bit),
{
    let mut out: Vec<bool> = Vec::new();
    out.push(bit);
    proof {
        assert(out@ =~= seq![bit]);
        lemma_bits_single(bit);
    }
    out
}

/// The product of two rows of one length, within their length.
pub fn mul_bits(a: &Vec<bool>, b: &Vec<bool>) -> (r: Vec<bool>)
    requires
        a@.len() == b@.len(),
        a@.len() <= u32::MAX,
    ensures
        r@.len() == a@.len(),
        bits_nat(r@) == wrap((bits_nat(a@) * bits_nat(b@)) as int, a@.len()),
{
    let ghost m = pow2(a@.len()) as int;
    let ghost x = bits_nat(a@) as int;
    let mut acc = zero_bits(a.len() as u32);
    let mut shifted = extend_bits(a, 0, false);
    let mut i: usize = 0;
    proof {
        lemma2_to64();
        lemma_pow2_pos(a@.len());
        lemma_bits_range(a@);
        assert(b@.take(0) =~= Seq::<bool>::empty());
        lemma_small_mod(x as nat, m as nat);
        assert(x * 0 == 0 && x * 1 == x) by (nonlinear_arith);
        lemma_small_mod(0, m as nat);
    }
    while i < b.len()
        invariant
            i <= b@.len(),
            a@.len() == b@.len(),
            acc@.len() == a@.len(),
            shifted@.len() == a@.len(),
            m == pow2(a@.len()),
            m > 0,
            x == bits_nat(a@),
            bits_nat(acc@) == (x * bits_nat(b@.take(i as int))) % m,
            bits_nat(shifted@) == (x * pow2(i as nat)) % m,
        decreases b@.len() - i,
    {
        proof {
            assert(b@.take(i + 1).drop_last() =~= b@.take(i as int));
            lemma_flag_times(b@[i as int], pow2(i as nat));
            lemma_pow2_double((i + 1) as nat);
        }
        let ghost low = bits_nat(b@.take(i as int)) as int;
        let ghost p = pow2(i as nat) as int;
        if b[i] {
            let (sum, carry) = add_bits(&acc, &shifted, false);
            proof {
                lemma_bits_range(sum@);
                lemma_flag_times(carry, m as nat);
                let s = bits_nat(sum@) as int;
                let t = (bits_nat(acc@) + bits_nat(shifted@)) as int;
                assert(t % m == s) by (nonlinear_arith)
                    requires
                        0 <= s < m,
                        t == s || t == s + m,
                ;
                lemma_add_mod_noop(x * low, x * p, m);
                assert(x * low + x * p == x * (low + p)) by (nonlinear_arith);
            }
            acc = sum;
        }
        let ghost before = bits_nat(shifted@) as int;
        shifted = double_bits(&shifted);
        proof {
            lemma_mul_mod_noop_right(2, x * p, m);
            assert(2 * (x * p) == x * (2 * p)) by (nonlinear_arith);
        }
        i += 1;
    }
    proof {
        assert(b@.take(b@.len() as int) =~= b@);
    }
    acc
}

/// The quotient and the remainder of two rows of one length, the second
/// of which does not stand for zero.
pub fn div_bits(a: &Vec<bool>, b: &Vec<bool>) -> (r: (Vec<bool>, Vec<bool>))
    requires
        a@.len() == b@.len(),
        a@.len() <= u32::MAX,
        bits_nat(b@) > 0,
    ensures
        r.0@.len() == a@.len(),
        r.1@.len() == a@.len(),
        bits_nat(r.0@) == bits_nat(a@) / bits_nat(b@),
        bits_nat(r.1@) == bits_nat(a@) % bits_nat(b@),
{
    let w = a.len();
    let ghost m = pow2(a@.len()) as int;
    let ghost d = bits_nat(b@) as int;
    let mut quotient = zero_bits(w as u32);
    let mut rest = zero_bits(w as u32);
    let mut i: usize = w;
    proof {
        lemma_pow2_pos(a@.len());
        lemma_bits_range(b@);
        assert(a@.subrange(w as int, w as int) =~= Seq::<bool>::empty());
        assert(0 * d == 0) by (nonlinear_arith);
    }
    while i > 0
        invariant
            i <= w,
            w == a@.len(),
            w <= u32::MAX,
            a@.len() == b@.len(),
            quotient@.len() == w,
            rest@.len() == w,
            m == pow2(a@.len()),
            d == bits_nat(b@),
            0 < d < m,
            bits_nat(a@.subrange(i as int, w as int)) == bits_nat(quotient@) * d + bits_nat(
                rest@,
            ),
            bits_nat(rest@) < d,
        decreases i,
    {
        i -= 1;
        let ghost above = bits_nat(a@.subrange(i + 1, w as int)) as int;
        let ghost q = bits_nat(quotient@) as int;
        let ghost r = bits_nat(rest@) as int;
        proof {
            let one = seq![a@[i as int]];
            assert(a@.subrange(i as int, w as int) =~= one + a@.subrange(i + 1, w as int));
            lemma_bits_concat(one, a@.subrange(i + 1, w as int));
            lemma_bits_single(a@[i as int]);
            lemma2_to64();
            assert(one.len() == 1);
            assert(above * pow2(1) == 2 * above) by (nonlinear_arith)
                requires
                    pow2(1) == 2,
            ;
            lemma_bits_range(a@.subrange(i + 1, w as int));
            lemma_pow2_double((w - i) as nat);
            lemma_pow2_monotone((w - i) as nat, w as nat);
            assert(q <= above) by (nonlinear_arith)
                requires
                    above == q * d + r,
                    d >= 1,
                    r >= 0,
                    q >= 0,
            ;
        }
        let ghost c = flag(a@[i as int]) as int;
        let ghost here = bits_nat(a@.subrange(i as int, w as int)) as int;
        assert(here == 2 * above + c);
        let (twice, carry) = add_bits(&rest, &rest, a[i]);
        let (more, over) = add_bits(&quotient, &quotient, false);
        let ghost t = bits_nat(twice@) as int;
        proof {
            lemma_flag_times(carry, m as nat);
            lemma_flag_times(over, m as nat);
            lemma_bits_range(twice@);
            lemma_bits_range(more@);
            assert(t + (if carry {
                m
            } else {
                0
            }) == 2 * r + c);
            assert(2 * q + 1 < m);
            assert(bits_nat(more@) == 2 * q);
        }
        let (less, borrow) = sub_bits(&twice, b);
        if carry || !borrow {
            let (next, up) = add_bits(&more, &zero_bits(w as u32), true);
            proof {
                lemma_flag_times(up, m as nat);
                lemma_bits_range(next@);
                lemma_bits_range(less@);
                assert(bits_nat(next@) == 2 * q + 1);
                if carry {
                    lemma_wrap_negative(t - d, w as nat);
                } else {
                    lemma_wrap_small(t - d, w as nat);
                }
                assert(bits_nat(less@) == 2 * r + c - d);
                assert((2 * q + 1) * d + (2 * r + c - d) == 2 * (q * d + r) + c)
                    by (nonlinear_arith);
            }
            quotient = next;
            rest = less;
        } else {
            proof {
                assert(t == 2 * r + c);
                assert((2 * q) * d + (2 * r + c) == 2 * (q * d + r) + c) by (nonlinear_arith);
            }
            quotient = more;
            rest = twice;
        }
    }
    proof {
        assert(a@.subrange(0, w as int) =~= a@);
        lemma_fundamental_div_mod_converse(
            bits_nat(a@) as int,
            d,
            bits_nat(quotient@) as int,
            bits_nat(rest@) as int,
        );
    }
    (quotient, rest)
}

/// A number is below two to its own power.
pub proof fn lemma_below_own_power(n: nat)
    ensures
        n < pow2(n),
    decreases n,
{
    lemma2_to64();
    if n > 0 {
        lemma_below_own_power((n - 1) as nat);
        lemma_pow2_double(n);
    }
}

/// A row moved down by `s` places, zeros coming in from above.
fn shift_down_bits(a: &Vec<bool>, s: usize) -> (r: Vec<bool>)
    requires
        s < a@.len(),
        a@.len() <= u32::MAX,
    ensures
        r@.len() == a@.len(),
        bits_nat(r@) == lshr(bits_nat(a@), s as nat),
{
    let w = a.len();
    let kept = slice_bits(a, s, w - 1);
    let r = concat_bits(&kept, &zero_bits(s as u32));
    proof {
        lemma_bits_range(a@);
        lemma_pow2_adds(s as nat, (w - s) as nat);
        lemma_pow2_pos(s as nat);
        lemma_pow2_pos((w - s) as nat);
        let x = bits_nat(a@) as int;
        let p = pow2(s as nat) as int;
        let q = pow2((w - s) as nat) as int;
        assert((x / p) % q == x / p) by (nonlinear_arith)
            requires
                0 <= x < p * q,
                p > 0,
                q > 0,
        {
            assert(x / p < q);
        }
        assert(0 * pow2(kept@.len()) == 0) by (nonlinear_arith);
    }
    r
}

/// The shift of the row `a` by the amount that the row `b` stands for.
pub fn shift_bits(op: BinOp, a: &Vec<bool>, b: &Vec<bool>) -> (r: Vec<bool>)
    requires
        a@.len() == b@.len(),
        1 <= a@.len() <= u32::MAX,
        op is Sll || op is Srl || op is Sra,
    ensures
        r@.len() == a@.len(),
        bits_nat(r@) == op.apply(bits_nat(a@), bits_nat(b@), a@.len(), b@.len()),
{
    let w = a.len();
    let negative = a[w - 1];
    let width_row = bits_of(w as u64, w as u32);
    proof {
        lemma_top_bit(a@);
        lemma_bits_range(a@);
        lemma_bits_range(b@);
        lemma_below_own_power(w as nat);
        lemma_pow2_pos(w as nat);
        lemma2_to64();
        if w < 64 {
            lemma_small_mod(w as nat, pow2(w as nat));
        }
    }
    if !less_bits(b, &width_row) {
        proof {
            lemma_shift_out(bits_nat(a@), bits_nat(b@), w as nat);
            lemma_shift_out((all_ones(w as nat) - bits_nat(a@)) as nat, bits_nat(b@), w as nat);
        }
        let nothing = zero_bits(w as u32);
        return match op {
            BinOp::Sra => if negative {
                not_bits(&nothing)
            } else {
                nothing
            },
            _ => nothing,
        };
    }
    let k: usize = if w < 64 {
        w
    } else {
        64
    };
    let low = slice_bits(b, 0, k - 1);
    proof {
        if w < 64 {
            lemma_pow2_monotone(w as nat, 64);
        }
        lemma_pow2_monotone(32, 64);
        let x = bits_nat(b@);
        assert(x / pow2(0) == x);
        lemma_small_mod(x, pow2(k as nat));
    }
    let s = value_of(&low) as usize;
    match op {
        BinOp::Sll => {
            let kept = slice_bits(a, 0, w - s - 1);
            let r = concat_bits(&zero_bits(s as u32), &kept);
            proof {
                lemma_pow2_adds(s as nat, (w - s) as nat);
                lemma_pow2_pos(s as nat);
                lemma_pow2_pos((w - s) as nat);
                let x = bits_nat(a@) as int;
                let p = pow2(s as nat) as int;
                let q = pow2((w - s) as nat) as int;
                assert(bits_nat(a@) / pow2(0) == bits_nat(a@));
                lemma_truncate_middle(x, p, q);
                assert(p * x == x * p && (x % q) * p == p * (x % q)) by (nonlinear_arith);
            }
            r
        },
        BinOp::Srl => shift_down_bits(a, s),
        _ => {
            if negative {
                let flipped = not_bits(a);
                let moved = shift_down_bits(&flipped, s);
                not_bits(&moved)
            } else {
                shift_down_bits(a, s)
            }
        },
    }
}

/// A product passes a bound exactly where one factor passes the bound
/// divided by the other.
pub proof fn lemma_product_passes(x: nat, b: nat, bound: nat)
    requires
        b > 0,
    ensures
        (x * b > bound) == (x > bound / b),
{
    let q = (bound / b) as int;
    let xi = x as int;
    let bi = b as int;
    let l = bound as int;
    assert(q * bi <= l < (q + 1) * bi) by (nonlinear_arith)
        requires
            q == l / bi,
            bi > 0,
            l >= 0,
    ;
    if xi > q {
        assert(xi * bi >= (q + 1) * bi) by (nonlinear_arith)
            requires
                xi >= q + 1,
                bi > 0,
        ;
    } else {
        assert(xi * bi <= q * bi) by (nonlinear_arith)
            requires
                xi <= q,
                bi > 0,
        ;
    }
}

/// The sum of two rows of one length, within their length.
fn sum_bits(a: &Vec<bool>, b: &Vec<bool>) -> (r: (Vec<bool>, bool))
    requires
        a@.len() == b@.len(),
    ensures
        r.0@.len() == a@.len(),
        bits_nat(r.0@) == wrap((bits_nat(a@) + bits_nat(b@)) as int, a@.len()),
        r.1 == (bits_nat(a@) + bits_nat(b@) >= pow2(a@.len())),
{
    let (sum, carry) = add_bits(a, b, false);
    proof {
        lemma_bits_range(sum@);
        lemma_pow2_pos(a@.len());
        lemma_flag_times(carry, pow2(a@.len()));
        let m = pow2(a@.len()) as int;
        let x = bits_nat(sum@) as int;
        let t = (bits_nat(a@) + bits_nat(b@)) as int;
        assert(t % m == x) by (nonlinear_arith)
            requires
                0 <= x < m,
                t == x || t == x + m,
        ;
    }
    (sum, carry)
}

/// The unsigned quotient of two rows; all ones where the divisor is zero.
fn quotient_bits(a: &Vec<bool>, b: &Vec<bool>) -> (r: Vec<bool>)
    requires
        a@.len() == b@.len(),
        a@.len() <= u32::MAX,
    ensures
        r@.len() == a@.len(),
        bits_nat(r@) == udiv(bits_nat(a@), bits_nat(b@), a@.len()),
{
    let zero = zero_bits(a.len() as u32);
    if equal_bits(b, &zero) {
        not_bits(&zero)
    } else {
        div_bits(a, b).0
    }
}

/// The unsigned remainder of two rows; the dividend where the divisor is
/// zero.
fn remainder_bits(a: &Vec<bool>, b: &Vec<bool>) -> (r: Vec<bool>)
    requires
        a@.len() == b@.len(),
        a@.len() <= u32::MAX,
    ensures
        r@.len() == a@.len(),
        bits_nat(r@) == urem(bits_nat(a@), bits_nat(b@)),
{
    let zero = zero_bits(a.len() as u32);
    if equal_bits(b, &zero) {
        extend_bits(a, 0, false)
    } else {
        div_bits(a, b).1
    }
}

/// The magnitude of a row read as two's complement.
fn magnitude_bits(a: &Vec<bool>) -> (r: Vec<bool>)
    requires
        1 <= a@.len() <= u32::MAX,
    ensures
        r@.len() == a@.len(),
        bits_nat(r@) == (if is_negative(bits_nat(a@), a@.len()) {
            negate(bits_nat(a@), a@.len())
        } else {
            bits_nat(a@)
        }),
        bits_nat(r@) as int == (if as_signed(bits_nat(a@), a@.len()) < 0 {
            -as_signed(bits_nat(a@), a@.len())
        } else {
            as_signed(bits_nat(a@), a@.len())
        }),
{
    proof {
        lemma_top_bit(a@);
        lemma_bits_range(a@);
        lemma_pow2_double(a@.len());
        if is_negative(bits_nat(a@), a@.len()) {
            lemma_wrap_negative(-(bits_nat(a@) as int), a@.len());
        }
    }
    if a[a.len() - 1] {
        negate_bits(a)
    } else {
        extend_bits(a, 0, false)
    }
}

/// Whether the product of two rows, read as two's complement, cannot be
/// written in their length.
fn signed_product_overflows(a: &Vec<bool>, b: &Vec<bool>) -> (r: bool)
    requires
        a@.len() == b@.len(),
        1 <= a@.len() <= u32::MAX,
    ensures
        r == !in_signed_range(
            as_signed(bits_nat(a@), a@.len()) * as_signed(bits_nat(b@), a@.len()),
            a@.len(),
        ),
{
    let w = a.len();
    let x = magnitude_bits(a);
    let y = magnitude_bits(b);
    let negative = a[w - 1] != b[w - 1];
    let zero = zero_bits(w as u32);
    let ghost sa = as_signed(bits_nat(a@), w as nat);
    let ghost sb = as_signed(bits_nat(b@), w as nat);
    let ghost xi = bits_nat(x@) as int;
    let ghost yi = bits_nat(y@) as int;
    proof {
        lemma_top_bit(a@);
        lemma_top_bit(b@);
        lemma_bits_range(a@);
        lemma_bits_range(b@);
        lemma_pow2_double(w as nat);
        assert((sa < 0) == a@[w - 1]);
        assert((sb < 0) == b@[w - 1]);
        if negative {
            assert(sa * sb == -(xi * yi)) by (nonlinear_arith)
                requires
                    (sa == xi && sb == -yi) || (sa == -xi && sb == yi),
            ;
        } else {
            assert(sa * sb == xi * yi) by (nonlinear_arith)
                requires
                    (sa == xi && sb == yi) || (sa == -xi && sb == -yi),
            ;
        }
        assert(xi * yi >= 0) by (nonlinear_arith)
            requires
                xi >= 0,
                yi >= 0,
        ;
    }
    if equal_bits(&y, &zero) {
        proof {
            assert(xi * yi == 0) by (nonlinear_arith)
                requires
                    yi == 0,
            ;
        }
        return false;
    }
    // The least value that cannot be written: a one above zeros.
    let half = concat_bits(&zero_bits((w - 1) as u32), &flag_bits(true));
    proof {
        lemma_flag_times(true, pow2((w - 1) as nat));
        assert(bits_nat(half@) == pow2((w - 1) as nat)) by (nonlinear_arith)
            requires
                bits_nat(half@) == 0 + 1 * pow2((w - 1) as nat),
        ;
    }
    if negative {
        let bound = div_bits(&half, &y).0;
        proof {
            lemma_product_passes(bits_nat(x@), bits_nat(y@), bits_nat(half@));
        }
        less_bits(&bound, &x)
    } else {
        let below = not_bits(&half);
        let bound = div_bits(&below, &y).0;
        proof {
            lemma_product_passes(bits_nat(x@), bits_nat(y@), bits_nat(below@));
        }
        less_bits(&bound, &x)
    }
}

/// Whether the product of two rows cannot be written in their length.
fn product_overflows(a: &Vec<bool>, b: &Vec<bool>) -> (r: bool)
    requires
        a@.len() == b@.len(),
        a@.len() <= u32::MAX,
    ensures
        r == (bits_nat(a@) * bits_nat(b@) >= pow2(a@.len())),
{
    let zero = zero_bits(a.len() as u32);
    proof {
        lemma_pow2_pos(a@.len());
    }
    if equal_bits(b, &zero) {
        proof {
            assert(bits_nat(a@) * bits_nat(b@) == 0) by (nonlinear_arith)
                requires
                    bits_nat(b@) == 0,
            ;
        }
        return false;
    }
    let ones = not_bits(&zero);
    let bound = div_bits(&ones, b).0;
    proof {
        lemma_product_passes(bits_nat(a@), bits_nat(b@), bits_nat(ones@));
    }
    less_bits(&bound, a)
}

/// A binary operator on two rows.
pub fn apply_bits(op: BinOp, a: &Vec<bool>, b: &Vec<bool>) -> (r: Vec<bool>)
    requires
        op.accepts(a@.len(), b@.len()),
        1 <= a@.len() <= u32::MAX,
        1 <= b@.len() <= u32::MAX,
    ensures
        r@.len() == op.result_width(a@.len(), b@.len()),
        bits_nat(r@) == op.apply(bits_nat(a@), bits_nat(b@), a@.len(), b@.len()),
{
    let w = a.len();
    proof {
        lemma_bits_range(a@);
        lemma_bits_range(b@);
        lemma_top_bit(a@);
        lemma_top_bit(b@);
        lemma_pow2_double(w as nat);
    }
    match op {
        BinOp::Add => sum_bits(a, b).0,
        BinOp::Sub => sub_bits(a, b).0,
        BinOp::Mul => mul_bits(a, b),
        BinOp::Udiv => quotient_bits(a, b),
        BinOp::Urem => remainder_bits(a, b),
        BinOp::Sdiv => {
            let a_negative = a[w - 1];
            let b_negative = b[w - 1];
            if !a_negative && !b_negative {
                quotient_bits(a, b)
            } else if a_negative && !b_negative {
                negate_bits(&quotient_bits(&negate_bits(a), b))
            } else if !a_negative && b_negative {
                negate_bits(&quotient_bits(a, &negate_bits(b)))
            } else {
                quotient_bits(&negate_bits(a), &negate_bits(b))
            }
        },
        BinOp::Srem => {
            let a_negative = a[w - 1];
            let b_negative = b[w - 1];
            if !a_negative && !b_negative {
                remainder_bits(a, b)
            } else if a_negative && !b_negative {
                negate_bits(&remainder_bits(&negate_bits(a), b))
            } else if !a_negative && b_negative {
                remainder_bits(a, &negate_bits(b))
            } else {
                negate_bits(&remainder_bits(&negate_bits(a), &negate_bits(b)))
            }
        },
        BinOp::And => bitwise_bits(Bitwise::And, a, b),
        BinOp::Or => bitwise_bits(Bitwise::Or, a, b),
        BinOp::Xor => bitwise_bits(Bitwise::Xor, a, b),
        BinOp::Sll | BinOp::Srl | BinOp::Sra => shift_bits(op, a, b),
        BinOp::Eq => flag_bits(equal_bits(a, b)),
        BinOp::Ne => flag_bits(!equal_bits(a, b)),
        BinOp::Ugt => flag_bits(less_bits(b, a)),
        BinOp::Ugte => flag_bits(!less_bits(a, b)),
        BinOp::Ult => flag_bits(less_bits(a, b)),
        BinOp::Ulte => flag_bits(!less_bits(b, a)),
        BinOp::Sgt => flag_bits(signed_less_bits(b, a)),
        BinOp::Sgte => flag_bits(!signed_less_bits(a, b)),
        BinOp::Slt => flag_bits(signed_less_bits(a, b)),
        BinOp::Slte => flag_bits(!signed_less_bits(b, a)),
        BinOp::Uaddo => flag_bits(sum_bits(a, b).1),
        BinOp::Saddo => {
            let (sum, carry) = add_bits(a, b, false);
            proof {
                lemma_top_bit(sum@);
                lemma_bits_range(sum@);
                lemma_flag_times(carry, pow2(w as nat));
            }
            flag_bits(a[w - 1] == b[w - 1] && sum[w - 1] != a[w - 1])
        },
        BinOp::Usubo => flag_bits(sub_bits(a, b).1),
        BinOp::Ssubo => {
            let other = not_bits(b);
            let (difference, carry) = add_bits(a, &other, true);
            proof {
                lemma_top_bit(difference@);
                lemma_bits_range(difference@);
                lemma_flag_times(carry, pow2(w as nat));
            }
            flag_bits(a[w - 1] != b[w - 1] && difference[w - 1] != a[w - 1])
        },
        BinOp::Umulo => flag_bits(product_overflows(a, b)),
        BinOp::Smulo => flag_bits(signed_product_overflows(a, b)),
        BinOp::Concat => concat_bits(b, a),
    }
}

/// The value of `t` under `model`, as a row of as many bits as `t` has.
pub fn eval_bits(t: &Term, model: &Model) -> (r: Vec<bool>)
    requires
        t.wf(),
    ensures
        r@.len() == t.width(),
        bits_nat(r@) == t.eval(model@),
    decreases t,
{
    proof {
        lemma_eval_range(t, model@);
        lemma2_to64();
    }
    match t {
        Term::Const { width, value } => {
            proof {
                if *width < 64 {
                    lemma_small_mod(*value as nat, pow2(*width as nat));
                }
            }
            bits_of(*value, *width)
        },
        Term::Symbol { width, id } => {
            let value = model.symbol(*id);
            proof {
                if *width >= 64 {
                    lemma_pow2_monotone(64, *width as nat);
                    lemma_small_mod(value as nat, pow2(*width as nat));
                }
            }
            bits_of(value, *width)
        },
        Term::Not(a) => not_bits(&eval_bits(&**a, model)),
        Term::Uext(a, n) => {
            proof {
                lemma_eval_range(&**a, model@);
            }
            extend_bits(&eval_bits(&**a, model), *n, false)
        },
        Term::Sext(a, n) => {
            proof {
                lemma_eval_range(&**a, model@);
            }
            let row = eval_bits(&**a, model);
            proof {
                lemma_top_bit(row@);
            }
            let negative = row[row.len() - 1];
            extend_bits(&row, *n, negative)
        },
        Term::Slice { of, low, high } => {
            let row = eval_bits(&**of, model);
            slice_bits(&row, *low as usize, *high as usize)
        },
        Term::Binary(op, a, b) => {
            proof {
                lemma_eval_range(&**a, model@);
                lemma_eval_range(&**b, model@);
            }
            let left = eval_bits(&**a, model);
            let right = eval_bits(&**b, model);
            apply_bits(*op, &left, &right)
        },
        Term::Ite { cond, then, otherwise } => {
            let chosen = eval_bits(&**cond, model);
            proof {
                assert(chosen@ =~= seq![chosen@[0]]);
                lemma_bits_single(chosen@[0]);
            }
            if chosen[0] {
                eval_bits(&**then, model)
            } else {
                eval_bits(&**otherwise, model)
            }
        },
        Term::Select(m, at) => {
            proof {
                lemma_eval_range(&**at, model@);
            }
            let address = eval_bits(&**at, model);
            select_bits(&**m, model, &address)
        },
    }
}

/// The cell of `m` under `model` at the address that the row `at` stands
/// for, as a row of eight bits.
pub fn select_bits(m: &Array, model: &Model, at: &Vec<bool>) -> (r: Vec<bool>)
    requires
        m.wf(),
        at@.len() == m.index_width(),
        at@.len() <= u32::MAX,
    ensures
        r@.len() == CELL_BITS,
        bits_nat(r@) == m.select(model@, bits_nat(at@)),
    decreases m,
{
    proof {
        lemma2_to64();
        lemma_bits_range(at@);
    }
    match m {
        Array::Fresh { id, index_width } => {
            let w = at.len();
            let near = if w <= 64 {
                proof {
                    lemma_pow2_monotone(w as nat, 64);
                }
                true
            } else {
                let above = slice_bits(at, 64, w - 1);
                let zero = zero_bits((w - 64) as u32);
                proof {
                    lemma_pow2_adds(64, (w - 64) as nat);
                    lemma_pow2_pos((w - 64) as nat);
                    let x = bits_nat(at@) as int;
                    let p = pow2(64) as int;
                    let q = pow2((w - 64) as nat) as int;
                    assert((x / p) % q == x / p && (x / p == 0) == (x < p)) by (nonlinear_arith)
                        requires
                            0 <= x < p * q,
                            p > 0,
                            q > 0,
                    {
                        assert(x / p < q);
                    }
                }
                equal_bits(&above, &zero)
            };
            if near {
                let k: usize = if w < 64 {
                    w
                } else {
                    64
                };
                let low = slice_bits(at, 0, k - 1);
                proof {
                    let x = bits_nat(at@);
                    assert(x / pow2(0) == x);
                    lemma_small_mod(x, pow2(k as nat));
                }
                let address = value_of(&low);
                let cell = model.cell(*id, address);
                proof {
                    lemma_small_mod(cell as nat, pow2(8));
                }
                bits_of(cell as u64, CELL_BITS)
            } else {
                proof {
                    model.lemma_far_cell(*id, bits_nat(at@));
                    lemma_small_mod(0, pow2(8));
                }
                zero_bits(CELL_BITS)
            }
        },
        Array::Store(inner, to, value) => {
            let written = eval_bits(&**to, model);
            if equal_bits(&written, at) {
                eval_bits(&**value, model)
            } else {
                select_bits(&**inner, model, at)
            }
        },
    }
}

} // verus!
