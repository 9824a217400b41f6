use super::arith::{
    as_signed, bit_and, bit_or, bit_xor, lemma_join_range, lemma_pow2_double,
    lemma_pow2_monotone, lemma_sign_extend, lshr, negate, shl, udiv, urem,
};
use super::bv::BV;
use super::model::Model;
use super::wide::{bits_nat, eval_bits, value_of};
use super::term::{lemma_apply_range, lemma_eval_range, Array, BinOp, Env, Term, CELL_BITS};
use vstd::arithmetic::power2::{
    lemma2_to64, lemma_pow2_adds, lemma_pow2_pos, lemma_pow2_strictly_increases, pow2,
};
use vstd::prelude::*;

verus! {

/// The widest value that is handed out as a number, in bits.
pub const MAX_EVAL_BITS: u32 = 64;

impl Term {
    /// Whether the value of the expression can be handed out as a number:
    /// it is no wider than 64 bits. Expressions within it may be wider.
    pub open spec fn evaluable(&self) -> bool {
        self.width() <= MAX_EVAL_BITS
    }

    /// Whether neither the expression nor any expression within it is wider
    /// than 64 bits: its value is then computed in machine words.
    pub open spec fn narrow(&self) -> bool
        decreases self,
    {
        self.width() <= MAX_EVAL_BITS && match *self {
            Term::Const { .. } => true,
            Term::Symbol { .. } => true,
            Term::Not(a) => a.narrow(),
            Term::Uext(a, _) => a.narrow(),
            Term::Sext(a, _) => a.narrow(),
            Term::Slice { of, .. } => of.narrow(),
            Term::Binary(_, a, b) => a.narrow() && b.narrow(),
            Term::Ite { cond, then, otherwise } => cond.narrow() && then.narrow()
                && otherwise.narrow(),
            Term::Select(m, at) => m.narrow() && at.narrow(),
        }
    }
}

impl Term {
    /// Whether the expression holds no unknown: no symbol and no cell of
    /// an array.
    pub open spec fn closed(&self) -> bool
        decreases self,
    {
        match *self {
            Term::Const { .. } => true,
            Term::Symbol { .. } => false,
            Term::Not(a) => a.closed(),
            Term::Uext(a, _) => a.closed(),
            Term::Sext(a, _) => a.closed(),
            Term::Slice { of, .. } => of.closed(),
            Term::Binary(_, a, b) => a.closed() && b.closed(),
            Term::Ite { cond, then, otherwise } => cond.closed() && then.closed()
                && otherwise.closed(),
            Term::Select(_, _) => false,
        }
    }

    /// An expression that holds no unknown has one value, whatever is
    /// assigned.
    pub proof fn lemma_closed(&self, one: Env, other: Env)
        requires
            self.closed(),
        ensures
            self.eval(one) == self.eval(other),
        decreases self,
    {
        match self {
            Term::Not(a) => a.lemma_closed(one, other),
            Term::Uext(a, _) => a.lemma_closed(one, other),
            Term::Sext(a, _) => a.lemma_closed(one, other),
            Term::Slice { of, .. } => of.lemma_closed(one, other),
            Term::Binary(_, a, b) => {
                a.lemma_closed(one, other);
                b.lemma_closed(one, other);
            },
            Term::Ite { cond, then, otherwise } => {
                cond.lemma_closed(one, other);
                then.lemma_closed(one, other);
                otherwise.lemma_closed(one, other);
            },
            _ => {},
        }
    }
}

/// Whether `t` holds no unknown.
pub fn is_closed(t: &Term) -> (b: bool)
    ensures
        b == t.closed(),
    decreases t,
{
    match t {
        Term::Const { .. } => true,
        Term::Symbol { .. } => false,
        Term::Not(a) => is_closed(&**a),
        Term::Uext(a, _) => is_closed(&**a),
        Term::Sext(a, _) => is_closed(&**a),
        Term::Slice { of, .. } => is_closed(&**of),
        Term::Binary(_, a, b) => is_closed(&**a) && is_closed(&**b),
        Term::Ite { cond, then, otherwise } => is_closed(&**cond) && is_closed(&**then)
            && is_closed(&**otherwise),
        Term::Select(_, _) => false,
    }
}

impl Array {
    /// Whether nothing within the array is wider than 64 bits: its cells
    /// are then computed in machine words.
    pub open spec fn narrow(&self) -> bool
        decreases self,
    {
        match *self {
            Array::Fresh { index_width, .. } => index_width <= MAX_EVAL_BITS,
            Array::Store(m, at, value) => m.narrow() && at.narrow() && value.narrow(),
        }
    }
}

/// Two to the power `e`.
fn power_of_two(e: u32) -> (r: u128)
    requires
        e <= 64,
    ensures
        r == pow2(e as nat),
        1 <= r <= 0x1_0000_0000_0000_0000,
{
    proof {
        lemma2_to64();
        lemma_pow2_pos(e as nat);
        lemma_pow2_monotone(e as nat, 64);
    }
    if e == 64 {
        0x1_0000_0000_0000_0000u128
    } else {
        proof {
            lemma_pow2_strictly_increases(e as nat, 64);
            vstd::bits::lemma_u64_shl_is_mul(1, e as u64);
        }
        (1u64 << e) as u128
    }
}

/// The signed reading of the `w`-bit pattern `a`.
fn signed_value(a: u64, w: u32) -> (r: i128)
    requires
        1 <= w <= 64,
        a < pow2(w as nat),
    ensures
        r == as_signed(a as nat, w as nat),
        -0x8000_0000_0000_0000 <= r < 0x8000_0000_0000_0000,
{
    proof {
        lemma_pow2_double(w as nat);
        lemma2_to64();
        vstd::arithmetic::power2::lemma2_to64_rest();
        lemma_pow2_monotone((w - 1) as nat, 63);
    }
    let half = power_of_two(w - 1);
    if a as u128 >= half {
        a as i128 - power_of_two(w) as i128
    } else {
        a as i128
    }
}

/// Whether `v` can be written in `w` bits of two's complement.
fn fits_signed(v: i128, w: u32) -> (r: bool)
    requires
        1 <= w <= 64,
    ensures
        r == super::arith::in_signed_range(v as int, w as nat),
{
    let half = power_of_two(w - 1) as i128;
    -half <= v && v < half
}

/// Two's-complement negation within `w` bits.
fn negated(x: u64, w: u32) -> (r: u64)
    requires
        1 <= w <= 64,
        x < pow2(w as nat),
    ensures
        r == negate(x as nat, w as nat),
        r < pow2(w as nat),
{
    let m = power_of_two(w);
    proof {
        let mi = m as int;
        let xi = x as int;
        assert((mi - xi) % mi == (-xi) % mi) by (nonlinear_arith)
            requires
                mi > 0,
        ;
        assert(0 <= (mi - xi) % mi < mi) by (nonlinear_arith)
            requires
                mi > 0,
        ;
    }
    ((m - x as u128) % m) as u64
}

fn unsigned_quotient(a: u64, b: u64, w: u32) -> (r: u64)
    requires
        1 <= w <= 64,
        a < pow2(w as nat),
    ensures
        r == udiv(a as nat, b as nat, w as nat),
        r < pow2(w as nat),
{
    proof {
        super::arith::lemma_udiv_range(a as nat, b as nat, w as nat);
    }
    if b == 0 {
        (power_of_two(w) - 1) as u64
    } else {
        a / b
    }
}

fn unsigned_remainder(a: u64, b: u64) -> (r: u64)
    ensures
        r == urem(a as nat, b as nat),
{
    if b == 0 {
        a
    } else {
        a % b
    }
}

/// The operators of arithmetic on two `w`-bit patterns.
fn arithmetic(op: BinOp, a: u64, b: u64, w: u32) -> (r: u64)
    requires
        1 <= w <= 64,
        a < pow2(w as nat),
        b < pow2(w as nat),
        op is Add || op is Sub || op is Mul || op is Udiv || op is Sdiv || op is Urem
            || op is Srem,
    ensures
        r == op.apply(a as nat, b as nat, w as nat, w as nat),
{
    let m = power_of_two(w);
    let half = power_of_two(w - 1);
    proof {
        lemma_apply_range(op, a as nat, b as nat, w as nat, w as nat);
        super::arith::lemma_urem_range(a as nat, b as nat, w as nat);
    }
    match op {
        BinOp::Add => ((a as u128 + b as u128) % m) as u64,
        BinOp::Sub => {
            proof {
                let mi = m as int;
                let d = a as int - b as int;
                assert((d + mi) % mi == d % mi) by (nonlinear_arith)
                    requires
                        mi > 0,
                ;
            }
            ((a as u128 + m - b as u128) % m) as u64
        },
        BinOp::Mul => {
            proof {
                assert(a as int * b as int <= 0xffff_ffff_ffff_ffff * 0xffff_ffff_ffff_ffff)
                    by (nonlinear_arith)
                    requires
                        0 <= a as int <= 0xffff_ffff_ffff_ffff,
                        0 <= b as int <= 0xffff_ffff_ffff_ffff,
                ;
            }
            ((a as u128 * b as u128) % m) as u64
        },
        BinOp::Udiv => unsigned_quotient(a, b, w),
        BinOp::Urem => unsigned_remainder(a, b),
        BinOp::Sdiv => {
            let a_neg = a as u128 >= half;
            let b_neg = b as u128 >= half;
            if !a_neg && !b_neg {
                unsigned_quotient(a, b, w)
            } else if a_neg && !b_neg {
                negated(unsigned_quotient(negated(a, w), b, w), w)
            } else if !a_neg && b_neg {
                negated(unsigned_quotient(a, negated(b, w), w), w)
            } else {
                unsigned_quotient(negated(a, w), negated(b, w), w)
            }
        },
        _ => {
            let a_neg = a as u128 >= half;
            let b_neg = b as u128 >= half;
            proof {
                super::arith::lemma_urem_range(negate(a as nat, w as nat), b as nat, w as nat);
                super::arith::lemma_urem_range(
                    negate(a as nat, w as nat),
                    negate(b as nat, w as nat),
                    w as nat,
                );
            }
            if !a_neg && !b_neg {
                unsigned_remainder(a, b)
            } else if a_neg && !b_neg {
                negated(unsigned_remainder(negated(a, w), b), w)
            } else if !a_neg && b_neg {
                unsigned_remainder(a, negated(b, w))
            } else {
                negated(unsigned_remainder(negated(a, w), negated(b, w)), w)
            }
        },
    }
}

/// On 64-bit patterns the bitwise operations of the machine are those of
/// the theory.
proof fn lemma_bitwise_machine(a: u64, b: u64, w: nat)
    requires
        w <= 64,
        a < pow2(w),
        b < pow2(w),
    ensures
        bit_and(a as nat, b as nat, w) == a & b,
        bit_or(a as nat, b as nat, w) == a | b,
        bit_xor(a as nat, b as nat, w) == a ^ b,
    decreases w,
{
    lemma2_to64();
    if w == 0 {
        assert(0u64 & 0u64 == 0 && 0u64 | 0u64 == 0 && 0u64 ^ 0u64 == 0) by (bit_vector);
    } else {
        lemma_pow2_double(w);
        let ha = a / 2;
        let hb = b / 2;
        lemma_bitwise_machine(ha, hb, (w - 1) as nat);
        let la = a % 2;
        let lb = b % 2;
        assert((a & b) == 2 * ((a / 2) & (b / 2)) + ((a % 2) & (b % 2))) by (bit_vector);
        assert((a | b) == 2 * ((a / 2) | (b / 2)) + ((a % 2) | (b % 2))) by (bit_vector);
        assert((a ^ b) == 2 * ((a / 2) ^ (b / 2)) + ((a % 2) ^ (b % 2))) by (bit_vector);
        assert(la & lb == (if la == 1 && lb == 1 { 1u64 } else { 0u64 })) by (bit_vector)
            requires
                la < 2,
                lb < 2,
        ;
        assert(la | lb == (if la == 1 || lb == 1 { 1u64 } else { 0u64 })) by (bit_vector)
            requires
                la < 2,
                lb < 2,
        ;
        assert(la ^ lb == (if (la == 1) != (lb == 1) { 1u64 } else { 0u64 })) by (bit_vector)
            requires
                la < 2,
                lb < 2,
        ;
    }
}

/// The bitwise operators on two `w`-bit patterns.
fn bitwise(op: BinOp, a: u64, b: u64, w: u32) -> (r: u64)
    requires
        1 <= w <= 64,
        a < pow2(w as nat),
        b < pow2(w as nat),
        op is And || op is Or || op is Xor,
    ensures
        r == op.apply(a as nat, b as nat, w as nat, w as nat),
{
    proof {
        lemma_bitwise_machine(a, b, w as nat);
    }
    match op {
        BinOp::And => a & b,
        BinOp::Or => a | b,
        _ => a ^ b,
    }
}

/// A pattern shifted out of its width leaves nothing behind.
pub proof fn lemma_shift_out(a: nat, s: nat, w: nat)
    requires
        a < pow2(w),
        s >= w,
    ensures
        shl(a, s, w) == 0,
        lshr(a, s) == 0,
{
    lemma_pow2_adds(w, (s - w) as nat);
    lemma_pow2_pos(w);
    lemma_pow2_pos((s - w) as nat);
    lemma_pow2_monotone(w, s);
    let m = pow2(w) as int;
    let k = pow2((s - w) as nat) as int;
    let x = a as int;
    assert(x * (m * k) == (x * k) * m) by (nonlinear_arith);
    vstd::arithmetic::div_mod::lemma_mod_multiples_basic(x * k, m);
    let d = pow2(s) as int;
    assert(x / d == 0) by (nonlinear_arith)
        requires
            0 <= x < d,
    ;
}

/// The shifts of a `w`-bit pattern by the amount `s`.
fn shift(op: BinOp, a: u64, s: u64, w: u32) -> (r: u64)
    requires
        1 <= w <= 64,
        a < pow2(w as nat),
        op is Sll || op is Srl || op is Sra,
    ensures
        r == op.apply(a as nat, s as nat, w as nat, w as nat),
{
    let m = power_of_two(w);
    let half = power_of_two(w - 1);
    proof {
        super::arith::lemma_shift_range(a as nat, s as nat, w as nat);
        if s >= w {
            lemma_shift_out(a as nat, s as nat, w as nat);
            lemma_shift_out((m - 1 - a) as nat, s as nat, w as nat);
        }
    }
    match op {
        BinOp::Sll => {
            if s >= w as u64 {
                0
            } else {
                let d = power_of_two(s as u32);
                proof {
                    assert(a as int * d as int <= 0xffff_ffff_ffff_ffff * 0x1_0000_0000_0000_0000)
                        by (nonlinear_arith)
                        requires
                            0 <= a as int <= 0xffff_ffff_ffff_ffff,
                            0 <= d as int <= 0x1_0000_0000_0000_0000,
                    ;
                }
                ((a as u128 * d) % m) as u64
            }
        },
        BinOp::Srl => {
            if s >= w as u64 {
                0
            } else {
                (a as u128 / power_of_two(s as u32)) as u64
            }
        },
        _ => {
            let negative = a as u128 >= half;
            if negative {
                let rest = m - 1 - a as u128;
                let moved = if s >= w as u64 {
                    0
                } else {
                    rest / power_of_two(s as u32)
                };
                (m - 1 - moved) as u64
            } else if s >= w as u64 {
                0
            } else {
                (a as u128 / power_of_two(s as u32)) as u64
            }
        },
    }
}

/// The operators that give one bit, on two `w`-bit patterns.
fn predicate(op: BinOp, a: u64, b: u64, w: u32) -> (r: u64)
    requires
        1 <= w <= 64,
        a < pow2(w as nat),
        b < pow2(w as nat),
        op.is_predicate(),
    ensures
        r == op.apply(a as nat, b as nat, w as nat, w as nat),
{
    let m = power_of_two(w);
    let holds = match op {
        BinOp::Eq => a == b,
        BinOp::Ne => a != b,
        BinOp::Ugt => a > b,
        BinOp::Ugte => a >= b,
        BinOp::Ult => a < b,
        BinOp::Ulte => a <= b,
        BinOp::Sgt => signed_value(a, w) > signed_value(b, w),
        BinOp::Sgte => signed_value(a, w) >= signed_value(b, w),
        BinOp::Slt => signed_value(a, w) < signed_value(b, w),
        BinOp::Slte => signed_value(a, w) <= signed_value(b, w),
        BinOp::Uaddo => a as u128 + b as u128 >= m,
        BinOp::Saddo => !fits_signed(signed_value(a, w) + signed_value(b, w), w),
        BinOp::Usubo => a < b,
        BinOp::Ssubo => !fits_signed(signed_value(a, w) - signed_value(b, w), w),
        BinOp::Umulo => {
            proof {
                assert(a as int * b as int <= 0xffff_ffff_ffff_ffff * 0xffff_ffff_ffff_ffff)
                    by (nonlinear_arith)
                    requires
                        0 <= a as int <= 0xffff_ffff_ffff_ffff,
                        0 <= b as int <= 0xffff_ffff_ffff_ffff,
                ;
            }
            a as u128 * b as u128 >= m
        },
        _ => {
            let x = signed_value(a, w);
            let y = signed_value(b, w);
            proof {
                let xi = x as int;
                let yi = y as int;
                assert(-0x8000_0000_0000_0000 * 0x8000_0000_0000_0000 <= xi * yi
                    <= 0x8000_0000_0000_0000 * 0x8000_0000_0000_0000) by (nonlinear_arith)
                    requires
                        -0x8000_0000_0000_0000 <= xi <= 0x8000_0000_0000_0000,
                        -0x8000_0000_0000_0000 <= yi <= 0x8000_0000_0000_0000,
                ;
            }
            !fits_signed(x * y, w)
        },
    };
    if holds {
        1
    } else {
        0
    }
}

/// Any operator but concatenation, on two `w`-bit patterns.
fn apply(op: BinOp, a: u64, b: u64, w: u32) -> (r: u64)
    requires
        1 <= w <= 64,
        a < pow2(w as nat),
        b < pow2(w as nat),
        op != BinOp::Concat,
    ensures
        r == op.apply(a as nat, b as nat, w as nat, w as nat),
{
    match op {
        BinOp::Add | BinOp::Sub | BinOp::Mul | BinOp::Udiv | BinOp::Sdiv | BinOp::Urem
        | BinOp::Srem => arithmetic(op, a, b, w),
        BinOp::And | BinOp::Or | BinOp::Xor => bitwise(op, a, b, w),
        BinOp::Sll | BinOp::Srl | BinOp::Sra => shift(op, a, b, w),
        _ => predicate(op, a, b, w),
    }
}

/// The value and the width of `t` under `model`, computed in machine
/// words where nothing within `t` is wider than 64 bits.
pub fn eval_term(t: &Term, model: &Model) -> (r: Option<(u64, u32)>)
    requires
        t.wf(),
    ensures
        r.is_some() <==> t.narrow(),
        r matches Some((v, w)) ==> v as nat == t.eval(model@) && w as nat == t.width(),
    decreases t,
{
    proof {
        lemma_eval_range(t, model@);
        lemma2_to64();
    }
    match t {
        Term::Const { width, value } => {
            if *width <= 64 {
                Some((*value, *width))
            } else {
                None
            }
        },
        Term::Symbol { width, id } => {
            if *width <= 64 {
                let m = power_of_two(*width);
                Some(((model.symbol(*id) as u128 % m) as u64, *width))
            } else {
                None
            }
        },
        Term::Not(a) => {
            proof {
                lemma_eval_range(&**a, model@);
            }
            match eval_term(&**a, model) {
                Some((x, w)) => Some(((power_of_two(w) - 1 - x as u128) as u64, w)),
                None => None,
            }
        },
        Term::Uext(a, n) => {
            proof {
                lemma_eval_range(&**a, model@);
            }
            match eval_term(&**a, model) {
                Some((x, w)) => {
                    if *n <= 64 - w {
                        Some((x, w + *n))
                    } else {
                        None
                    }
                },
                None => None,
            }
        },
        Term::Sext(a, n) => {
            proof {
                lemma_eval_range(&**a, model@);
            }
            match eval_term(&**a, model) {
                Some((x, w)) => {
                    if *n <= 64 - w {
                        proof {
                            lemma_sign_extend(x as nat, w as nat, *n as nat);
                            lemma_pow2_adds(w as nat, *n as nat);
                            lemma_pow2_monotone(w as nat, (w + *n) as nat);
                        }
                        let v = if x as u128 >= power_of_two(w - 1) {
                            x as u128 + power_of_two(w + *n) - power_of_two(w)
                        } else {
                            x as u128
                        };
                        Some((v as u64, w + *n))
                    } else {
                        None
                    }
                },
                None => None,
            }
        },
        Term::Slice { of, low, high } => {
            proof {
                lemma_eval_range(&**of, model@);
            }
            match eval_term(&**of, model) {
                Some((x, w)) => {
                    let n = *high - *low + 1;
                    let v = (x as u128 / power_of_two(*low)) % power_of_two(n);
                    Some((v as u64, n))
                },
                None => None,
            }
        },
        Term::Binary(op, a, b) => {
            proof {
                lemma_eval_range(&**a, model@);
                lemma_eval_range(&**b, model@);
            }
            let left = eval_term(&**a, model);
            let right = eval_term(&**b, model);
            match (left, right) {
                (Some((x, wa)), Some((y, wb))) => {
                    match op {
                        BinOp::Concat => {
                            if wb <= 64 - wa {
                                proof {
                                    lemma_join_range(x as nat, y as nat, wa as nat, wb as nat);
                                    lemma_pow2_monotone((wa + wb) as nat, 64);
                                    lemma_pow2_monotone(wb as nat, 64);
                                    let d = pow2(wb as nat) as int;
                                    assert(x as int * d <= 0xffff_ffff_ffff_ffff
                                        * 0x1_0000_0000_0000_0000) by (nonlinear_arith)
                                        requires
                                            0 <= x as int <= 0xffff_ffff_ffff_ffff,
                                            0 <= d <= 0x1_0000_0000_0000_0000,
                                    ;
                                }
                                let v = x as u128 * power_of_two(wb) + y as u128;
                                Some((v as u64, wa + wb))
                            } else {
                                None
                            }
                        },
                        BinOp::Eq | BinOp::Ne | BinOp::Ugt | BinOp::Ugte | BinOp::Ult
                        | BinOp::Ulte | BinOp::Sgt | BinOp::Sgte | BinOp::Slt | BinOp::Slte
                        | BinOp::Uaddo | BinOp::Saddo | BinOp::Usubo | BinOp::Ssubo
                        | BinOp::Umulo | BinOp::Smulo => Some((apply(*op, x, y, wa), 1)),
                        _ => Some((apply(*op, x, y, wa), wa)),
                    }
                },
                _ => None,
            }
        },
        Term::Ite { cond, then, otherwise } => {
            let c = eval_term(&**cond, model);
            let x = eval_term(&**then, model);
            let y = eval_term(&**otherwise, model);
            match (c, x, y) {
                (Some((c, _)), Some((x, w)), Some((y, _))) => {
                    if c == 1 {
                        Some((x, w))
                    } else {
                        Some((y, w))
                    }
                },
                _ => None,
            }
        },
        Term::Select(m, at) => {
            proof {
                lemma_eval_range(&**at, model@);
            }
            match eval_term(&**at, model) {
                Some((address, _)) => {
                    match eval_select(&**m, model, address) {
                        Some(cell) => Some((cell, CELL_BITS)),
                        None => None,
                    }
                },
                None => {
                    None
                },
            }
        },
    }
}

/// The cell at `at` of the array `m` under `model`, computed in machine
/// words where nothing within `m` is wider than 64 bits.
pub fn eval_select(m: &Array, model: &Model, at: u64) -> (r: Option<u64>)
    requires
        m.wf(),
    ensures
        r.is_some() <==> m.narrow(),
        r matches Some(v) ==> v as nat == m.select(model@, at as nat),
    decreases m,
{
    match m {
        Array::Fresh { id, index_width } => {
            if *index_width <= 64 {
                proof {
                    lemma2_to64();
                }
                Some(model.cell(*id, at) as u64)
            } else {
                None
            }
        },
        Array::Store(inner, to, value) => {
            let below = eval_select(&**inner, model, at);
            let address = eval_term(&**to, model);
            let stored = eval_term(&**value, model);
            match (below, address, stored) {
                (Some(old), Some((address, _)), Some((stored, _))) => {
                    if address == at {
                        Some(stored)
                    } else {
                        Some(old)
                    }
                },
                _ => None,
            }
        },
    }
}

impl BV {
    /// The one value of a [BV] that holds no unknown. `None` where it holds
    /// one, or where it is wider than 64 bits.
    pub fn constant_value(&self) -> (r: Option<u64>)
        ensures
            r.is_some() <==> self@.closed() && self@.evaluable(),
            r matches Some(v) ==> forall|env: Env| v as nat == #[trigger] self@.eval(env),
    {
        if !is_closed(self.term()) {
            return None;
        }
        let nothing = Model::new();
        let r = self.get_solution(&nothing);
        proof {
            assert forall|env: Env| self@.eval(nothing@) == #[trigger] self@.eval(env) by {
                self@.lemma_closed(nothing@, env);
            }
        }
        r
    }

    /// A solution for the [BV]: its value under `model`. `None` where it is
    /// wider than 64 bits; expressions within it may be of any width.
    pub fn get_solution(&self, model: &Model) -> (r: Option<u64>)
        ensures
            r.is_some() <==> self@.evaluable(),
            r matches Some(v) ==> v as nat == self@.eval(model@),
    {
        match eval_term(self.term(), model) {
            Some((v, _)) => Some(v),
            None => {
                if self.len() <= MAX_EVAL_BITS {
                    Some(value_of(&eval_bits(self.term(), model)))
                } else {
                    None
                }
            },
        }
    }

    /// The value of the [BV] under `model`, bit by bit, the lowest bit
    /// first: for a [BV] of any width.
    pub fn get_bits(&self, model: &Model) -> (r: Vec<bool>)
        ensures
            r@.len() == self@.width(),
            bits_nat(r@) == self@.eval(model@),
    {
        eval_bits(self.term(), model)
    }
}

} // verus!
