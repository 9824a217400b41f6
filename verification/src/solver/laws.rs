use super::arith::{
    all_ones, as_signed, in_signed_range, lemma_join_split, lemma_pow2_double, lemma_sign_extend,
    lemma_signed_range, lemma_wrap_signed, lemma_wrap_small,
    wrap,
};
use super::bv::resized;
use super::term::{
    binary, lemma_eval_range, max_signed, min_signed, ones, sadds, sign_extended, slice, uadds,
    zero_extended, BinOp, Env, Term,
};
use vstd::arithmetic::power2::{lemma2_to64, lemma_pow2_pos, pow2};
use vstd::prelude::*;

verus! {

/// The smaller of two integers.
pub open spec fn min(x: int, y: int) -> int {
    if x <= y {
        x
    } else {
        y
    }
}

/// `v` held between `low` and `high`.
pub open spec fn clamp(v: int, low: int, high: int) -> int {
    if v < low {
        low
    } else if v > high {
        high
    } else {
        v
    }
}

/// The pattern of ones is well formed and is the greatest unsigned value.
pub proof fn lemma_ones(width: u32, env: Env)
    requires
        width >= 1,
    ensures
        ones(width).wf(),
        ones(width).width() == width,
        ones(width).eval(env) == all_ones(width as nat),
{
    lemma_pow2_pos(width as nat);
    let z = Term::Const { width, value: 0 };
    assert(z.wf());
    assert(z.eval(env) == 0);
    assert(ones(width).eval(env) == (all_ones(z.width()) - z.eval(env)) as nat);
}

/// The least signed value is well formed and reads as `-2^(width-1)`.
pub proof fn lemma_min_signed(width: u32, env: Env)
    requires
        width >= 1,
    ensures
        min_signed(width).wf(),
        min_signed(width).width() == width,
        min_signed(width).eval(env) == pow2((width - 1) as nat),
        as_signed(min_signed(width).eval(env), width as nat) == -(pow2((width - 1) as nat) as int),
{
    lemma2_to64();
    lemma_pow2_double(width as nat);
    let hi = Term::Const { width: 1, value: 1 };
    assert(hi.wf() && hi.eval(env) == 1 && hi.width() == 1);
    if width > 1 {
        let lo = Term::Const { width: (width - 1) as u32, value: 0 };
        lemma_pow2_pos((width - 1) as nat);
        assert(lo.wf() && lo.eval(env) == 0 && lo.width() == width - 1);
        let t = binary(BinOp::Concat, hi, lo);
        assert(t.wf());
        assert(t.eval(env) == BinOp::Concat.apply(hi.eval(env), lo.eval(env), 1, lo.width()));
        assert(1 * pow2((width - 1) as nat) == pow2((width - 1) as nat));
    }
}

/// The greatest signed value is well formed and reads as `2^(width-1) - 1`.
pub proof fn lemma_max_signed(width: u32, env: Env)
    requires
        width >= 1,
    ensures
        max_signed(width).wf(),
        max_signed(width).width() == width,
        max_signed(width).eval(env) == pow2((width - 1) as nat) - 1,
        as_signed(max_signed(width).eval(env), width as nat) == pow2((width - 1) as nat) - 1,
{
    lemma2_to64();
    lemma_pow2_double(width as nat);
    let hi = Term::Const { width: 1, value: 0 };
    assert(hi.wf() && hi.eval(env) == 0 && hi.width() == 1);
    if width > 1 {
        let lo = ones((width - 1) as u32);
        lemma_ones((width - 1) as u32, env);
        let t = binary(BinOp::Concat, hi, lo);
        assert(t.wf());
        assert(t.eval(env) == BinOp::Concat.apply(hi.eval(env), lo.eval(env), 1, lo.width()));
        assert(0 * pow2((width - 1) as nat) == 0);
    }
}

/// Unsigned saturating addition gives the sum of the operands where it can
/// be written in their width, and the greatest value of that width where it
/// cannot.
pub proof fn lemma_uadds_saturates(a: Term, b: Term, env: Env)
    requires
        a.wf(),
        b.wf(),
        a.width() == b.width(),
    ensures
        uadds(a, b).wf(),
        uadds(a, b).width() == a.width(),
        uadds(a, b).eval(env) == min(
            (a.eval(env) + b.eval(env)) as int,
            pow2(a.width()) as int - 1,
        ),
{
    let w = a.width();
    lemma_eval_range(&a, env);
    lemma_eval_range(&b, env);
    lemma_ones(w as u32, env);
    let x = a.eval(env);
    let y = b.eval(env);
    let over = binary(BinOp::Uaddo, a, b);
    let sum = binary(BinOp::Add, a, b);
    assert(over.wf() && over.width() == 1);
    assert(sum.wf() && sum.width() == w);
    assert(over.eval(env) == BinOp::Uaddo.apply(x, y, w, w));
    assert(sum.eval(env) == BinOp::Add.apply(x, y, w, w));
    if x + y < pow2(w) {
        lemma_wrap_small((x + y) as int, w);
    }
    let r = uadds(a, b);
    assert(r.wf());
    assert(r.eval(env) == if over.eval(env) == 1 {
        ones(w as u32).eval(env)
    } else {
        sum.eval(env)
    });
}

/// Signed saturating addition gives the sum of the operands, read as two's
/// complement, held between the least and the greatest signed value of
/// their width.
pub proof fn lemma_sadds_saturates(a: Term, b: Term, env: Env)
    requires
        a.wf(),
        b.wf(),
        a.width() == b.width(),
    ensures
        sadds(a, b).wf(),
        sadds(a, b).width() == a.width(),
        sadds(a, b).eval_signed(env) == clamp(
            a.eval_signed(env) + b.eval_signed(env),
            -(pow2((a.width() - 1) as nat) as int),
            pow2((a.width() - 1) as nat) as int - 1,
        ),
{
    let w = a.width();
    let wu = w as u32;
    lemma_eval_range(&a, env);
    lemma_eval_range(&b, env);
    lemma_min_signed(wu, env);
    lemma_max_signed(wu, env);
    lemma_pow2_double(w);
    lemma2_to64();
    let x = a.eval(env);
    let y = b.eval(env);
    let sx = as_signed(x, w);
    let sy = as_signed(y, w);
    lemma_signed_range(x, w);
    lemma_signed_range(y, w);
    let over = binary(BinOp::Saddo, a, b);
    let sum = binary(BinOp::Add, a, b);
    let sign = slice(a, (wu - 1) as u32, (wu - 1) as u32);
    let bound = super::term::ite(sign, min_signed(wu), max_signed(wu));
    assert(over.wf() && over.width() == 1);
    assert(sum.wf() && sum.width() == w);
    assert(sign.wf() && sign.width() == 1);
    assert(bound.wf() && bound.width() == w);
    assert(over.eval(env) == BinOp::Saddo.apply(x, y, w, w));
    assert(sum.eval(env) == BinOp::Add.apply(x, y, w, w));
    // The sign bit of `a`.
    let half = pow2((w - 1) as nat) as int;
    assert(sign.eval(env) == (x / pow2((w - 1) as nat)) % pow2(1));
    let xi = x as int;
    assert((xi / half) % 2 == (if xi >= half { 1int } else { 0int })) by (nonlinear_arith)
        requires
            0 <= xi < 2 * half,
            half >= 1,
    ;
    assert(bound.eval(env) == if sign.eval(env) == 1 {
        min_signed(wu).eval(env)
    } else {
        max_signed(wu).eval(env)
    });
    // The wrapped sum reads as the sum where nothing overflows.
    if in_signed_range(sx + sy, w) {
        assert(wrap(sx + sy, w) == wrap((x + y) as int, w)) by {
            let m = pow2(w) as int;
            let s = sx + sy;
            let u = (x + y) as int;
            assert(s % m == u % m) by (nonlinear_arith)
                requires
                    m > 0,
                    u == s || u == s + m || u == s + 2 * m,
            ;
        }
        lemma_wrap_signed(sx + sy, w);
    }
    let r = sadds(a, b);
    assert(r.wf());
    assert(r.eval(env) == if over.eval(env) == 1 {
        bound.eval(env)
    } else {
        sum.eval(env)
    });
}

/// Zero extension keeps the unsigned value.
pub proof fn lemma_zero_ext_value(a: Term, width: u32, env: Env)
    requires
        a.wf(),
        a.width() <= width,
    ensures
        zero_extended(a, width).wf(),
        zero_extended(a, width).width() == width,
        zero_extended(a, width).eval(env) == a.eval(env),
{
}

/// Sign extension keeps the signed value.
pub proof fn lemma_sign_ext_value(a: Term, width: u32, env: Env)
    requires
        a.wf(),
        a.width() <= width,
    ensures
        sign_extended(a, width).wf(),
        sign_extended(a, width).width() == width,
        sign_extended(a, width).eval_signed(env) == a.eval_signed(env),
{
    lemma_eval_range(&a, env);
    if a.width() != width {
        lemma_sign_extend(a.eval(env), a.width(), (width - a.width()) as nat);
    }
}

/// Resizing to the width an expression already has gives the expression
/// itself; resizing to any width gives that width and the unsigned value
/// modulo `2^width`.
pub proof fn lemma_resize_unsigned(a: Term, width: u32, env: Env)
    requires
        a.wf(),
        width >= 1,
    ensures
        a.width() == width ==> resized(a, width) == a,
        resized(a, width).wf(),
        resized(a, width).width() == width,
        resized(a, width).eval(env) == a.eval(env) % pow2(width as nat),
{
    lemma_eval_range(&a, env);
    lemma2_to64();
    let x = a.eval(env);
    if a.width() <= width {
        super::arith::lemma_pow2_monotone(a.width(), width as nat);
        lemma_wrap_small(x as int, width as nat);
    } else {
        let t = slice(a, 0, (width - 1) as u32);
        assert(t.eval(env) == (x / pow2(0)) % pow2((width - 1 - 0 + 1) as nat));
        assert(x / 1 == x);
    }
}

/// The result of an overflow-reporting operation, the flag placed above the
/// wrapped value: its low bits are the wrapped value and the bit above
/// them is the flag.
pub proof fn lemma_flag_above_value(flag_op: BinOp, value_op: BinOp, a: Term, b: Term, env: Env)
    requires
        a.wf(),
        b.wf(),
        a.width() == b.width(),
        a.width() < u32::MAX,
        flag_op.is_predicate(),
        !value_op.is_predicate(),
        value_op != BinOp::Concat,
    ensures
        ({
            let w = a.width();
            let value = binary(value_op, a, b);
            let flag = binary(flag_op, a, b);
            let both = binary(BinOp::Concat, flag, value);
            &&& both.wf()
            &&& both.width() == w + 1
            &&& both.eval(env) % pow2(w) == value.eval(env)
            &&& both.eval(env) / pow2(w) == flag.eval(env)
        }),
{
    let w = a.width();
    let value = binary(value_op, a, b);
    let flag = binary(flag_op, a, b);
    let both = binary(BinOp::Concat, flag, value);
    assert(value.wf() && value.width() == w);
    assert(flag.wf() && flag.width() == 1);
    lemma_eval_range(&value, env);
    assert(both.eval(env) == BinOp::Concat.apply(flag.eval(env), value.eval(env), 1, w));
    lemma_join_split(flag.eval(env), value.eval(env), w);
}

} // verus!
