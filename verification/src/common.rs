use crate::project::{bit_size_of, Operand, Type};
use crate::solver::bv::BV;
use crate::solver::arith::{extract, lemma_join_split, lemma_wrap_small};
use crate::solver::laws::{lemma_sadds_saturates, lemma_uadds_saturates};
use crate::solver::term::{
    binary, ite, lemma_eval_range, sadds, slice, uadds, BinOp, Env, Term,
};
use vstd::arithmetic::power2::{lemma2_to64, lemma_pow2_adds, lemma_pow2_pos, pow2};
use crate::solver::solved;
use crate::vm::{State, VMError};
use vstd::prelude::*;

verus! {

/// An operation on two values of one width, as it is applied to each lane
/// of two vectors.
#[derive(Debug, Clone, Copy, PartialEq, Eq, Structural)]
pub enum LaneOp {
    /// A binary operator of the bit-vector theory, other than concatenation.
    Binary(BinOp),
    /// The greater of the two, read as unsigned.
    Umax,
    /// The greater of the two, read as signed.
    Smax,
    /// The lesser of the two, read as unsigned.
    Umin,
    /// The lesser of the two, read as signed.
    Smin,
    /// The unsigned saturating sum.
    Uadds,
    /// The signed saturating sum.
    Sadds,
}

impl LaneOp {
    /// Whether the operation takes two values of one width.
    pub open spec fn accepted(self) -> bool {
        self != LaneOp::Binary(BinOp::Concat)
    }

    /// Width of the result on operands of `bits` bits.
    pub open spec fn result_bits(self, bits: nat) -> nat {
        match self {
            LaneOp::Binary(op) => op.result_width(bits, bits),
            _ => bits,
        }
    }

    /// The operation applied to `a` and `b`.
    pub open spec fn term(self, a: Term, b: Term) -> Term {
        match self {
            LaneOp::Binary(op) => binary(op, a, b),
            LaneOp::Umax => ite(binary(BinOp::Ugt, a, b), a, b),
            LaneOp::Smax => ite(binary(BinOp::Sgt, a, b), a, b),
            LaneOp::Umin => ite(binary(BinOp::Ult, a, b), a, b),
            LaneOp::Smin => ite(binary(BinOp::Slt, a, b), a, b),
            LaneOp::Uadds => uadds(a, b),
            LaneOp::Sadds => sadds(a, b),
        }
    }

    /// Whether the operation takes two values of one width.
    pub fn is_accepted(self) -> (b: bool)
        ensures
            b == self.accepted(),
    {
        match self {
            LaneOp::Binary(BinOp::Concat) => false,
            _ => true,
        }
    }

    /// Applies the operation to `a` and `b`.
    pub fn apply(self, a: &BV, b: &BV) -> (r: BV)
        requires
            self.accepted(),
            a@.width() == b@.width(),
        ensures
            r@ == self.term(a@, b@),
            r@.width() == self.result_bits(a@.width()),
    {
        match self {
            LaneOp::Binary(op) => a.binary_op(op, b),
            LaneOp::Umax => a.ugt(b).ite(a, b),
            LaneOp::Smax => a.sgt(b).ite(a, b),
            LaneOp::Umin => a.ult(b).ite(a, b),
            LaneOp::Smin => a.slt(b).ite(a, b),
            LaneOp::Uadds => a.uadds(b),
            LaneOp::Sadds => a.sadds(b),
        }
    }
}

/// Lane `i` of a vector of `bits`-bit lanes: lane zero is in the lowest
/// bits.
pub open spec fn lane(a: Term, i: nat, bits: u32) -> Term {
    slice(a, (i * bits) as u32, (i * bits + bits - 1) as u32)
}

/// `op` applied to each of the first `k` lanes of `a` and `b`, the results
/// put together in the order of the lanes.
pub open spec fn lanewise(op: LaneOp, a: Term, b: Term, bits: u32, k: nat) -> Term
    decreases k,
{
    let top = op.term(lane(a, (k - 1) as nat, bits), lane(b, (k - 1) as nat, bits));
    if k <= 1 {
        op.term(lane(a, 0, bits), lane(b, 0, bits))
    } else {
        binary(BinOp::Concat, top, lanewise(op, a, b, bits, (k - 1) as nat))
    }
}

/// `op` applied to two values of type `ty`: lane by lane for a vector, to
/// the values themselves otherwise.
pub open spec fn binop_term(op: LaneOp, a: Term, b: Term, ty: Type) -> Term {
    match ty {
        Type::Vector { lanes, bits } => lanewise(op, a, b, bits, lanes as nat),
        _ => op.term(a, b),
    }
}

/// Width of what `op` gives on two values of type `ty` and `size` bits.
pub open spec fn binop_bits(op: LaneOp, ty: Type, size: u32) -> nat {
    match ty {
        Type::Vector { lanes, bits } => (lanes * op.result_bits(bits as nat)) as nat,
        _ => op.result_bits(size as nat),
    }
}

/// Whether `op` can be applied to the operands `lhs` and `rhs` as values of
/// type `ty`: the operation takes two values of one width, both operands
/// have a value, the type has a size, and both values have that size.
pub open spec fn binop_defined(
    state: State,
    lhs: Operand,
    rhs: Operand,
    ty: Type,
    op: LaneOp,
) -> bool {
    &&& op.accepted()
    &&& state.term_of(lhs) matches Some(a)
    &&& state.term_of(rhs) matches Some(b)
    &&& bit_size_of(ty, state.mem.ptr_bits()) matches Some(size)
    &&& a.width() == size
    &&& b.width() == size
}

/// Applies `op` to the operands `lhs` and `rhs` as values of type `ty`:
/// for a vector type to each pair of lanes, the results put together in the
/// order of the lanes. Fails with `MalformedInstruction` where the
/// operation cannot be applied.
pub fn binop(state: &State, lhs: &Operand, rhs: &Operand, ty: &Type, op: LaneOp) -> (r: Result<
    BV,
    VMError,
>)
    ensures
        match r {
            Ok(v) => {
                &&& binop_defined(*state, *lhs, *rhs, *ty, op)
                &&& v@ == binop_term(
                    op,
                    state.term_of(*lhs).unwrap(),
                    state.term_of(*rhs).unwrap(),
                    *ty,
                )
                &&& v@.width() == binop_bits(
                    op,
                    *ty,
                    bit_size_of(*ty, state.mem.ptr_bits()).unwrap(),
                )
            },
            Err(e) => e == VMError::MalformedInstruction && !binop_defined(
                *state,
                *lhs,
                *rhs,
                *ty,
                op,
            ),
        },
{
    if !op.is_accepted() {
        return Err(VMError::MalformedInstruction);
    }
    let a = match state.get_var(lhs) {
        Ok(a) => a,
        Err(e) => {
            return Err(e);
        },
    };
    let b = match state.get_var(rhs) {
        Ok(b) => b,
        Err(e) => {
            return Err(e);
        },
    };
    let project = crate::project::Project { ptr_size: state.mem.ptr_size() };
    let size = match project.bit_size(ty) {
        Some(size) => size,
        None => {
            return Err(VMError::MalformedInstruction);
        },
    };
    if a.len() != size || b.len() != size {
        return Err(VMError::MalformedInstruction);
    }
    match ty {
        Type::Vector { lanes, bits } => {
            let lanes = *lanes;
            let bits = *bits;
            proof {
                assert(1 * bits <= lanes * bits) by (nonlinear_arith)
                    requires
                        lanes >= 1,
                ;
            }
            let mut value = op.apply(&a.slice(0, bits - 1), &b.slice(0, bits - 1));
            let mut i: u32 = 1;
            while i < lanes
                invariant
                    1 <= i <= lanes,
                    bits >= 1,
                    lanes * bits <= u32::MAX,
                    op.accepted(),
                    a@.width() == lanes * bits,
                    b@.width() == lanes * bits,
                    value@ == lanewise(op, a@, b@, bits, i as nat),
                    value@.width() == i * op.result_bits(bits as nat),
                    op.result_bits(bits as nat) <= bits,
                decreases lanes - i,
            {
                proof {
                    let rb = op.result_bits(bits as nat) as int;
                    assert(i * bits + bits <= lanes * bits && i * rb + rb <= lanes * bits && (i
                        + 1) * rb == i * rb + rb) by (nonlinear_arith)
                        requires
                            1 <= i < lanes,
                            0 <= rb <= bits,
                    ;
                }
                let low = i * bits;
                let next = op.apply(&a.slice(low, low + bits - 1), &b.slice(low, low + bits - 1));
                value = next.concat(&value);
                i += 1;
            }
            Ok(value)
        },
        _ => Ok(op.apply(&a, &b)),
    }
}

/// The solution that a state gives for an operand. A value that holds no
/// unknown is its own solution, with or without a witness; any other is
/// taken under the witness of the state's solver. `MalformedInstruction`
/// where the operand has no value, `SolverError` where the value is wider
/// than 64 bits, or holds an unknown while the solver holds no witness.
pub open spec fn solution_of(state: State, operand: Operand) -> Result<u64, VMError> {
    match state.term_of(operand) {
        None => Err(VMError::MalformedInstruction),
        Some(t) => match solved(state.solver.witness(), t) {
            Some(v) => Ok(v),
            None => Err(VMError::SolverError),
        },
    }
}

/// A solution for the operand: the one value of a value that holds no
/// unknown, and else its value under the witness that the state's solver
/// holds. Fails with `MalformedInstruction` where the operand has no value,
/// and with `SolverError` where the value is wider than 64 bits, or holds
/// an unknown while the solver holds no witness.
pub fn get_u64_solution_from_operand(state: &State, operand: &Operand) -> (r: Result<u64, VMError>)
    ensures
        r == solution_of(*state, *operand),
{
    let value = match state.get_var(operand) {
        Ok(value) => value,
        Err(e) => {
            return Err(e);
        },
    };
    match state.solver.get_solution(&value) {
        Some(v) => Ok(v),
        None => Err(VMError::SolverError),
    }
}

// -------------------------------------------------------------------------------------------------
// Lanes keep their places
// -------------------------------------------------------------------------------------------------

/// An operation on two well-formed values of one width gives a well-formed
/// value of the width of its result.
pub proof fn lemma_lane_op(op: LaneOp, a: Term, b: Term)
    requires
        op.accepted(),
        a.wf(),
        b.wf(),
        a.width() == b.width(),
    ensures
        op.term(a, b).wf(),
        op.term(a, b).width() == op.result_bits(a.width()),
{
    let env = Env::empty();
    match op {
        LaneOp::Binary(_) => {},
        LaneOp::Umax => {
            let first = binary(BinOp::Ugt, a, b);
            assert(first.wf() && first.width() == 1);
        },
        LaneOp::Smax => {
            let first = binary(BinOp::Sgt, a, b);
            assert(first.wf() && first.width() == 1);
        },
        LaneOp::Umin => {
            let first = binary(BinOp::Ult, a, b);
            assert(first.wf() && first.width() == 1);
        },
        LaneOp::Smin => {
            let first = binary(BinOp::Slt, a, b);
            assert(first.wf() && first.width() == 1);
        },
        LaneOp::Uadds => lemma_uadds_saturates(a, b, env),
        LaneOp::Sadds => lemma_sadds_saturates(a, b, env),
    }
}

/// The bits `low ..= high` of a concatenation, where they lie within its
/// low part, are those bits of the low part.
pub proof fn lemma_extract_low(high_part: nat, low_part: nat, w_low: nat, low: nat, high: nat)
    requires
        low_part < pow2(w_low),
        low <= high < w_low,
    ensures
        extract(high_part * pow2(w_low) + low_part, low, high) == extract(low_part, low, high),
{
    let m = (high - low + 1) as nat;
    let rest = (w_low - low - m) as nat;
    lemma_pow2_pos(low);
    lemma_pow2_pos(m);
    lemma_pow2_pos(rest);
    lemma_pow2_adds(low, (w_low - low) as nat);
    lemma_pow2_adds(m, rest);
    let d = pow2(low) as int;
    let q = pow2(m) as int;
    let r = pow2(rest) as int;
    let h = high_part as int;
    let l = low_part as int;
    // Above bit `low` the high part is a multiple of `2^m`.
    assert(h * (d * (q * r)) + l == (h * r * q) * d + l) by (nonlinear_arith);
    assert(h * r * q >= 0) by (nonlinear_arith)
        requires
            h >= 0,
            r >= 0,
            q >= 0,
    ;
    assert(((h * r * q) * d + l) / d == h * r * q + l / d) by (nonlinear_arith)
        requires
            d > 0,
            l >= 0,
            h * r * q >= 0,
    ;
    vstd::arithmetic::div_mod::lemma_mod_multiples_vanish(h * r, l / d, q);
    assert(h * r * q + l / d == q * (h * r) + l / d) by (nonlinear_arith);
}

/// Lanes keep their places: the bits of lane `i` in what an operation gives
/// on two vectors are what it gives on lane `i` of the two.
pub proof fn lemma_lanewise_lane(
    op: LaneOp,
    a: Term,
    b: Term,
    bits: u32,
    k: nat,
    i: nat,
    env: Env,
)
    requires
        op.accepted(),
        a.wf(),
        b.wf(),
        bits >= 1,
        a.width() == b.width(),
        1 <= k,
        k * bits <= a.width(),
        i < k,
    ensures
        ({
            let rb = op.result_bits(bits as nat);
            let all = lanewise(op, a, b, bits, k);
            &&& all.wf()
            &&& all.width() == k * rb
            &&& extract(all.eval(env), i * rb, (i * rb + rb - 1) as nat) == op.term(
                lane(a, i, bits),
                lane(b, i, bits),
            ).eval(env)
        }),
    decreases k,
{
    let rb = op.result_bits(bits as nat);
    lemma_eval_range(&a, env);
    let last = (k - 1) as nat;
    assert(last * bits + bits <= k * bits && last * rb + rb == k * rb && i * rb + rb <= k * rb)
        by (nonlinear_arith)
        requires
            last + 1 == k,
            i < k,
            rb >= 0,
            bits >= 0,
    ;
    assert(1 <= rb <= bits);
    let x = lane(a, last, bits);
    let y = lane(b, last, bits);
    assert(x.wf() && x.width() == bits);
    assert(y.wf() && y.width() == bits);
    lemma_lane_op(op, x, y);
    let top = op.term(x, y);
    lemma_eval_range(&top, env);
    lemma2_to64();
    if k == 1 {
        assert(extract(top.eval(env), 0, (rb - 1) as nat) == top.eval(env)) by {
            assert(top.eval(env) / pow2(0) == top.eval(env));
            lemma_wrap_small(top.eval(env) as int, rb);
        }
    } else {
        let rest = lanewise(op, a, b, bits, last);
        assert(last * bits <= a.width());
        if i < last {
            lemma_lanewise_lane(op, a, b, bits, last, i, env);
        } else {
            lemma_lanewise_lane(op, a, b, bits, last, 0, env);
        }
        lemma_eval_range(&rest, env);
        let all = binary(BinOp::Concat, top, rest);
        assert(k * rb <= k * bits) by (nonlinear_arith)
            requires
                rb <= bits,
        ;
        assert(all.wf());
        assert(all.eval(env) == BinOp::Concat.apply(top.eval(env), rest.eval(env), rb, last * rb));
        if i < last {
            assert(i * rb + rb <= last * rb) by (nonlinear_arith)
                requires
                    i < last,
                    rb >= 0,
            ;
            lemma_extract_low(
                top.eval(env),
                rest.eval(env),
                last * rb,
                i * rb,
                (i * rb + rb - 1) as nat,
            );
        } else {
            lemma_join_split(top.eval(env), rest.eval(env), last * rb);
            lemma_wrap_small(top.eval(env) as int, rb);
        }
    }
}

} // verus!
