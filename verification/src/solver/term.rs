use super::arith::{
    all_ones, as_signed, ashr, bit_and, bit_or, bit_xor, extract, flag, in_signed_range, join,
    lemma_bitwise_range, lemma_extract_range, lemma_join_range, lemma_pow2_monotone,
    lemma_sdiv_range, lemma_shift_range, lemma_sign_extend, lemma_srem_range, lemma_udiv_range,
    lemma_urem_range, lemma_wrap_range, lshr, sdiv, shl, sign_extend, srem, udiv, urem, wrap,
};
use std::rc::Rc;
use vstd::arithmetic::power2::{lemma2_to64, lemma_pow2_pos, pow2};
use vstd::prelude::*;

verus! {

/// Width of one memory cell, in bits.
pub const CELL_BITS: u32 = 8;

/// The binary operators of the bit-vector theory.
#[derive(Clone, Copy, Debug, PartialEq, Eq, Structural)]
pub enum BinOp {
    Add,
    Sub,
    Mul,
    Udiv,
    Sdiv,
    Urem,
    Srem,
    And,
    Or,
    Xor,
    Sll,
    Srl,
    Sra,
    Eq,
    Ne,
    Ugt,
    Ugte,
    Ult,
    Ulte,
    Sgt,
    Sgte,
    Slt,
    Slte,
    Uaddo,
    Saddo,
    Usubo,
    Ssubo,
    Umulo,
    Smulo,
    Concat,
}

/// A bit-vector expression.
#[derive(Debug, PartialEq, Eq)]
pub enum Term {
    /// The constant `value` in `width` bits.
    Const { width: u32, value: u64 },
    /// The unknown with the given identifier, of `width` bits.
    Symbol { width: u32, id: u64 },
    /// Bitwise complement.
    Not(Rc<Term>),
    /// Zero extension by the given number of bits.
    Uext(Rc<Term>, u32),
    /// Sign extension by the given number of bits.
    Sext(Rc<Term>, u32),
    /// The bits `low ..= high` of the operand.
    Slice { of: Rc<Term>, low: u32, high: u32 },
    /// A binary operator applied to two operands.
    Binary(BinOp, Rc<Term>, Rc<Term>),
    /// `then` where the one-bit `cond` is set, `otherwise` where it is not.
    Ite { cond: Rc<Term>, then: Rc<Term>, otherwise: Rc<Term> },
    /// The cell of an array at an address.
    Select(Rc<Array>, Rc<Term>),
}

/// An expression for an array of cells addressed by bit-vectors.
#[derive(Debug, PartialEq, Eq)]
pub enum Array {
    /// An array of unknown contents, addressed by `index_width` bits.
    Fresh { id: u64, index_width: u32 },
    /// The array `0` with the cell at address `1` replaced by `2`.
    Store(Rc<Array>, Rc<Term>, Rc<Term>),
}

/// An assignment of values to the unknowns of an expression.
pub struct Env {
    /// Values of the symbols, by identifier.
    pub symbols: Map<u64, nat>,
    /// Contents of the fresh arrays, by identifier and address.
    pub cells: Map<(u64, nat), nat>,
}

impl Env {
    /// The assignment that names nothing.
    pub open spec fn empty() -> Env {
        Env { symbols: Map::empty(), cells: Map::empty() }
    }

    /// The value of symbol `id`; zero where the assignment is silent.
    pub open spec fn symbol(self, id: u64) -> nat {
        if self.symbols.dom().contains(id) {
            self.symbols[id]
        } else {
            0
        }
    }

    /// The cell at `at` of the fresh array `id`; zero where the assignment
    /// is silent.
    pub open spec fn cell(self, id: u64, at: nat) -> nat {
        if self.cells.dom().contains((id, at)) {
            self.cells[(id, at)]
        } else {
            0
        }
    }
}

impl BinOp {
    /// Operators whose result is a single bit.
    pub open spec fn is_predicate(self) -> bool {
        match self {
            BinOp::Eq | BinOp::Ne | BinOp::Ugt | BinOp::Ugte | BinOp::Ult | BinOp::Ulte
            | BinOp::Sgt | BinOp::Sgte | BinOp::Slt | BinOp::Slte | BinOp::Uaddo | BinOp::Saddo
            | BinOp::Usubo | BinOp::Ssubo | BinOp::Umulo | BinOp::Smulo => true,
            _ => false,
        }
    }

    /// Width of the result on operands of `wa` and `wb` bits.
    pub open spec fn result_width(self, wa: nat, wb: nat) -> nat {
        if self.is_predicate() {
            1
        } else if self == BinOp::Concat {
            wa + wb
        } else {
            wa
        }
    }

    /// Whether operands of `wa` and `wb` bits are accepted.
    pub open spec fn accepts(self, wa: nat, wb: nat) -> bool {
        if self == BinOp::Concat {
            wa + wb <= u32::MAX
        } else {
            wa == wb
        }
    }

    /// The value of the operator on `a` of `wa` bits and `b` of `wb` bits.
    pub open spec fn apply(self, a: nat, b: nat, wa: nat, wb: nat) -> nat {
        match self {
            BinOp::Add => wrap((a + b) as int, wa),
            BinOp::Sub => wrap(a - b, wa),
            BinOp::Mul => wrap((a * b) as int, wa),
            BinOp::Udiv => udiv(a, b, wa),
            BinOp::Sdiv => sdiv(a, b, wa),
            BinOp::Urem => urem(a, b),
            BinOp::Srem => srem(a, b, wa),
            BinOp::And => bit_and(a, b, wa),
            BinOp::Or => bit_or(a, b, wa),
            BinOp::Xor => bit_xor(a, b, wa),
            BinOp::Sll => shl(a, b, wa),
            BinOp::Srl => lshr(a, b),
            BinOp::Sra => ashr(a, b, wa),
            BinOp::Eq => flag(a == b),
            BinOp::Ne => flag(a != b),
            BinOp::Ugt => flag(a > b),
            BinOp::Ugte => flag(a >= b),
            BinOp::Ult => flag(a < b),
            BinOp::Ulte => flag(a <= b),
            BinOp::Sgt => flag(as_signed(a, wa) > as_signed(b, wa)),
            BinOp::Sgte => flag(as_signed(a, wa) >= as_signed(b, wa)),
            BinOp::Slt => flag(as_signed(a, wa) < as_signed(b, wa)),
            BinOp::Slte => flag(as_signed(a, wa) <= as_signed(b, wa)),
            BinOp::Uaddo => flag(a + b >= pow2(wa)),
            BinOp::Saddo => flag(!in_signed_range(as_signed(a, wa) + as_signed(b, wa), wa)),
            BinOp::Usubo => flag(a < b),
            BinOp::Ssubo => flag(!in_signed_range(as_signed(a, wa) - as_signed(b, wa), wa)),
            BinOp::Umulo => flag(a * b >= pow2(wa)),
            BinOp::Smulo => flag(!in_signed_range(as_signed(a, wa) * as_signed(b, wa), wa)),
            BinOp::Concat => join(a, b, wb),
        }
    }
}

impl Term {
    /// Number of bits of the expression.
    pub open spec fn width(&self) -> nat
        decreases self,
    {
        match *self {
            Term::Const { width, .. } => width as nat,
            Term::Symbol { width, .. } => width as nat,
            Term::Not(a) => a.width(),
            Term::Uext(a, n) => a.width() + n as nat,
            Term::Sext(a, n) => a.width() + n as nat,
            Term::Slice { low, high, .. } => (high - low + 1) as nat,
            Term::Binary(op, a, b) => op.result_width(a.width(), b.width()),
            Term::Ite { then, .. } => then.width(),
            Term::Select(_, _) => CELL_BITS as nat,
        }
    }

    /// Well-formedness: every width is at least one and fits in 32 bits, and
    /// every operator is applied to operands of the widths it accepts.
    pub open spec fn wf(&self) -> bool
        decreases self,
    {
        match *self {
            Term::Const { width, value } => width >= 1 && (width < 64 ==> value < pow2(
                width as nat,
            )),
            Term::Symbol { width, .. } => width >= 1,
            Term::Not(a) => a.wf(),
            Term::Uext(a, n) => a.wf() && a.width() + n <= u32::MAX,
            Term::Sext(a, n) => a.wf() && a.width() + n <= u32::MAX,
            Term::Slice { of, low, high } => of.wf() && low <= high && high < of.width(),
            Term::Binary(op, a, b) => a.wf() && b.wf() && op.accepts(a.width(), b.width()),
            Term::Ite { cond, then, otherwise } => cond.wf() && then.wf() && otherwise.wf()
                && cond.width() == 1 && then.width() == otherwise.width(),
            Term::Select(m, at) => m.wf() && at.wf() && at.width() == m.index_width(),
        }
    }

    /// The value of the expression under `env`, as an unsigned number.
    pub open spec fn eval(&self, env: Env) -> nat
        decreases self,
    {
        match *self {
            Term::Const { value, .. } => value as nat,
            Term::Symbol { width, id } => env.symbol(id) % pow2(width as nat),
            Term::Not(a) => (all_ones(a.width()) - a.eval(env)) as nat,
            Term::Uext(a, _) => a.eval(env),
            Term::Sext(a, n) => sign_extend(a.eval(env), a.width(), n as nat),
            Term::Slice { of, low, high } => extract(of.eval(env), low as nat, high as nat),
            Term::Binary(op, a, b) => op.apply(a.eval(env), b.eval(env), a.width(), b.width()),
            Term::Ite { cond, then, otherwise } => if cond.eval(env) == 1 {
                then.eval(env)
            } else {
                otherwise.eval(env)
            },
            Term::Select(m, at) => m.select(env, at.eval(env)),
        }
    }

    /// The value of the expression under `env`, read as two's complement.
    pub open spec fn eval_signed(&self, env: Env) -> int {
        as_signed(self.eval(env), self.width())
    }
}

impl Array {
    /// Number of bits of an address.
    pub open spec fn index_width(&self) -> nat
        decreases self,
    {
        match *self {
            Array::Fresh { index_width, .. } => index_width as nat,
            Array::Store(m, _, _) => m.index_width(),
        }
    }

    /// Well-formedness: addresses have the array's index width and stored
    /// values the width of a cell.
    pub open spec fn wf(&self) -> bool
        decreases self,
    {
        match *self {
            Array::Fresh { index_width, .. } => index_width >= 1,
            Array::Store(m, at, value) => m.wf() && at.wf() && value.wf() && at.width()
                == m.index_width() && value.width() == CELL_BITS,
        }
    }

    /// The cell at address `at` under `env`.
    pub open spec fn select(&self, env: Env, at: nat) -> nat
        decreases self,
    {
        match *self {
            Array::Fresh { id, .. } => env.cell(id, at) % pow2(CELL_BITS as nat),
            Array::Store(m, to, value) => if to.eval(env) == at {
                value.eval(env)
            } else {
                m.select(env, at)
            },
        }
    }
}

/// `op` applied to `a` and `b`.
pub open spec fn binary(op: BinOp, a: Term, b: Term) -> Term {
    Term::Binary(op, Rc::new(a), Rc::new(b))
}

/// The bits `low ..= high` of `a`.
pub open spec fn slice(a: Term, low: u32, high: u32) -> Term {
    Term::Slice { of: Rc::new(a), low, high }
}

/// `then` where `cond` is set, `otherwise` where it is not.
pub open spec fn ite(cond: Term, then: Term, otherwise: Term) -> Term {
    Term::Ite { cond: Rc::new(cond), then: Rc::new(then), otherwise: Rc::new(otherwise) }
}

/// Bitwise complement of `a`.
pub open spec fn not(a: Term) -> Term {
    Term::Not(Rc::new(a))
}

/// `a` extended with zeros to `width` bits; `a` itself where it has that
/// width already.
pub open spec fn zero_extended(a: Term, width: u32) -> Term {
    if a.width() == width {
        a
    } else {
        Term::Uext(Rc::new(a), (width - a.width()) as u32)
    }
}

/// `a` extended with copies of its sign bit to `width` bits; `a` itself
/// where it has that width already.
pub open spec fn sign_extended(a: Term, width: u32) -> Term {
    if a.width() == width {
        a
    } else {
        Term::Sext(Rc::new(a), (width - a.width()) as u32)
    }
}

/// The constant zero of `width` bits.
pub open spec fn zero(width: u32) -> Term {
    Term::Const { width, value: 0 }
}

/// The constant one of `width` bits.
pub open spec fn one(width: u32) -> Term {
    Term::Const { width, value: 1 }
}

/// The pattern of `width` ones.
pub open spec fn ones(width: u32) -> Term {
    not(zero(width))
}

/// The least signed value of `width` bits: a one above zeros.
pub open spec fn min_signed(width: u32) -> Term {
    if width <= 1 {
        one(1)
    } else {
        binary(BinOp::Concat, one(1), zero((width - 1) as u32))
    }
}

/// The greatest signed value of `width` bits: a zero above ones.
pub open spec fn max_signed(width: u32) -> Term {
    if width <= 1 {
        zero(1)
    } else {
        binary(BinOp::Concat, zero(1), ones((width - 1) as u32))
    }
}

/// Unsigned saturating sum: all ones where the sum overflows.
pub open spec fn uadds(a: Term, b: Term) -> Term {
    ite(binary(BinOp::Uaddo, a, b), ones(a.width() as u32), binary(BinOp::Add, a, b))
}

/// Signed saturating sum: where the sum overflows, the least value if `a`
/// is negative and the greatest if it is not.
pub open spec fn sadds(a: Term, b: Term) -> Term {
    let w = a.width() as u32;
    let sign = slice(a, (w - 1) as u32, (w - 1) as u32);
    ite(
        binary(BinOp::Saddo, a, b),
        ite(sign, min_signed(w), max_signed(w)),
        binary(BinOp::Add, a, b),
    )
}

/// Another handle to the same shared value. Wraps `Rc::clone`, which makes
/// a new pointer to the same allocation: the value pointed to is the same.
#[verifier::external_body]
pub(crate) fn share<T>(rc: &Rc<T>) -> (r: Rc<T>)
    ensures
        r == *rc,
{
    Rc::clone(rc)
}

// -------------------------------------------------------------------------------------------------
// Values stay within their widths
// -------------------------------------------------------------------------------------------------

/// The result of an operator on patterns of the operands' widths is a
/// pattern of the result's width.
pub proof fn lemma_apply_range(op: BinOp, a: nat, b: nat, wa: nat, wb: nat)
    requires
        a < pow2(wa),
        b < pow2(wb),
        op.accepts(wa, wb),
    ensures
        op.apply(a, b, wa, wb) < pow2(op.result_width(wa, wb)),
{
    lemma2_to64();
    match op {
        BinOp::Add => lemma_wrap_range((a + b) as int, wa),
        BinOp::Sub => lemma_wrap_range(a - b, wa),
        BinOp::Mul => lemma_wrap_range((a * b) as int, wa),
        BinOp::Udiv => lemma_udiv_range(a, b, wa),
        BinOp::Sdiv => lemma_sdiv_range(a, b, wa),
        BinOp::Urem => lemma_urem_range(a, b, wa),
        BinOp::Srem => lemma_srem_range(a, b, wa),
        BinOp::And | BinOp::Or | BinOp::Xor => lemma_bitwise_range(a, b, wa),
        BinOp::Sll | BinOp::Srl | BinOp::Sra => lemma_shift_range(a, b, wa),
        BinOp::Concat => lemma_join_range(a, b, wa, wb),
        _ => {},
    }
}

/// The value of a well-formed expression is a pattern of its width.
pub proof fn lemma_eval_range(t: &Term, env: Env)
    requires
        t.wf(),
    ensures
        t.eval(env) < pow2(t.width()),
        1 <= t.width() <= u32::MAX,
    decreases t,
{
    match t {
        Term::Const { width, value } => {
            if *width >= 64 {
                lemma2_to64();
                lemma_pow2_monotone(64, *width as nat);
            }
        },
        Term::Symbol { width, id } => {
            lemma_pow2_pos(*width as nat);
            let m = pow2(*width as nat) as int;
            let x = env.symbol(*id) as int;
            assert(0 <= x % m < m) by (nonlinear_arith)
                requires
                    m > 0,
            ;
        },
        Term::Not(a) => {
            lemma_eval_range(&**a, env);
        },
        Term::Uext(a, n) => {
            lemma_eval_range(&**a, env);
            lemma_pow2_monotone(a.width(), a.width() + *n as nat);
        },
        Term::Sext(a, n) => {
            lemma_eval_range(&**a, env);
            lemma_sign_extend(a.eval(env), a.width(), *n as nat);
        },
        Term::Slice { of, low, high } => {
            lemma_eval_range(&**of, env);
            lemma_extract_range(of.eval(env), *low as nat, *high as nat);
        },
        Term::Binary(op, a, b) => {
            lemma_eval_range(&**a, env);
            lemma_eval_range(&**b, env);
            lemma_apply_range(*op, a.eval(env), b.eval(env), a.width(), b.width());
        },
        Term::Ite { cond, then, otherwise } => {
            lemma_eval_range(&**then, env);
            lemma_eval_range(&**otherwise, env);
        },
        Term::Select(m, at) => {
            lemma_select_range(&**m, env, at.eval(env));
        },
    }
}

/// Every cell of a well-formed array is a pattern of the cell width.
pub proof fn lemma_select_range(m: &Array, env: Env, at: nat)
    requires
        m.wf(),
    ensures
        m.select(env, at) < pow2(CELL_BITS as nat),
    decreases m,
{
    match m {
        Array::Fresh { id, .. } => {
            lemma_pow2_pos(CELL_BITS as nat);
            let d = pow2(CELL_BITS as nat) as int;
            let x = env.cell(*id, at) as int;
            assert(0 <= x % d < d) by (nonlinear_arith)
                requires
                    d > 0,
            ;
        },
        Array::Store(inner, to, value) => {
            lemma_eval_range(&**value, env);
            lemma_select_range(&**inner, env, at);
        },
    }
}

} // verus!
