use super::term::{
    binary, ite, lemma_eval_range, max_signed, min_signed, not, one, ones, sadds, share,
    sign_extended, slice, uadds, zero, zero_extended, Array, BinOp, Term, CELL_BITS,
};
use std::rc::Rc;
use vstd::arithmetic::power2::{lemma2_to64, lemma_pow2_pos, lemma_pow2_strictly_increases, pow2};
use vstd::prelude::*;

verus! {

/// A symbolic bit-vector: an expression of a known width.
#[derive(Debug, PartialEq, Eq)]
pub struct BV {
    width: u32,
    term: Rc<Term>,
}

impl View for BV {
    type V = Term;

    closed spec fn view(&self) -> Term {
        *self.term
    }
}

impl Clone for BV {
    fn clone(&self) -> (r: Self)
        ensures
            r@ == self@,
    {
        proof {
            use_type_invariant(self);
        }
        BV { width: self.width, term: share(&self.term) }
    }
}

impl BV {
    #[verifier::type_invariant]
    pub closed spec fn inv(&self) -> bool {
        self.term.wf() && self.width as nat == self.term.width()
    }

    /// Every bit-vector holds a well-formed expression.
    pub proof fn lemma_inv(&self)
        requires
            self.inv(),
        ensures
            self@.wf(),
            1 <= self@.width() <= u32::MAX,
    {
        lemma_eval_range(&self@, arbitrary());
    }

    /// Returns the bitwidth of the [BV].
    pub fn len(&self) -> (w: u32)
        ensures
            w as nat == self@.width(),
            w >= 1,
            self@.wf(),
    {
        proof {
            use_type_invariant(self);
            self.lemma_inv();
        }
        self.width
    }

    /// The expression that the [BV] holds.
    pub fn term(&self) -> (t: &Term)
        ensures
            *t == self@,
            t.wf(),
    {
        proof {
            use_type_invariant(self);
        }
        &*self.term
    }

    /// The value of the [BV] if it is a constant.
    pub fn as_const(&self) -> (c: Option<u64>)
        ensures
            match c {
                Some(v) => self@ matches Term::Const { value, .. } && value == v,
                None => !(self@ is Const),
            },
    {
        match &*self.term {
            Term::Const { value, .. } => Some(*value),
            _ => None,
        }
    }

    // ---------------------------------------------------------------------------------------------
    // Constructors
    // ---------------------------------------------------------------------------------------------

    /// The constant `value` in `width` bits; bits of `value` above `width`
    /// are dropped, and above 64 bits the constant is extended with zeros.
    pub fn from_u64(value: u64, width: u32) -> (r: BV)
        requires
            width >= 1,
        ensures
            r@ == (Term::Const { width, value: truncated(value, width) }),
            r@.width() == width,
            width >= 64 || value < pow2(width as nat) ==> r@ == (Term::Const { width, value }),
    {
        let kept = if width < 64 {
            proof {
                if value < pow2(width as nat) {
                    vstd::arithmetic::div_mod::lemma_small_mod(value as nat, pow2(width as nat));
                }
                lemma_pow2_strictly_increases(width as nat, 64);
                lemma_pow2_pos(width as nat);
                lemma2_to64();
                vstd::bits::lemma_u64_shl_is_mul(1, width as u64);
            }
            value % (1u64 << width)
        } else {
            value
        };
        BV { width, term: Rc::new(Term::Const { width, value: kept }) }
    }

    /// The unknown `id` of `width` bits.
    pub fn symbol(id: u64, width: u32) -> (r: BV)
        requires
            width >= 1,
        ensures
            r@ == (Term::Symbol { width, id }),
            r@.width() == width,
    {
        BV { width, term: Rc::new(Term::Symbol { width, id }) }
    }

    /// The constant zero of `width` bits.
    pub fn zero(width: u32) -> (r: BV)
        requires
            width >= 1,
        ensures
            r@ == zero(width),
            r@.width() == width,
    {
        proof {
            lemma_pow2_pos(width as nat);
        }
        BV { width, term: Rc::new(Term::Const { width, value: 0 }) }
    }

    /// The constant one of `width` bits.
    pub fn one(width: u32) -> (r: BV)
        requires
            width >= 1,
        ensures
            r@ == one(width),
            r@.width() == width,
    {
        proof {
            lemma_pow2_strictly_increases(0, width as nat);
            lemma2_to64();
        }
        BV { width, term: Rc::new(Term::Const { width, value: 1 }) }
    }

    /// The pattern of `width` ones.
    pub fn ones(width: u32) -> (r: BV)
        requires
            width >= 1,
        ensures
            r@ == ones(width),
            r@.width() == width,
    {
        BV::zero(width).not()
    }

    /// The least signed value of `width` bits.
    pub fn min_signed(width: u32) -> (r: BV)
        requires
            width >= 1,
        ensures
            r@ == min_signed(width),
            r@.width() == width,
    {
        if width == 1 {
            BV::one(1)
        } else {
            BV::one(1).concat(&BV::zero(width - 1))
        }
    }

    /// The greatest signed value of `width` bits.
    pub fn max_signed(width: u32) -> (r: BV)
        requires
            width >= 1,
        ensures
            r@ == max_signed(width),
            r@.width() == width,
    {
        if width == 1 {
            BV::zero(1)
        } else {
            BV::zero(1).concat(&BV::ones(width - 1))
        }
    }

    // ---------------------------------------------------------------------------------------------
    // Resizing
    // ---------------------------------------------------------------------------------------------

    /// Zero-extend the current [BV] to the passed bitwidth and return the resulting [BV].
    pub fn zero_ext(&self, width: u32) -> (r: BV)
        requires
            self@.width() <= width,
        ensures
            r@ == zero_extended(self@, width),
            r@.width() == width,
    {
        let len = self.len();
        if len == width {
            self.clone()
        } else {
            BV { width, term: Rc::new(Term::Uext(share(&self.term), width - len)) }
        }
    }

    /// Sign-extend the current [BV] to the passed bidwidth and return the resulting [BV].
    pub fn sign_ext(&self, width: u32) -> (r: BV)
        requires
            self@.width() <= width,
        ensures
            r@ == sign_extended(self@, width),
            r@.width() == width,
    {
        let len = self.len();
        if len == width {
            self.clone()
        } else {
            BV { width, term: Rc::new(Term::Sext(share(&self.term), width - len)) }
        }
    }

    /// Resize the current [BV] to the passed bitwidth and return the resulting [BV].
    ///
    /// If `self.len()` is compared to `width`
    /// - Same: the value is returned.
    /// - Smaller: the value is zero extended to the width.
    /// - Larger: the value is truncated to the width.
    pub fn resize_unsigned(self, width: u32) -> (r: BV)
        requires
            width >= 1,
        ensures
            r@ == resized(self@, width),
            r@.width() == width,
    {
        let len = self.len();
        if len == width {
            self
        } else if len < width {
            self.zero_ext(width)
        } else {
            self.slice(0, width - 1)
        }
    }

    // ---------------------------------------------------------------------------------------------
    // Operations
    // ---------------------------------------------------------------------------------------------

    /// The operator `op` applied to `self` and `other`.
    pub fn binary_op(&self, op: BinOp, other: &BV) -> (r: BV)
        requires
            op.accepts(self@.width(), other@.width()),
        ensures
            r@ == binary(op, self@, other@),
            r@.width() == op.result_width(self@.width(), other@.width()),
    {
        let wa = self.len();
        let wb = other.len();
        let width = match op {
            BinOp::Concat => wa + wb,
            BinOp::Eq | BinOp::Ne | BinOp::Ugt | BinOp::Ugte | BinOp::Ult | BinOp::Ulte
            | BinOp::Sgt | BinOp::Sgte | BinOp::Slt | BinOp::Slte | BinOp::Uaddo | BinOp::Saddo
            | BinOp::Usubo | BinOp::Ssubo | BinOp::Umulo | BinOp::Smulo => 1,
            _ => wa,
        };
        BV { width, term: Rc::new(Term::Binary(op, share(&self.term), share(&other.term))) }
    }

    /// [BV] equality check. Both [BV]s must have the same bidwidth, the result is returned as a
    /// [BV] of width 1.
    pub fn eq(&self, other: &BV) -> (r: BV)
        requires
            self@.width() == other@.width(),
        ensures
            r@ == binary(BinOp::Eq, self@, other@),
            r@.width() == 1,
    {
        self.binary_op(BinOp::Eq, other)
    }

    /// [BV] inequality check, as a [BV] of width 1.
    pub fn ne(&self, other: &BV) -> (r: BV)
        requires
            self@.width() == other@.width(),
        ensures
            r@ == binary(BinOp::Ne, self@, other@),
            r@.width() == 1,
    {
        self.binary_op(BinOp::Ne, other)
    }

    /// Unsigned greater than, as a [BV] of width 1.
    pub fn ugt(&self, other: &BV) -> (r: BV)
        requires
            self@.width() == other@.width(),
        ensures
            r@ == binary(BinOp::Ugt, self@, other@),
            r@.width() == 1,
    {
        self.binary_op(BinOp::Ugt, other)
    }

    /// Unsigned greater than or equal, as a [BV] of width 1.
    pub fn ugte(&self, other: &BV) -> (r: BV)
        requires
            self@.width() == other@.width(),
        ensures
            r@ == binary(BinOp::Ugte, self@, other@),
            r@.width() == 1,
    {
        self.binary_op(BinOp::Ugte, other)
    }

    /// Unsigned less than, as a [BV] of width 1.
    pub fn ult(&self, other: &BV) -> (r: BV)
        requires
            self@.width() == other@.width(),
        ensures
            r@ == binary(BinOp::Ult, self@, other@),
            r@.width() == 1,
    {
        self.binary_op(BinOp::Ult, other)
    }

    /// Unsigned less than or equal, as a [BV] of width 1.
    pub fn ulte(&self, other: &BV) -> (r: BV)
        requires
            self@.width() == other@.width(),
        ensures
            r@ == binary(BinOp::Ulte, self@, other@),
            r@.width() == 1,
    {
        self.binary_op(BinOp::Ulte, other)
    }

    /// Signed greater than, as a [BV] of width 1.
    pub fn sgt(&self, other: &BV) -> (r: BV)
        requires
            self@.width() == other@.width(),
        ensures
            r@ == binary(BinOp::Sgt, self@, other@),
            r@.width() == 1,
    {
        self.binary_op(BinOp::Sgt, other)
    }

    /// Signed greater than or equal, as a [BV] of width 1.
    pub fn sgte(&self, other: &BV) -> (r: BV)
        requires
            self@.width() == other@.width(),
        ensures
            r@ == binary(BinOp::Sgte, self@, other@),
            r@.width() == 1,
    {
        self.binary_op(BinOp::Sgte, other)
    }

    /// Signed less than, as a [BV] of width 1.
    pub fn slt(&self, other: &BV) -> (r: BV)
        requires
            self@.width() == other@.width(),
        ensures
            r@ == binary(BinOp::Slt, self@, other@),
            r@.width() == 1,
    {
        self.binary_op(BinOp::Slt, other)
    }

    /// Signed less than or equal, as a [BV] of width 1.
    pub fn slte(&self, other: &BV) -> (r: BV)
        requires
            self@.width() == other@.width(),
        ensures
            r@ == binary(BinOp::Slte, self@, other@),
            r@.width() == 1,
    {
        self.binary_op(BinOp::Slte, other)
    }

    // ---------------------------------------------------------------------------------------------
    // Binary ops
    // ---------------------------------------------------------------------------------------------

    /// Wrapping sum.
    pub fn add(&self, other: &BV) -> (r: BV)
        requires
            self@.width() == other@.width(),
        ensures
            r@ == binary(BinOp::Add, self@, other@),
            r@.width() == self@.width(),
    {
        self.binary_op(BinOp::Add, other)
    }

    /// Wrapping difference.
    pub fn sub(&self, other: &BV) -> (r: BV)
        requires
            self@.width() == other@.width(),
        ensures
            r@ == binary(BinOp::Sub, self@, other@),
            r@.width() == self@.width(),
    {
        self.binary_op(BinOp::Sub, other)
    }

    /// Wrapping product.
    pub fn mul(&self, other: &BV) -> (r: BV)
        requires
            self@.width() == other@.width(),
        ensures
            r@ == binary(BinOp::Mul, self@, other@),
            r@.width() == self@.width(),
    {
        self.binary_op(BinOp::Mul, other)
    }

    /// Unsigned quotient.
    pub fn udiv(&self, other: &BV) -> (r: BV)
        requires
            self@.width() == other@.width(),
        ensures
            r@ == binary(BinOp::Udiv, self@, other@),
            r@.width() == self@.width(),
    {
        self.binary_op(BinOp::Udiv, other)
    }

    /// Signed quotient.
    pub fn sdiv(&self, other: &BV) -> (r: BV)
        requires
            self@.width() == other@.width(),
        ensures
            r@ == binary(BinOp::Sdiv, self@, other@),
            r@.width() == self@.width(),
    {
        self.binary_op(BinOp::Sdiv, other)
    }

    /// Unsigned remainder.
    pub fn urem(&self, other: &BV) -> (r: BV)
        requires
            self@.width() == other@.width(),
        ensures
            r@ == binary(BinOp::Urem, self@, other@),
            r@.width() == self@.width(),
    {
        self.binary_op(BinOp::Urem, other)
    }

    /// Signed remainder.
    pub fn srem(&self, other: &BV) -> (r: BV)
        requires
            self@.width() == other@.width(),
        ensures
            r@ == binary(BinOp::Srem, self@, other@),
            r@.width() == self@.width(),
    {
        self.binary_op(BinOp::Srem, other)
    }

    // ---------------------------------------------------------------------------------------------
    // Overflowing operations
    // ---------------------------------------------------------------------------------------------

    /// Whether the unsigned sum overflows, as a [BV] of width 1.
    pub fn uaddo(&self, other: &BV) -> (r: BV)
        requires
            self@.width() == other@.width(),
        ensures
            r@ == binary(BinOp::Uaddo, self@, other@),
            r@.width() == 1,
    {
        self.binary_op(BinOp::Uaddo, other)
    }

    /// Whether the signed sum overflows, as a [BV] of width 1.
    pub fn saddo(&self, other: &BV) -> (r: BV)
        requires
            self@.width() == other@.width(),
        ensures
            r@ == binary(BinOp::Saddo, self@, other@),
            r@.width() == 1,
    {
        self.binary_op(BinOp::Saddo, other)
    }

    /// Whether the unsigned difference overflows, as a [BV] of width 1.
    pub fn usubo(&self, other: &BV) -> (r: BV)
        requires
            self@.width() == other@.width(),
        ensures
            r@ == binary(BinOp::Usubo, self@, other@),
            r@.width() == 1,
    {
        self.binary_op(BinOp::Usubo, other)
    }

    /// Whether the signed difference overflows, as a [BV] of width 1.
    pub fn ssubo(&self, other: &BV) -> (r: BV)
        requires
            self@.width() == other@.width(),
        ensures
            r@ == binary(BinOp::Ssubo, self@, other@),
            r@.width() == 1,
    {
        self.binary_op(BinOp::Ssubo, other)
    }

    /// Whether the unsigned product overflows, as a [BV] of width 1.
    pub fn umulo(&self, other: &BV) -> (r: BV)
        requires
            self@.width() == other@.width(),
        ensures
            r@ == binary(BinOp::Umulo, self@, other@),
            r@.width() == 1,
    {
        self.binary_op(BinOp::Umulo, other)
    }

    /// Whether the signed product overflows, as a [BV] of width 1.
    pub fn smulo(&self, other: &BV) -> (r: BV)
        requires
            self@.width() == other@.width(),
        ensures
            r@ == binary(BinOp::Smulo, self@, other@),
            r@.width() == 1,
    {
        self.binary_op(BinOp::Smulo, other)
    }

    // ---------------------------------------------------------------------------------------------
    // Saturating operations
    // ---------------------------------------------------------------------------------------------

    /// Saturated unsigned addition. Adds `self` with `other` and if the result overflows the
    /// maxmium value is returned.
    ///
    /// Requires that `self` and `other` have the same width.
    ///
    /// The returned value is a if-then-else BV, which if the result would overflow is the maximum,
    /// otherwise it is the result.
    pub fn uadds(&self, other: &BV) -> (r: BV)
        requires
            self@.width() == other@.width(),
        ensures
            r@ == uadds(self@, other@),
            r@.width() == self@.width(),
    {
        let result = self.add(other);
        let overflow = self.uaddo(other);
        let saturated = BV::ones(self.len());

        overflow.ite(&saturated, &result)
    }

    /// Saturated signed addition. Adds `self` with `other` and if the result overflows either the
    /// maximum or mimimum value is returned, depending on the sign bit of `self`.
    ///
    /// Requires that `self` and `other` have the same width.
    ///
    /// The returned value is an if-then-else BV, which returns either the maximum or minimum if the
    /// result would overflow, and the result otherwise.
    pub fn sadds(&self, other: &BV) -> (r: BV)
        requires
            self@.width() == other@.width(),
        ensures
            r@ == sadds(self@, other@),
            r@.width() == self@.width(),
    {
        let width = self.len();

        let result = self.add(other);
        let overflow = self.saddo(other);

        // Check the sign bit.
        let is_negative = self.slice(width - 1, width - 1);

        // Minimum value: 1000...0
        let min = BV::min_signed(width);

        // Maximum value: 0111...1
        let max = BV::max_signed(width);

        overflow.ite(&is_negative.ite(&min, &max), &result)
    }

    // ---------------------------------------------------------------------------------------------
    // Logical ops
    // ---------------------------------------------------------------------------------------------

    /// Bitwise complement.
    pub fn not(&self) -> (r: BV)
        ensures
            r@ == not(self@),
            r@.width() == self@.width(),
    {
        proof {
            use_type_invariant(self);
        }
        BV { width: self.width, term: Rc::new(Term::Not(share(&self.term))) }
    }

    /// Bitwise conjunction.
    pub fn and(&self, other: &BV) -> (r: BV)
        requires
            self@.width() == other@.width(),
        ensures
            r@ == binary(BinOp::And, self@, other@),
            r@.width() == self@.width(),
    {
        self.binary_op(BinOp::And, other)
    }

    /// Bitwise disjunction.
    pub fn or(&self, other: &BV) -> (r: BV)
        requires
            self@.width() == other@.width(),
        ensures
            r@ == binary(BinOp::Or, self@, other@),
            r@.width() == self@.width(),
    {
        self.binary_op(BinOp::Or, other)
    }

    /// Bitwise exclusive or.
    pub fn xor(&self, other: &BV) -> (r: BV)
        requires
            self@.width() == other@.width(),
        ensures
            r@ == binary(BinOp::Xor, self@, other@),
            r@.width() == self@.width(),
    {
        self.binary_op(BinOp::Xor, other)
    }

    // ---------------------------------------------------------------------------------------------
    // Shifts
    // ---------------------------------------------------------------------------------------------

    /// Shift left logical
    pub fn sll(&self, other: &BV) -> (r: BV)
        requires
            self@.width() == other@.width(),
        ensures
            r@ == binary(BinOp::Sll, self@, other@),
            r@.width() == self@.width(),
    {
        self.binary_op(BinOp::Sll, other)
    }

    /// Shift right logical
    pub fn srl(&self, other: &BV) -> (r: BV)
        requires
            self@.width() == other@.width(),
        ensures
            r@ == binary(BinOp::Srl, self@, other@),
            r@.width() == self@.width(),
    {
        self.binary_op(BinOp::Srl, other)
    }

    /// Shift right arithmetic
    pub fn sra(&self, other: &BV) -> (r: BV)
        requires
            self@.width() == other@.width(),
        ensures
            r@ == binary(BinOp::Sra, self@, other@),
            r@.width() == self@.width(),
    {
        self.binary_op(BinOp::Sra, other)
    }

    // ---------------------------------------------------------------------------------------------
    // Concat
    // ---------------------------------------------------------------------------------------------

    /// `self` placed above the bits of `other`.
    pub fn concat(&self, other: &BV) -> (r: BV)
        requires
            self@.width() + other@.width() <= u32::MAX,
        ensures
            r@ == binary(BinOp::Concat, self@, other@),
            r@.width() == self@.width() + other@.width(),
    {
        self.binary_op(BinOp::Concat, other)
    }

    /// The bits `low ..= high` of `self`, bit zero being the least.
    pub fn slice(&self, low: u32, high: u32) -> (r: BV)
        requires
            low <= high,
            high < self@.width(),
        ensures
            r@ == slice(self@, low, high),
            r@.width() == high - low + 1,
    {
        proof {
            use_type_invariant(self);
        }
        BV {
            width: high - low + 1,
            term: Rc::new(Term::Slice { of: share(&self.term), low, high }),
        }
    }

    // ---------------------------------------------------------------------------------------------
    // Arrays
    // ---------------------------------------------------------------------------------------------

    /// The cell of `cells` at the address `at`.
    pub fn select(cells: &Rc<Array>, at: &BV) -> (r: BV)
        requires
            cells.wf(),
            at@.width() == cells.index_width(),
        ensures
            r@ == Term::Select(*cells, Rc::new(at@)),
            r@.width() == CELL_BITS,
    {
        proof {
            use_type_invariant(at);
        }
        BV { width: CELL_BITS, term: Rc::new(Term::Select(share(cells), share(&at.term))) }
    }

    /// `cells` with the cell at the address `at` replaced by `value`.
    pub fn store(cells: &Rc<Array>, at: &BV, value: &BV) -> (r: Rc<Array>)
        requires
            cells.wf(),
            at@.width() == cells.index_width(),
            value@.width() == CELL_BITS,
        ensures
            *r == Array::Store(*cells, Rc::new(at@), Rc::new(value@)),
            r.wf(),
            r.index_width() == cells.index_width(),
    {
        proof {
            use_type_invariant(at);
            use_type_invariant(value);
        }
        Rc::new(Array::Store(share(cells), share(&at.term), share(&value.term)))
    }

    // ---------------------------------------------------------------------------------------------
    // Conditionals
    // ---------------------------------------------------------------------------------------------

    /// `then_bv` where the one-bit `self` is set and `else_bv` where it is not.
    pub fn ite(&self, then_bv: &BV, else_bv: &BV) -> (r: BV)
        requires
            self@.width() == 1,
            then_bv@.width() == else_bv@.width(),
        ensures
            r@ == ite(self@, then_bv@, else_bv@),
            r@.width() == then_bv@.width(),
    {
        proof {
            use_type_invariant(self);
            use_type_invariant(then_bv);
            use_type_invariant(else_bv);
        }
        BV {
            width: then_bv.width,
            term: Rc::new(
                Term::Ite {
                    cond: share(&self.term),
                    then: share(&then_bv.term),
                    otherwise: share(&else_bv.term),
                },
            ),
        }
    }
}

/// `value` cut down to its low `width` bits.
pub open spec fn truncated(value: u64, width: u32) -> u64 {
    if width < 64 {
        (value as nat % pow2(width as nat)) as u64
    } else {
        value
    }
}

/// `a` brought to `width` bits: extended with zeros where it is narrower,
/// cut down to its low bits where it is wider.
pub open spec fn resized(a: Term, width: u32) -> Term {
    if a.width() == width {
        a
    } else if a.width() < width {
        zero_extended(a, width)
    } else {
        slice(a, 0, (width - 1) as u32)
    }
}

} // verus!
