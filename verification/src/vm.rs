use crate::memory::{Memory, MemoryError, CHECK_OUT_OF_BOUNDS, MEMORY_ARRAY};
use crate::project::{Operand, Project};
use crate::solver::bv::{truncated, BV};
use crate::solver::term::{not, Array, Env, Term};
use crate::solver::{kept_witness, Solver};
use vstd::prelude::*;

verus! {

/// How a path can end in failure.
#[derive(Debug, Clone, PartialEq, Eq)]
pub enum VMError {
    /// The program breaks what the engine takes for granted of it.
    MalformedInstruction,
    /// An access to memory failed.
    MemoryError(MemoryError),
    /// A call to a function that is neither defined nor modelled.
    UnknownFunction(String),
    /// The analysed program gave up, with the given code.
    Abort(i64),
    /// An instruction that the engine has no model for.
    UnsupportedInstruction,
    /// The solver could not give a solution that was needed.
    SolverError,
}

/// What a path or a call returns.
#[derive(Debug, Clone, PartialEq, Eq)]
pub enum ReturnValue {
    Void,
    Value(BV),
}

impl View for ReturnValue {
    type V = Option<Term>;

    open spec fn view(&self) -> Option<Term> {
        match *self {
            ReturnValue::Void => None,
            ReturnValue::Value(v) => Some(v@),
        }
    }
}

/// What a call gave, with the expression that a returned value holds.
pub open spec fn outcome(r: Result<ReturnValue, VMError>) -> Result<Option<Term>, VMError> {
    match r {
        Ok(v) => Ok(v@),
        Err(e) => Err(e),
    }
}

/// The state of one path: the local values, the memory and the solver
/// with the path's constraints.
pub struct State {
    /// The local values that were bound, in order; of two bindings for one
    /// identifier the later counts.
    pub locals: Vec<(u64, BV)>,
    pub mem: Memory,
    pub solver: Solver,
}

/// The values that a list of bindings gives; of two bindings for one
/// identifier the later counts.
pub open spec fn bound(bindings: Seq<(u64, BV)>) -> Map<u64, Term>
    decreases bindings.len(),
{
    if bindings.len() == 0 {
        Map::empty()
    } else {
        bound(bindings.drop_last()).insert(bindings.last().0, bindings.last().1@)
    }
}

/// The value of `operand` where the local values are `locals`; `None` for
/// a local that has no value and for a constant of no bits.
pub open spec fn operand_term(locals: Map<u64, Term>, operand: Operand) -> Option<Term> {
    match operand {
        Operand::Local(id) => if locals.dom().contains(id) {
            Some(locals[id])
        } else {
            None
        },
        Operand::Constant { value, bits } => if bits >= 1 {
            Some(Term::Const { width: bits, value: truncated(value, bits) })
        } else {
            None
        },
    }
}

impl State {
    /// The local values, by identifier.
    pub open spec fn locals(&self) -> Map<u64, Term> {
        bound(self.locals@)
    }

    /// The value of `operand` in this state.
    pub open spec fn term_of(&self, operand: Operand) -> Option<Term> {
        operand_term(self.locals(), operand)
    }

    /// The state of a path at its start: no local values, an empty memory
    /// with addresses of `ptr_size` bits, and no constraints.
    pub fn new(ptr_size: u32) -> (s: State)
        requires
            1 <= ptr_size <= 64,
        ensures
            s.locals() == Map::<u64, Term>::empty(),
            s.mem.ptr_bits() == ptr_size,
            s.mem.allocations().len() == 0,
            s.mem.cursor() == 1,
            s.mem.checks_bounds() == CHECK_OUT_OF_BOUNDS,
            s.mem.cells() == (Array::Fresh { id: MEMORY_ARRAY, index_width: ptr_size }),
            s.solver@.constraints.len() == 0,
            s.solver@.scopes.len() == 0,
            s.solver.witness() == Some(Env::empty()),
    {
        State { locals: Vec::new(), mem: Memory::new(ptr_size), solver: Solver::new() }
    }

    /// The state of a path that parts from this one: a state of its own
    /// that holds the same. What is then asserted, written or bound on the
    /// one path does not reach the other.
    pub fn fork(&self) -> (s: State)
        ensures
            s.locals() == self.locals(),
            s.mem.same_as(&self.mem),
            s.solver@ == self.solver@,
            s.solver.witness() == self.solver.witness(),
    {
        let mut locals: Vec<(u64, BV)> = Vec::new();
        let mut i: usize = 0;
        while i < self.locals.len()
            invariant
                i <= self.locals.len(),
                locals@.len() == i,
                bound(locals@) == bound(self.locals@.take(i as int)),
            decreases self.locals.len() - i,
        {
            let ghost before = locals@;
            locals.push((self.locals[i].0, self.locals[i].1.clone()));
            proof {
                assert(locals@.drop_last() == before);
                assert(self.locals@.take(i + 1).drop_last() == self.locals@.take(i as int));
            }
            i += 1;
        }
        assert(self.locals@.take(i as int) == self.locals@);
        State { locals, mem: self.mem.clone(), solver: self.solver.clone() }
    }

    /// Binds the local value `id` to `value`; an earlier value of `id` is
    /// replaced.
    pub fn assign(&mut self, id: u64, value: BV)
        ensures
            final(self).locals() == old(self).locals().insert(id, value@),
            final(self).mem == old(self).mem,
            final(self).solver == old(self).solver,
    {
        self.locals.push((id, value));
        assert(self.locals@.drop_last() == old(self).locals@);
    }

    /// The value of `operand`: the value bound to a local, or the
    /// constant. Fails with `MalformedInstruction` for a local that has no
    /// value and for a constant of no bits.
    pub fn get_var(&self, operand: &Operand) -> (r: Result<BV, VMError>)
        ensures
            match r {
                Ok(v) => self.term_of(*operand) == Some(v@) && v@.wf(),
                Err(e) => e == VMError::MalformedInstruction && self.term_of(*operand).is_none(),
            },
    {
        match operand {
            Operand::Constant { value, bits } => {
                if *bits >= 1 {
                    let constant = BV::from_u64(*value, *bits);
                    proof {
                        use_type_invariant(&constant);
                        constant.lemma_inv();
                    }
                    Ok(constant)
                } else {
                    Err(VMError::MalformedInstruction)
                }
            },
            Operand::Local(id) => {
                let mut i: usize = self.locals.len();
                assert(self.locals@.take(i as int) == self.locals@);
                while i > 0
                    invariant
                        i <= self.locals.len(),
                        *operand == Operand::Local(*id),
                        operand_term(bound(self.locals@), Operand::Local(*id)) == operand_term(
                            bound(self.locals@.take(i as int)),
                            Operand::Local(*id),
                        ),
                    decreases i,
                {
                    proof {
                        assert(self.locals@.take(i as int).drop_last() == self.locals@.take(i - 1));
                    }
                    i -= 1;
                    assert(self.locals@.take(i + 1).last() == self.locals@[i as int]);
                    if self.locals[i].0 == *id {
                        let found = self.locals[i].1.clone();
                        proof {
                            use_type_invariant(&found);
                            found.lemma_inv();
                        }
                        assert(bound(self.locals@.take(i + 1))[*id] == found@);
                        return Ok(found);
                    }
                }
                proof {
                    assert(self.locals@.take(0).len() == 0);
                }
                Err(VMError::MalformedInstruction)
            },
        }
    }
}

/// The engine: the project, the state of the path that is being run, and
/// the paths that were set aside at branches, the one set aside last to be
/// taken up first.
pub struct VM {
    pub project: Project,
    pub state: State,
    pub paths: Vec<State>,
}

/// What a solver says of the two sides of a branch: whether the path's
/// constraints can hold together with the condition, and whether they can
/// hold together with its negation.
#[derive(Debug, Clone, Copy, PartialEq, Eq, Structural)]
pub struct Feasible {
    pub on_true: bool,
    pub on_false: bool,
}

/// The side of a branch that a path goes on with.
#[derive(Debug, Clone, Copy, PartialEq, Eq, Structural)]
pub enum Taken {
    /// The side on which the condition holds.
    Then,
    /// The side on which the condition does not hold.
    Otherwise,
    /// No side: the path ends here.
    Neither,
}

/// The sides of a branch on `cond` that a path can take. A condition that
/// holds no unknown decides it by its value; of any other condition the
/// solver's word `told` is taken.
pub open spec fn open_sides(cond: Term, told: Feasible) -> Feasible {
    if cond.closed() && cond.evaluable() {
        Feasible {
            on_true: cond.eval(Env::empty()) == 1,
            on_false: cond.eval(Env::empty()) != 1,
        }
    } else {
        told
    }
}

/// Whether `after` is the state `before` gone on under `constraint`: the
/// same local values and memory, and `constraint` asserted.
pub open spec fn goes_on(before: State, after: State, constraint: Term) -> bool {
    &&& after.locals() == before.locals()
    &&& after.mem.same_as(&before.mem)
    &&& after.solver@ == before.solver@.asserted(constraint)
    &&& after.solver.witness() == kept_witness(before.solver.witness(), constraint)
}

/// A branch on a condition that holds no unknown has one side that can be
/// taken: exactly one path leaves it.
pub proof fn lemma_concrete_branch(cond: Term, told: Feasible)
    requires
        cond.closed(),
        cond.evaluable(),
    ensures
        open_sides(cond, told).on_true != open_sides(cond, told).on_false,
{
}

impl VM {
    /// Whether the project is well formed and the memory is addressed by
    /// pointers of the project's width.
    pub open spec fn consistent(&self) -> bool {
        self.project.wf() && self.state.mem.ptr_bits() == self.project.ptr_size
    }

    /// Whether the project is well formed and the memory is addressed by
    /// pointers of the project's width.
    pub fn is_consistent(&self) -> (b: bool)
        ensures
            b == self.consistent(),
    {
        1 <= self.project.ptr_size && self.project.ptr_size <= 64 && self.state.mem.ptr_size()
            == self.project.ptr_size
    }

    /// An engine for `project`, with one path at its start.
    pub fn new(project: Project) -> (vm: Option<VM>)
        ensures
            vm.is_some() <==> project.wf(),
            vm matches Some(v) ==> {
                &&& v.consistent()
                &&& v.project == project
                &&& v.state.locals() == Map::<u64, Term>::empty()
                &&& v.state.mem.allocations().len() == 0
                &&& v.state.mem.cursor() == 1
                &&& v.state.mem.checks_bounds() == CHECK_OUT_OF_BOUNDS
                &&& v.state.mem.cells() == (Array::Fresh {
                    id: MEMORY_ARRAY,
                    index_width: project.ptr_size,
                })
                &&& v.state.solver@.constraints.len() == 0
                &&& v.state.solver@.scopes.len() == 0
                &&& v.state.solver.witness() == Some(Env::empty())
                &&& v.paths@.len() == 0
            },
    {
        if 1 <= project.ptr_size && project.ptr_size <= 64 {
            Some(VM { project, state: State::new(project.ptr_size), paths: Vec::new() })
        } else {
            None
        }
    }

    /// A conditional branch on the one-bit `cond`. The path goes on with
    /// the side on which `cond` holds where that side can be taken, and
    /// with the other side where only that one can; the condition, or its
    /// negation, is asserted on it. Where both sides can be taken, a state
    /// of its own with the negation asserted is set aside, to be taken up by
    /// [`VM::backtrack`]. Where no side can be taken nothing changes.
    ///
    /// A condition that holds no unknown decides the sides by its value, so
    /// that one side is taken and no path is set aside; of any other
    /// condition the solver's word `told` is taken.
    pub fn branch(&mut self, cond: &BV, told: Feasible) -> (taken: Taken)
        requires
            cond@.width() == 1,
        ensures
            final(self).project == old(self).project,
            ({
                let sides = open_sides(cond@, told);
                &&& taken == (if sides.on_true {
                    Taken::Then
                } else if sides.on_false {
                    Taken::Otherwise
                } else {
                    Taken::Neither
                })
                &&& match taken {
                    Taken::Then => goes_on(old(self).state, final(self).state, cond@),
                    Taken::Otherwise => goes_on(old(self).state, final(self).state, not(cond@)),
                    Taken::Neither => final(self).state == old(self).state,
                }
                &&& if sides.on_true && sides.on_false {
                    &&& final(self).paths@.len() == old(self).paths@.len() + 1
                    &&& final(self).paths@.drop_last() == old(self).paths@
                    &&& goes_on(old(self).state, final(self).paths@.last(), not(cond@))
                } else {
                    final(self).paths@ == old(self).paths@
                }
            }),
            cond@.closed() && cond@.evaluable() ==> taken != Taken::Neither && final(self).paths@
                == old(self).paths@,
    {
        let sides = match cond.constant_value() {
            Some(v) => {
                assert(v as nat == cond@.eval(Env::empty()));
                Feasible { on_true: v == 1, on_false: v != 1 }
            },
            None => told,
        };
        if sides.on_true {
            if sides.on_false {
                let mut other = self.state.fork();
                other.solver.constrain(&cond.not());
                self.paths.push(other);
                assert(self.paths@.drop_last() == old(self).paths@);
            }
            self.state.solver.constrain(cond);
            Taken::Then
        } else if sides.on_false {
            self.state.solver.constrain(&cond.not());
            Taken::Otherwise
        } else {
            Taken::Neither
        }
    }

    /// Takes up the path that was set aside last, in place of the one that
    /// was being run. Returns whether there was one; nothing changes where
    /// there was none.
    pub fn backtrack(&mut self) -> (found: bool)
        ensures
            final(self).project == old(self).project,
            found == (old(self).paths@.len() > 0),
            found ==> final(self).state == old(self).paths@.last() && final(self).paths@ == old(
                self,
            ).paths@.drop_last(),
            !found ==> *final(self) == *old(self),
    {
        if self.paths.len() == 0 {
            return false;
        }
        match self.paths.pop() {
            Some(state) => {
                self.state = state;
                true
            },
            None => false,
        }
    }
}

} // verus!
