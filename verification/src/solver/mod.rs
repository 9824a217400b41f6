pub mod arith;
pub mod bv;
pub mod eval;
pub mod laws;
pub mod model;
pub mod term;
pub mod wide;

use bv::BV;
use model::Model;
use term::{Env, Term};
use vstd::prelude::*;

verus! {

/// What a solver holds: the constraints asserted on the path, in order,
/// and for each open scope the number of constraints that were there when
/// it was opened.
pub struct Assertions {
    pub constraints: Seq<Term>,
    pub scopes: Seq<nat>,
}

impl Assertions {
    /// With a new scope opened.
    pub open spec fn pushed(self) -> Assertions {
        Assertions {
            constraints: self.constraints,
            scopes: self.scopes.push(self.constraints.len()),
        }
    }

    /// With `constraint` asserted.
    pub open spec fn asserted(self, constraint: Term) -> Assertions {
        Assertions { constraints: self.constraints.push(constraint), scopes: self.scopes }
    }

    /// With every one of `constraints` asserted, in order.
    pub open spec fn asserted_all(self, constraints: Seq<Term>) -> Assertions
        decreases constraints.len(),
    {
        if constraints.len() == 0 {
            self
        } else {
            self.asserted_all(constraints.drop_last()).asserted(constraints.last())
        }
    }

    /// With the innermost scope closed: the constraints asserted since it
    /// was opened are gone. Unchanged where no scope is open.
    pub open spec fn popped(self) -> Assertions {
        if self.scopes.len() == 0 {
            self
        } else {
            Assertions {
                constraints: self.constraints.take(self.scopes.last() as int),
                scopes: self.scopes.drop_last(),
            }
        }
    }

    /// Every scope was opened at a length that the constraints still have,
    /// and later scopes at no lesser length than earlier ones.
    pub open spec fn wf(self) -> bool {
        &&& forall|i: int|
            0 <= i < self.constraints.len() ==> (#[trigger] self.constraints[i]).wf()
                && self.constraints[i].width() == 1
        &&& forall|j: int|
            0 <= j < self.scopes.len() ==> #[trigger] self.scopes[j] <= self.constraints.len()
        &&& forall|j: int, k: int|
            0 <= j <= k < self.scopes.len() ==> self.scopes[j] <= self.scopes[k]
    }

    /// Whether every constraint holds under `env`.
    pub open spec fn satisfied_by(self, env: Env) -> bool {
        forall|i: int|
            0 <= i < self.constraints.len() ==> (#[trigger] self.constraints[i]).eval(env) == 1
    }

    /// Whether some assignment makes every constraint hold.
    pub open spec fn satisfiable(self) -> bool {
        exists|env: Env| self.satisfied_by(env)
    }
}

/// The witness that is left of `witness` once `constraint` is asserted: the
/// same where the constraint is seen to hold under it, none otherwise.
pub open spec fn kept_witness(witness: Option<Env>, constraint: Term) -> Option<Env> {
    match witness {
        Some(env) => if constraint.evaluable() && constraint.eval(env) == 1 {
            Some(env)
        } else {
            None
        },
        None => None,
    }
}

/// The solution for `t` where the witness is `witness`: the one value of an
/// expression that holds no unknown, and else its value under the witness.
/// None for an expression wider than 64 bits, whose value is no `u64`, and
/// for one that holds an unknown where there is no witness.
pub open spec fn solved(witness: Option<Env>, t: Term) -> Option<u64> {
    if !t.evaluable() {
        None
    } else if t.closed() {
        Some(t.eval(Env::empty()) as u64)
    } else {
        match witness {
            Some(env) => Some(t.eval(env) as u64),
            None => None,
        }
    }
}

/// The constraints of one path, with scopes that can be opened and closed,
/// and a witness: an assignment under which every constraint is known to
/// hold, where one has been handed in and still fits.
pub struct Solver {
    constraints: Vec<BV>,
    scopes: Vec<usize>,
    model: Option<Model>,
}

impl View for Solver {
    type V = Assertions;

    closed spec fn view(&self) -> Assertions {
        Assertions { constraints: terms_of(self.constraints@), scopes: marks_of(self.scopes@) }
    }
}

/// The expressions that a list of bit-vectors holds.
pub open spec fn terms_of(constraints: Seq<BV>) -> Seq<Term> {
    Seq::new(constraints.len(), |i: int| constraints[i]@)
}

/// The lengths that a list of scope marks holds.
pub open spec fn marks_of(scopes: Seq<usize>) -> Seq<nat> {
    Seq::new(scopes.len(), |j: int| scopes[j] as nat)
}

impl Clone for Solver {
    /// A solver of its own with the same constraints, scopes and witness:
    /// what is asserted on the one does not reach the other.
    fn clone(&self) -> (s: Self)
        ensures
            s@ == self@,
            s.witness() == self.witness(),
    {
        let mut constraints: Vec<BV> = Vec::new();
        let mut i: usize = 0;
        while i < self.constraints.len()
            invariant
                i <= self.constraints.len(),
                constraints@.len() == i,
                forall|k: int|
                    0 <= k < i ==> (#[trigger] constraints@[k])@ == self.constraints@[k]@,
            decreases self.constraints.len() - i,
        {
            constraints.push(self.constraints[i].clone());
            i += 1;
        }
        let mut scopes: Vec<usize> = Vec::new();
        let mut j: usize = 0;
        while j < self.scopes.len()
            invariant
                j <= self.scopes.len(),
                scopes@ == self.scopes@.take(j as int),
            decreases self.scopes.len() - j,
        {
            scopes.push(self.scopes[j]);
            assert(scopes@ =~= self.scopes@.take(j + 1));
            j += 1;
        }
        assert(scopes@ =~= self.scopes@);
        let model = match &self.model {
            Some(m) => Some(m.clone()),
            None => None,
        };
        proof {
            use_type_invariant(self);
            assert(terms_of(constraints@) =~= terms_of(self.constraints@));
            assert(marks_of(scopes@) =~= marks_of(self.scopes@));
        }
        Solver { constraints, scopes, model }
    }
}

impl Solver {
    /// The solver's invariant: its scopes fit its constraints, every
    /// constraint is one bit wide, and its witness satisfies them.
    #[verifier::type_invariant]
    pub closed spec fn inv(&self) -> bool {
        &&& self@.wf()
        &&& self.model matches Some(m) ==> self@.satisfied_by(m@)
    }

    /// The assignment under which every constraint is known to hold, if
    /// the solver has one.
    pub closed spec fn witness(&self) -> Option<Env> {
        match self.model {
            Some(m) => Some(m@),
            None => None,
        }
    }

    /// What the invariant says.
    pub proof fn lemma_inv(&self)
        requires
            self.inv(),
        ensures
            self@.wf(),
            self.witness() matches Some(env) ==> self@.satisfied_by(env),
    {
    }

    /// A solver without constraints. The empty assignment is its witness.
    pub fn new() -> (s: Solver)
        ensures
            s@.constraints.len() == 0,
            s@.scopes.len() == 0,
            s.witness() == Some(Env::empty()),
    {
        let constraints: Vec<BV> = Vec::new();
        let scopes: Vec<usize> = Vec::new();
        proof {
            assert(terms_of(constraints@) =~= Seq::empty());
            assert(marks_of(scopes@) =~= Seq::empty());
        }
        Solver { constraints, scopes, model: Some(Model::new()) }
    }

    /// Number of constraints asserted and still in scope.
    pub fn len(&self) -> (n: usize)
        ensures
            n == self@.constraints.len(),
    {
        self.constraints.len()
    }

    /// The `i`-th constraint.
    pub fn constraint(&self, i: usize) -> (c: &BV)
        requires
            i < self@.constraints.len(),
        ensures
            c@ == self@.constraints[i as int],
    {
        &self.constraints[i]
    }

    /// Number of open scopes.
    pub fn depth(&self) -> (n: usize)
        ensures
            n == self@.scopes.len(),
    {
        self.scopes.len()
    }

    /// Whether the solver holds a witness. With one, the constraints are
    /// satisfiable.
    pub fn has_witness(&self) -> (b: bool)
        ensures
            b == self.witness().is_some(),
            b ==> self@.satisfiable(),
    {
        proof {
            use_type_invariant(self);
        }
        self.model.is_some()
    }

    /// Asserts the one-bit `constraint` on the path. The witness stays
    /// where the constraint is seen to hold under it, and is dropped
    /// otherwise.
    pub fn constrain(&mut self, constraint: &BV)
        requires
            constraint@.width() == 1,
        ensures
            final(self)@ == old(self)@.asserted(constraint@),
            final(self).witness() == kept_witness(old(self).witness(), constraint@),
    {
        proof {
            use_type_invariant(&*self);
            use_type_invariant(constraint);
            constraint.lemma_inv();
        }
        let keep = match &self.model {
            Some(m) => constraint.get_solution(m) == Some(1),
            None => false,
        };
        let ghost before = self@;
        let mut taken = Solver::new();
        std::mem::swap(self, &mut taken);
        let Solver { mut constraints, scopes, model } = taken;
        constraints.push(constraint.clone());
        let model = if keep {
            model
        } else {
            None
        };
        proof {
            let now = Assertions {
                constraints: terms_of(constraints@),
                scopes: marks_of(scopes@),
            };
            assert(now.constraints =~= before.constraints.push(constraint@));
            assert(now.scopes == before.scopes);
            assert(now.wf()) by {
                assert forall|i: int| 0 <= i < now.constraints.len() implies (
                #[trigger] now.constraints[i]).wf() && now.constraints[i].width() == 1 by {
                    if i < before.constraints.len() {
                        assert(now.constraints[i] == before.constraints[i]);
                    }
                }
            }
            if let Some(m) = &model {
                assert forall|i: int| 0 <= i < now.constraints.len() implies (
                #[trigger] now.constraints[i]).eval(m@) == 1 by {
                    if i < before.constraints.len() {
                        assert(now.constraints[i] == before.constraints[i]);
                    }
                }
            }
        }
        *self = Solver { constraints, scopes, model };
    }

    /// Opens a scope: a later [`Solver::pop`] takes back what is asserted
    /// from here on.
    pub fn push(&mut self)
        ensures
            final(self)@ == old(self)@.pushed(),
            final(self).witness() == old(self).witness(),
    {
        proof {
            use_type_invariant(&*self);
        }
        let ghost before = self@;
        let mut taken = Solver::new();
        std::mem::swap(self, &mut taken);
        let Solver { constraints, mut scopes, model } = taken;
        scopes.push(constraints.len());
        proof {
            assert(marks_of(scopes@) =~= before.scopes.push(before.constraints.len()));
        }
        *self = Solver { constraints, scopes, model };
    }

    /// Closes the innermost scope, taking back what was asserted since it
    /// was opened. Nothing changes where no scope is open.
    pub fn pop(&mut self)
        ensures
            final(self)@ == old(self)@.popped(),
            final(self).witness() == old(self).witness(),
    {
        proof {
            use_type_invariant(&*self);
        }
        let ghost before = self@;
        let depth = self.scopes.len();
        if depth > 0 {
            let mark = self.scopes[depth - 1];
            assert(before.scopes[depth - 1] == mark);
            let mut taken = Solver::new();
            std::mem::swap(self, &mut taken);
            let Solver { mut constraints, mut scopes, model } = taken;
            constraints.truncate(mark);
            scopes.pop();
            proof {
                assert(terms_of(constraints@) =~= before.constraints.take(mark as int));
                assert(marks_of(scopes@) =~= before.scopes.drop_last());
            }
            *self = Solver { constraints, scopes, model };
        }
    }

    /// Hands the solver an assignment. It becomes the witness where every
    /// constraint is seen to hold under it; otherwise the solver is left as
    /// it was. Returns whether it was taken.
    pub fn set_model(&mut self, model: Model) -> (taken: bool)
        ensures
            final(self)@ == old(self)@,
            taken <==> (forall|i: int|
                0 <= i < old(self)@.constraints.len() ==> (#[trigger] old(
                    self,
                )@.constraints[i]).evaluable() && old(self)@.constraints[i].eval(model@) == 1),
            final(self).witness() == if taken {
                Some(model@)
            } else {
                old(self).witness()
            },
    {
        proof {
            use_type_invariant(&*self);
        }
        let ghost before = self@;
        let ghost witness = self.witness();
        let mut i: usize = 0;
        while i < self.constraints.len()
            invariant
                self@.wf(),
                self@ == before,
                self.witness() == witness,
                i <= self.constraints.len(),
                forall|k: int|
                    0 <= k < i ==> (#[trigger] self@.constraints[k]).evaluable()
                        && self@.constraints[k].eval(model@) == 1,
            decreases self.constraints.len() - i,
        {
            let holds = self.constraints[i].get_solution(&model) == Some(1);
            assert(self@.constraints[i as int] == self.constraints@[i as int]@);
            if !holds {
                return false;
            }
            i += 1;
        }
        self.model = Some(model);
        true
    }

    /// A solution for `bv`. A [BV] that holds no unknown is its own
    /// solution, with or without a witness; any other is taken under the
    /// witness, so that it agrees with the constraints. `None` where `bv` is
    /// wider than 64 bits, or holds an unknown while the solver holds no
    /// witness.
    pub fn get_solution(&self, bv: &BV) -> (r: Option<u64>)
        ensures
            r == solved(self.witness(), bv@),
    {
        match bv.constant_value() {
            Some(v) => {
                assert(v as nat == bv@.eval(Env::empty()));
                Some(v)
            },
            None => match &self.model {
                Some(m) => bv.get_solution(m),
                None => None,
            },
        }
    }
}

/// The solutions of a bit-vector that a solver was asked for.
#[derive(Debug, Clone, PartialEq, Eq)]
pub enum Solutions {
    /// There is none.
    Nothing,
    /// These are all.
    Exactly(Vec<u64>),
    /// These are as many as were asked for; there are more.
    AtLeast(Vec<u64>),
}

/// What a solver said when asked for a solution other than those found.
#[derive(Debug, Clone, Copy, PartialEq, Eq, Structural)]
pub enum Said {
    /// There is one, and this is it.
    Sat(u64),
    /// There is no other.
    Unsat,
    /// It cannot tell.
    Unknown,
}

/// How the search for solutions goes on.
#[derive(Debug, Clone, PartialEq, Eq)]
pub enum Search {
    /// The solver is to be asked again, for a solution other than these.
    Ask(Vec<u64>),
    /// The search is over.
    Done(Solutions),
    /// The solver could not tell: the search has failed.
    Failed,
}

/// One step of the search for up to `max` solutions, `found` being those
/// found so far and `said` what the solver said when asked for one more.
/// A solution is taken up and the solver asked again while fewer than
/// `max` are found; with `max` found and one more there, they are
/// `AtLeast`; with no other there they are
/// `Exactly` those found, or `Nothing`.
pub fn search_step(found: Vec<u64>, said: Said, max: usize) -> (next: Search)
    ensures
        match next {
            Search::Ask(again) => said matches Said::Sat(x) && found@.len() < max && again@
                == found@.push(x),
            Search::Done(Solutions::Nothing) => said == Said::Unsat && found@.len() == 0,
            Search::Done(Solutions::Exactly(all)) => said == Said::Unsat && found@.len() > 0
                && all@ == found@,
            Search::Done(Solutions::AtLeast(some)) => said is Sat && found@.len() >= max
                && some@ == found@,
            Search::Failed => said == Said::Unknown,
        },
{
    match said {
        Said::Unknown => Search::Failed,
        Said::Unsat => {
            if found.len() == 0 {
                Search::Done(Solutions::Nothing)
            } else {
                Search::Done(Solutions::Exactly(found))
            }
        },
        Said::Sat(x) => {
            if found.len() < max {
                let mut again = found;
                again.push(x);
                Search::Ask(again)
            } else {
                Search::Done(Solutions::AtLeast(found))
            }
        },
    }
}

/// What is asserted inside a scope is gone when the scope is closed: after
/// opening a scope, asserting any constraints and closing the scope, the
/// solver holds what it held before, so whether its constraints can be
/// satisfied has not changed.
pub proof fn lemma_scope_isolation(before: Assertions, inside: Seq<Term>)
    requires
        before.wf(),
    ensures
        before.pushed().asserted_all(inside).popped() == before,
        before.pushed().asserted_all(inside).popped().satisfiable() == before.satisfiable(),
{
    lemma_asserted_all(before.pushed(), inside);
    let after = before.pushed().asserted_all(inside).popped();
    assert(after.constraints =~= before.constraints);
    assert(after.scopes =~= before.scopes);
}

/// Asserting constraints appends them and leaves the scopes alone.
pub proof fn lemma_asserted_all(start: Assertions, added: Seq<Term>)
    ensures
        start.asserted_all(added).constraints == start.constraints + added,
        start.asserted_all(added).scopes == start.scopes,
    decreases added.len(),
{
    if added.len() == 0 {
        assert(start.constraints + added =~= start.constraints);
    } else {
        lemma_asserted_all(start, added.drop_last());
        assert(start.constraints + added =~= (start.constraints + added.drop_last()).push(
            added.last(),
        ));
    }
}

} // verus!
