use x0001e::memory::Reach;
use x0001e::project::Project;
use x0001e::solver::bv::BV;
use x0001e::solver::model::Model;
use x0001e::solver::{search_step, Said, Search, Solutions, Solver};
use x0001e::vm::{Feasible, State, Taken, VM};

fn is_five(x: &BV) -> BV {
    x.eq(&BV::from_u64(5, 8))
}

#[test]
fn a_new_solver_is_satisfied_by_anything() {
    let solver = Solver::new();
    assert_eq!(solver.len(), 0);
    assert_eq!(solver.depth(), 0);
    assert!(solver.has_witness());
    assert_eq!(solver.get_solution(&BV::symbol(1, 8)), Some(0));
}

#[test]
fn a_constraint_that_the_witness_breaks_drops_the_witness() {
    let x = BV::symbol(1, 8);
    let mut solver = Solver::new();
    solver.constrain(&is_five(&x));
    assert_eq!(solver.len(), 1);
    assert_eq!(solver.constraint(0), &is_five(&x));
    assert!(!solver.has_witness());
    assert_eq!(solver.get_solution(&x), None);
}

#[test]
fn a_constraint_that_the_witness_meets_keeps_the_witness() {
    let x = BV::symbol(1, 8);
    let mut solver = Solver::new();
    solver.constrain(&x.ult(&BV::from_u64(9, 8)));
    assert!(solver.has_witness());
    assert_eq!(solver.get_solution(&x), Some(0));
}

#[test]
fn a_model_is_taken_only_where_it_satisfies_every_constraint() {
    let x = BV::symbol(1, 8);
    let mut solver = Solver::new();
    solver.constrain(&is_five(&x));
    solver.constrain(&x.ult(&BV::from_u64(9, 8)));

    let mut four = Model::new();
    four.set_symbol(1, 4);
    assert!(!solver.set_model(four));
    assert!(!solver.has_witness());

    let mut five = Model::new();
    five.set_symbol(1, 5);
    assert!(solver.set_model(five));
    assert!(solver.has_witness());
    assert_eq!(solver.get_solution(&x), Some(5));
    assert_eq!(solver.get_solution(&x.add(&x)), Some(10));

    let mut six = Model::new();
    six.set_symbol(1, 6);
    assert!(!solver.set_model(six));
    assert_eq!(solver.get_solution(&x), Some(5));
    assert_eq!(solver.len(), 2);
}

#[test]
fn a_solution_wider_than_64_bits_is_not_given() {
    let solver = Solver::new();
    assert_eq!(solver.get_solution(&BV::symbol(1, 65)), None);
    assert_eq!(solver.get_solution(&BV::zero(65)), None);
}

#[test]
fn what_holds_no_unknown_is_solved_without_a_witness() {
    let x = BV::symbol(1, 8);
    let mut solver = Solver::new();
    solver.constrain(&is_five(&x));
    assert!(!solver.has_witness());
    assert_eq!(solver.get_solution(&BV::from_u64(8, 64)), Some(8));
    assert_eq!(solver.get_solution(&BV::from_u64(2, 8).mul(&BV::from_u64(3, 8))), Some(6));
    assert_eq!(solver.get_solution(&x), None);
    assert_eq!(solver.get_solution(&x.sub(&x)), None);
}

#[test]
fn pop_takes_back_what_was_asserted_in_the_scope() {
    let x = BV::symbol(1, 8);
    let mut solver = Solver::new();
    solver.constrain(&x.ult(&BV::from_u64(9, 8)));
    solver.push();
    assert_eq!(solver.depth(), 1);
    solver.constrain(&is_five(&x));
    solver.constrain(&x.ugt(&BV::from_u64(200, 8)));
    assert_eq!(solver.len(), 3);
    solver.pop();
    assert_eq!(solver.len(), 1);
    assert_eq!(solver.depth(), 0);
    assert_eq!(solver.constraint(0), &x.ult(&BV::from_u64(9, 8)));
}

#[test]
fn scopes_nest() {
    let x = BV::symbol(1, 8);
    let mut solver = Solver::new();
    solver.push();
    solver.constrain(&is_five(&x));
    solver.push();
    solver.constrain(&x.ne(&x));
    assert_eq!(solver.len(), 2);
    assert_eq!(solver.depth(), 2);
    solver.pop();
    assert_eq!(solver.len(), 1);
    solver.pop();
    assert_eq!(solver.len(), 0);
    assert_eq!(solver.depth(), 0);
}

#[test]
fn pop_without_a_scope_changes_nothing() {
    let x = BV::symbol(1, 8);
    let mut solver = Solver::new();
    solver.constrain(&is_five(&x));
    solver.pop();
    assert_eq!(solver.len(), 1);
    assert_eq!(solver.depth(), 0);
}

#[test]
fn a_copy_of_a_solver_is_its_own() {
    let x = BV::symbol(1, 8);
    let mut solver = Solver::new();
    solver.constrain(&x.ult(&BV::from_u64(9, 8)));
    let mut copy = solver.clone();
    copy.constrain(&is_five(&x));
    assert_eq!(solver.len(), 1);
    assert!(solver.has_witness());
    assert_eq!(copy.len(), 2);
    assert!(!copy.has_witness());
}

#[test]
fn what_is_asserted_on_a_fork_does_not_reach_the_path_it_left() {
    let x = BV::symbol(1, 8);
    let mut state = State::new(64);
    state.assign(1, x.clone());
    state.solver.constrain(&x.ult(&BV::from_u64(9, 8)));

    let mut fork = state.fork();
    fork.solver.constrain(&x.ne(&x));
    fork.assign(2, BV::from_u64(1, 8));
    fork.mem.write(&BV::from_u64(0x10, 64), BV::from_u64(0xff, 8), Reach::Inside).unwrap();
    drop(fork);

    assert_eq!(state.solver.len(), 1);
    assert!(state.solver.has_witness());
    assert_eq!(state.locals.len(), 1);
    let cell = state.mem.read(&BV::from_u64(0x10, 64), 8, Reach::Inside).unwrap();
    assert_eq!(cell.get_solution(&Model::new()), Some(0));
}

#[test]
fn a_copy_of_a_model_is_its_own() {
    let mut model = Model::new();
    model.set_symbol(1, 5);
    let mut copy = model.clone();
    copy.set_symbol(1, 6);
    copy.set_cell(0, 0x10, 0xff);
    assert_eq!(model.symbol(1), 5);
    assert_eq!(model.cell(0, 0x10), 0);
    assert_eq!(copy.symbol(1), 6);
    assert_eq!(copy.cell(0, 0x10), 0xff);
}

fn engine() -> VM {
    VM::new(Project::new(64).expect("64 bits is a pointer width")).expect("the project is sound")
}

const BOTH: Feasible = Feasible {
    on_true: true,
    on_false: true,
};

#[test]
fn an_expression_without_unknowns_has_one_value() {
    let five = BV::from_u64(2, 8).add(&BV::from_u64(3, 8));
    assert_eq!(five.constant_value(), Some(5));
    assert_eq!(is_five(&five).constant_value(), Some(1));
    assert_eq!(BV::symbol(1, 8).constant_value(), None);
    assert_eq!(BV::symbol(1, 8).sub(&BV::symbol(1, 8)).constant_value(), None);
    assert_eq!(BV::zero(65).constant_value(), None);
    let cell = State::new(64).mem.read(&BV::from_u64(8, 64), 8, Reach::Inside).unwrap();
    assert_eq!(cell.constant_value(), None);
}

#[test]
fn a_branch_on_a_condition_without_unknowns_goes_one_way() {
    let mut vm = engine();
    let holds = is_five(&BV::from_u64(5, 8));
    assert_eq!(vm.branch(&holds, BOTH), Taken::Then);
    assert_eq!(vm.paths.len(), 0);
    assert_eq!(vm.state.solver.len(), 1);
    assert_eq!(vm.state.solver.constraint(0), &holds);
    assert!(vm.state.solver.has_witness());

    let fails = is_five(&BV::from_u64(6, 8));
    let nothing = Feasible {
        on_true: false,
        on_false: false,
    };
    assert_eq!(vm.branch(&fails, nothing), Taken::Otherwise);
    assert_eq!(vm.paths.len(), 0);
    assert_eq!(vm.state.solver.len(), 2);
    assert_eq!(vm.state.solver.constraint(1), &fails.not());
    assert!(!vm.backtrack());
}

#[test]
fn a_branch_with_two_feasible_sides_sets_one_aside() {
    let mut vm = engine();
    let x = BV::symbol(1, 8);
    vm.state.assign(1, x.clone());
    let cond = is_five(&x);
    assert_eq!(vm.branch(&cond, BOTH), Taken::Then);
    assert_eq!(vm.paths.len(), 1);
    assert_eq!(vm.state.solver.constraint(0), &cond);
    assert_eq!(vm.paths[0].solver.len(), 1);
    assert_eq!(vm.paths[0].solver.constraint(0), &cond.not());
    // The empty witness gives x the value 0: it holds on the side set aside.
    assert!(!vm.state.solver.has_witness());
    assert!(vm.paths[0].solver.has_witness());

    vm.state.assign(2, BV::from_u64(1, 8));
    assert!(vm.backtrack());
    assert_eq!(vm.paths.len(), 0);
    assert_eq!(vm.state.solver.constraint(0), &cond.not());
    assert_eq!(vm.state.locals.len(), 1);
    assert!(!vm.backtrack());
}

#[test]
fn a_branch_takes_the_sides_that_the_solver_finds_feasible() {
    let x = BV::symbol(1, 8);
    let cond = is_five(&x);

    let mut vm = engine();
    let only_false = Feasible {
        on_true: false,
        on_false: true,
    };
    assert_eq!(vm.branch(&cond, only_false), Taken::Otherwise);
    assert_eq!(vm.paths.len(), 0);
    assert_eq!(vm.state.solver.constraint(0), &cond.not());

    let mut vm = engine();
    let only_true = Feasible {
        on_true: true,
        on_false: false,
    };
    assert_eq!(vm.branch(&cond, only_true), Taken::Then);
    assert_eq!(vm.paths.len(), 0);
    assert_eq!(vm.state.solver.constraint(0), &cond);

    let mut vm = engine();
    let neither = Feasible {
        on_true: false,
        on_false: false,
    };
    assert_eq!(vm.branch(&cond, neither), Taken::Neither);
    assert_eq!(vm.paths.len(), 0);
    assert_eq!(vm.state.solver.len(), 0);
}

#[test]
fn paths_set_aside_are_taken_up_last_first() {
    let mut vm = engine();
    let x = BV::symbol(1, 8);
    let y = BV::symbol(2, 8);
    assert_eq!(vm.branch(&is_five(&x), BOTH), Taken::Then);
    assert_eq!(vm.branch(&is_five(&y), BOTH), Taken::Then);
    assert_eq!(vm.paths.len(), 2);
    assert!(vm.backtrack());
    assert_eq!(vm.state.solver.len(), 2);
    assert_eq!(vm.state.solver.constraint(0), &is_five(&x));
    assert_eq!(vm.state.solver.constraint(1), &is_five(&y).not());
    assert!(vm.backtrack());
    assert_eq!(vm.state.solver.len(), 1);
    assert_eq!(vm.state.solver.constraint(0), &is_five(&x).not());
    assert!(!vm.backtrack());
}

#[test]
fn the_search_for_solutions_asks_until_enough_are_found() {
    assert_eq!(search_step(vec![], Said::Sat(5), 2), Search::Ask(vec![5]));
    assert_eq!(search_step(vec![5], Said::Sat(7), 2), Search::Ask(vec![5, 7]));
    assert_eq!(
        search_step(vec![5, 7], Said::Sat(9), 2),
        Search::Done(Solutions::AtLeast(vec![5, 7]))
    );
    assert_eq!(
        search_step(vec![5, 7], Said::Unsat, 2),
        Search::Done(Solutions::Exactly(vec![5, 7]))
    );
    assert_eq!(search_step(vec![5], Said::Unsat, 2), Search::Done(Solutions::Exactly(vec![5])));
    assert_eq!(search_step(vec![], Said::Unsat, 2), Search::Done(Solutions::Nothing));
    assert_eq!(search_step(vec![], Said::Sat(1), 0), Search::Done(Solutions::AtLeast(vec![])));
    assert_eq!(search_step(vec![], Said::Unsat, 0), Search::Done(Solutions::Nothing));
    assert_eq!(search_step(vec![5], Said::Unknown, 2), Search::Failed);
    assert_eq!(search_step(vec![], Said::Unknown, 0), Search::Failed);
}
