use x0001e::common::{binop, get_u64_solution_from_operand, LaneOp};
use x0001e::hooks::intrinsics::{
    binary_op_overflow, binary_op_saturate, is_intrinsic, llvm_assume, llvm_expect, llvm_memcpy,
    llvm_memset, llvm_sadd_sat, llvm_sadd_with_overflow, llvm_smax, llvm_smin,
    llvm_smul_with_overflow, llvm_ssub_with_overflow, llvm_uadd_sat, llvm_uadd_with_overflow,
    llvm_umax, llvm_umin, llvm_umul_with_overflow, llvm_usub_with_overflow, noop,
    Access, BinaryOpOverflow, BinaryOpSaturate, Intrinsics,
};
use x0001e::hooks::{FnInfo, Hook};
use x0001e::memory::{Memory, MemoryError, Reach};
use x0001e::project::{Operand, Project, Type};
use x0001e::solver::bv::BV;
use x0001e::solver::model::Model;
use x0001e::solver::term::BinOp;
use x0001e::vm::{ReturnValue, VMError, VM};

fn engine() -> VM {
    VM::new(Project::new(64).expect("64 bits is a pointer width")).expect("the project is sound")
}

fn integer(value: u64, bits: u32) -> (Operand, Type) {
    (Operand::Constant { value, bits }, Type::Integer { bits })
}

fn pointer(at: u64) -> (Operand, Type) {
    (Operand::Constant { value: at, bits: 64 }, Type::Pointer)
}

fn call(arguments: Vec<(Operand, Type)>) -> FnInfo {
    FnInfo {
        arguments,
        told: vec![],
    }
}

fn call_told(arguments: Vec<(Operand, Type)>, told: Vec<Reach>) -> FnInfo {
    FnInfo { arguments, told }
}

fn returned(r: Result<ReturnValue, VMError>) -> (u64, u32) {
    match r {
        Ok(ReturnValue::Value(v)) => (
            v.get_solution(&Model::new()).expect("the value can be computed"),
            v.len(),
        ),
        other => panic!("expected a value, got {:?}", other),
    }
}

fn read(vm: &VM, at: u64, bits: u32) -> u64 {
    vm.state
        .mem
        .read(&BV::from_u64(at, 64), bits, Reach::Inside)
        .expect("the read is in bounds")
        .get_solution(&Model::new())
        .expect("the value can be computed")
}

// -------------------------------------------------------------------------------------------------
// Names
// -------------------------------------------------------------------------------------------------

#[test]
fn intrinsic_names_start_with_llvm_dot() {
    assert!(is_intrinsic("llvm.memcpy.p0i8.p0i8.i64"));
    assert!(is_intrinsic("llvm."));
    assert!(!is_intrinsic("llvm"));
    assert!(!is_intrinsic("llvn.memcpy"));
    assert!(!is_intrinsic("printf"));
    assert!(!is_intrinsic(""));
    assert!(!is_intrinsic("my.llvm.assume"));
}

#[test]
fn default_intrinsics_are_found_by_name() {
    let s = Intrinsics::new_with_defaults();
    assert_eq!(s.get("llvm.assume"), Some(Hook::Assume));
    assert_eq!(s.get("llvm.memcpy.p0i8.p0i8.i64"), Some(Hook::Memcpy));
    assert_eq!(s.get("llvm.memset.p0i8.i64"), Some(Hook::Memset));
    assert_eq!(s.get("llvm.umax.v2i32"), Some(Hook::Umax));
    assert_eq!(s.get("llvm.smax.i32"), Some(Hook::Smax));
    assert_eq!(s.get("llvm.umin.i8"), Some(Hook::Umin));
    assert_eq!(s.get("llvm.smin.v4i16"), Some(Hook::Smin));
    assert_eq!(s.get("llvm.sadd.with.overflow.i32"), Some(Hook::SaddWithOverflow));
    assert_eq!(s.get("llvm.uadd.with.overflow.i8"), Some(Hook::UaddWithOverflow));
    assert_eq!(s.get("llvm.ssub.with.overflow.i32"), Some(Hook::SsubWithOverflow));
    assert_eq!(s.get("llvm.usub.with.overflow.i32"), Some(Hook::UsubWithOverflow));
    assert_eq!(s.get("llvm.smul.with.overflow.i32"), Some(Hook::SmulWithOverflow));
    assert_eq!(s.get("llvm.umul.with.overflow.i32"), Some(Hook::UmulWithOverflow));
    assert_eq!(s.get("llvm.sadd.sat.i4"), Some(Hook::SaddSat));
    assert_eq!(s.get("llvm.uadd.sat.i8"), Some(Hook::UaddSat));
    assert_eq!(s.get("llvm.expect.i1"), Some(Hook::Expect));
    assert_eq!(s.get("llvm.dbg.declare"), Some(Hook::Noop));
    assert_eq!(s.get("llvm.lifetime.start.p0i8"), Some(Hook::Noop));
    assert_eq!(s.get("llvm.experimental.noalias.scope.decl"), Some(Hook::Noop));
}

#[test]
fn names_without_a_hook_are_not_found() {
    let s = Intrinsics::new_with_defaults();
    assert_eq!(s.get("llvm.ssub.sat.i8"), None);
    assert_eq!(s.get("llvm.dbgx"), None);
    assert_eq!(s.get("llvm.dbg"), None);
    assert_eq!(s.get("llvm.lifetimes.start"), None);
    assert_eq!(s.get("llvm.lifetime"), None);
    assert_eq!(s.get("llvm.experimentally"), None);
    assert_eq!(s.get("llvm.smax"), None);
    assert_eq!(s.get("llvm.abs.i32"), None);
    assert_eq!(s.get("llvm.memcpy"), None);
    assert_eq!(s.get("llvm.assumed"), None);
    assert_eq!(s.get("llvm.assume.i1"), None);
    assert_eq!(s.get("llvm"), None);
    assert_eq!(s.get(""), None);
    assert_eq!(Intrinsics::new().get("llvm.assume"), None);
}

#[test]
fn the_longest_beginning_of_a_name_wins() {
    let mut s = Intrinsics::new();
    s.add_variable("llvm.", Hook::Noop);
    s.add_variable("llvm.umax.", Hook::Umax);
    s.add_variable("llvm.umax.v2", Hook::Expect);
    assert_eq!(s.get("llvm.umax.v2i32"), Some(Hook::Expect));
    assert_eq!(s.get("llvm.umax.i32"), Some(Hook::Umax));
    assert_eq!(s.get("llvm.umin.i32"), Some(Hook::Noop));
    assert_eq!(s.get("llvm.umax."), Some(Hook::Umax));
    assert_eq!(s.get("llvm"), None);
}

#[test]
fn beginnings_are_compared_character_by_character() {
    let mut s = Intrinsics::new();
    // U+00E9 is the bytes C3 A9, U+00C3 the bytes C3 83: one byte in common.
    s.add_variable("llvm.\u{e9}", Hook::Umax);
    assert_eq!(s.get("llvm.\u{e9}.i8"), Some(Hook::Umax));
    assert_eq!(s.get("llvm.\u{e9}"), Some(Hook::Umax));
    assert_eq!(s.get("llvm.\u{c3}.i8"), None);
    assert_eq!(s.get("llvm."), None);
    s.add_variable("", Hook::Noop);
    assert_eq!(s.get("llvm.\u{c3}.i8"), Some(Hook::Noop));
    assert_eq!(s.get(""), Some(Hook::Noop));
}

#[test]
fn a_full_name_goes_before_a_beginning() {
    let mut s = Intrinsics::new_with_defaults();
    s.add_fixed("llvm.memcpy.inline", Hook::Noop);
    assert_eq!(s.get("llvm.memcpy.inline"), Some(Hook::Noop));
    assert_eq!(s.get("llvm.memcpy.inline.p0i8"), Some(Hook::Memcpy));
}

#[test]
fn a_name_added_again_takes_the_later_hook() {
    let mut s = Intrinsics::new();
    s.add_variable("llvm.abs.", Hook::Noop);
    s.add_variable("llvm.abs.", Hook::Umax);
    s.add_fixed("llvm.trap", Hook::Noop);
    s.add_fixed("llvm.trap", Hook::Assume);
    assert_eq!(s.get("llvm.abs.i32"), Some(Hook::Umax));
    assert_eq!(s.get("llvm.trap"), Some(Hook::Assume));
}

#[test]
fn every_hook_has_a_code_of_its_own() {
    let hooks = [
        Hook::Noop,
        Hook::Assume,
        Hook::Expect,
        Hook::Memcpy,
        Hook::Memset,
        Hook::Umax,
        Hook::SaddWithOverflow,
        Hook::UaddWithOverflow,
        Hook::SsubWithOverflow,
        Hook::UsubWithOverflow,
        Hook::SmulWithOverflow,
        Hook::UmulWithOverflow,
        Hook::SaddSat,
        Hook::UaddSat,
        Hook::Smax,
        Hook::Umin,
        Hook::Smin,
    ];
    for (i, hook) in hooks.iter().enumerate() {
        assert_eq!(hook.code() as usize, i);
        assert_eq!(Hook::from_code(hook.code()), *hook);
    }
    assert_eq!(Hook::from_code(200), Hook::Noop);
}

// -------------------------------------------------------------------------------------------------
// Hooks
// -------------------------------------------------------------------------------------------------

#[test]
fn noop_returns_void() {
    let mut vm = engine();
    assert_eq!(noop(&mut vm, call(vec![])), Ok(ReturnValue::Void));
    assert_eq!(noop(&mut vm, call(vec![integer(1, 8)])), Ok(ReturnValue::Void));
}

#[test]
fn test_uadd_with_overflow0() {
    let mut vm = engine();
    // Overflow flag 1 above the wrapped sum 0x04.
    let r = llvm_uadd_with_overflow(&mut vm, call(vec![integer(0x05, 8), integer(0xff, 8)]));
    assert_eq!(returned(r), (0x0104, 9));
    // 0x04 + 0xff is 0x103: flag 1 above the wrapped sum 0x03.
    let r = llvm_uadd_with_overflow(&mut vm, call(vec![integer(0x04, 8), integer(0xff, 8)]));
    assert_eq!(returned(r), (0x0103, 9));
}

#[test]
fn uadd_with_overflow_without_overflow() {
    let mut vm = engine();
    let r = llvm_uadd_with_overflow(&mut vm, call(vec![integer(0x04, 8), integer(0x05, 8)]));
    assert_eq!(returned(r), (0x0009, 9));
}

#[test]
fn overflow_flag_stands_above_the_wrapped_result() {
    let mut vm = engine();
    // 127 + 1 overflows as signed, not as unsigned.
    let args = || call(vec![integer(0x7f, 8), integer(0x01, 8)]);
    assert_eq!(returned(llvm_sadd_with_overflow(&mut vm, args())), (0x180, 9));
    assert_eq!(returned(llvm_uadd_with_overflow(&mut vm, args())), (0x080, 9));
    // 0 - 1 overflows as unsigned, not as signed.
    let args = || call(vec![integer(0x00, 8), integer(0x01, 8)]);
    assert_eq!(returned(llvm_usub_with_overflow(&mut vm, args())), (0x1ff, 9));
    assert_eq!(returned(llvm_ssub_with_overflow(&mut vm, args())), (0x0ff, 9));
    // -128 - 1 overflows as signed.
    let args = || call(vec![integer(0x80, 8), integer(0x01, 8)]);
    assert_eq!(returned(llvm_ssub_with_overflow(&mut vm, args())), (0x17f, 9));
    // 16 * 16 overflows as unsigned and as signed; -64 * 2 as unsigned only.
    let args = || call(vec![integer(0x10, 8), integer(0x10, 8)]);
    assert_eq!(returned(llvm_umul_with_overflow(&mut vm, args())), (0x100, 9));
    assert_eq!(returned(llvm_smul_with_overflow(&mut vm, args())), (0x100, 9));
    let args = || call(vec![integer(0xc0, 8), integer(0x02, 8)]);
    assert_eq!(returned(llvm_umul_with_overflow(&mut vm, args())), (0x180, 9));
    assert_eq!(returned(llvm_smul_with_overflow(&mut vm, args())), (0x080, 9));
}

#[test]
fn binary_op_overflow_picks_the_operation() {
    let mut vm = engine();
    let args = || call(vec![integer(0xff, 8), integer(0x02, 8)]);
    let r = binary_op_overflow(&mut vm, args(), BinaryOpOverflow::UAdd);
    assert_eq!(returned(r), (0x101, 9));
    let r = binary_op_overflow(&mut vm, args(), BinaryOpOverflow::SAdd);
    assert_eq!(returned(r), (0x001, 9));
    let r = binary_op_overflow(&mut vm, args(), BinaryOpOverflow::USub);
    assert_eq!(returned(r), (0x0fd, 9));
    let r = binary_op_overflow(&mut vm, args(), BinaryOpOverflow::SSub);
    assert_eq!(returned(r), (0x0fd, 9));
    let r = binary_op_overflow(&mut vm, args(), BinaryOpOverflow::UMul);
    assert_eq!(returned(r), (0x1fe, 9));
    let r = binary_op_overflow(&mut vm, args(), BinaryOpOverflow::SMul);
    assert_eq!(returned(r), (0x0fe, 9));
}

#[test]
fn test_sadd_with_overflow_vec() {
    let mut vm = engine();
    // Two lanes of eight bits: [0x7f, 0x01] + [0x01, 0x01].
    vm.state.assign(1, BV::from_u64(0x017f, 16));
    vm.state.assign(2, BV::from_u64(0x0101, 16));
    let ty = Type::Vector { lanes: 2, bits: 8 };
    let r = llvm_sadd_with_overflow(
        &mut vm,
        call(vec![(Operand::Local(1), ty), (Operand::Local(2), ty)]),
    );
    // Results [0x80, 0x02] below the flags [1, 0].
    assert_eq!(returned(r), (0b01_0000_0010_1000_0000, 18));
}

#[test]
fn test_umax_vec() {
    let mut vm = engine();
    vm.state.assign(1, BV::from_u64(0x000012340000bcef, 64));
    vm.state.assign(2, BV::from_u64(0x000043210000abcd, 64));
    let ty = Type::Vector { lanes: 2, bits: 32 };
    let r = llvm_umax(
        &mut vm,
        call(vec![(Operand::Local(1), ty), (Operand::Local(2), ty)]),
    );
    assert_eq!(returned(r), (0x000043210000bcef, 64));
}

#[test]
fn umax_of_two_integers() {
    let mut vm = engine();
    assert_eq!(
        returned(llvm_umax(&mut vm, call(vec![integer(0x80, 8), integer(0x7f, 8)]))),
        (0x80, 8)
    );
    assert_eq!(
        returned(llvm_umax(&mut vm, call(vec![integer(3, 8), integer(9, 8)]))),
        (9, 8)
    );
}

#[test]
fn maxima_and_minima_signed_and_unsigned() {
    let mut vm = engine();
    // 0x80 is 128 unsigned and -128 signed.
    let args = || call(vec![integer(0x80, 8), integer(0x7f, 8)]);
    assert_eq!(returned(llvm_umax(&mut vm, args())), (0x80, 8));
    assert_eq!(returned(llvm_smax(&mut vm, args())), (0x7f, 8));
    assert_eq!(returned(llvm_umin(&mut vm, args())), (0x7f, 8));
    assert_eq!(returned(llvm_smin(&mut vm, args())), (0x80, 8));
    let args = || call(vec![integer(3, 8), integer(3, 8)]);
    assert_eq!(returned(llvm_smax(&mut vm, args())), (3, 8));
    assert_eq!(returned(llvm_umin(&mut vm, args())), (3, 8));
    assert_eq!(returned(llvm_smin(&mut vm, args())), (3, 8));
}

#[test]
fn maxima_and_minima_of_vectors() {
    let mut vm = engine();
    // Lanes [0x80, 0x01, 0xff] and [0x7f, 0x02, 0x00].
    vm.state.assign(1, BV::from_u64(0xff0180, 24));
    vm.state.assign(2, BV::from_u64(0x00027f, 24));
    let ty = Type::Vector { lanes: 3, bits: 8 };
    let args = || call(vec![(Operand::Local(1), ty), (Operand::Local(2), ty)]);
    assert_eq!(returned(llvm_umax(&mut vm, args())), (0xff0280, 24));
    assert_eq!(returned(llvm_smax(&mut vm, args())), (0x00027f, 24));
    assert_eq!(returned(llvm_umin(&mut vm, args())), (0x00017f, 24));
    assert_eq!(returned(llvm_smin(&mut vm, args())), (0xff0180, 24));
}

#[test]
fn maxima_and_minima_agree_with_machine_bytes() {
    let mut vm = engine();
    for a in (0..=255u8).step_by(5) {
        for b in (0..=255u8).step_by(7) {
            let args = || call(vec![integer(a as u64, 8), integer(b as u64, 8)]);
            let (sa, sb) = (a as i8, b as i8);
            assert_eq!(returned(llvm_umax(&mut vm, args())).0, a.max(b) as u64);
            assert_eq!(returned(llvm_umin(&mut vm, args())).0, a.min(b) as u64);
            assert_eq!(returned(llvm_smax(&mut vm, args())).0, sa.max(sb) as u8 as u64);
            assert_eq!(returned(llvm_smin(&mut vm, args())).0, sa.min(sb) as u8 as u64);
        }
    }
}

#[test]
fn test_sadd_sat3() {
    let mut vm = engine();
    // -8 + -1 in four bits stays at -8.
    let r = llvm_sadd_sat(&mut vm, call(vec![integer(0x8, 4), integer(0xf, 4)]));
    assert_eq!(returned(r), (0x8, 4));
}

#[test]
fn saturating_addition_signed_and_unsigned() {
    let mut vm = engine();
    let args = || call(vec![integer(0x7, 4), integer(0x7, 4)]);
    assert_eq!(returned(llvm_sadd_sat(&mut vm, args())), (0x7, 4));
    assert_eq!(returned(llvm_uadd_sat(&mut vm, args())), (0xe, 4));
    let args = || call(vec![integer(0xc, 4), integer(0xc, 4)]);
    assert_eq!(returned(llvm_sadd_sat(&mut vm, args())), (0x8, 4));
    assert_eq!(returned(llvm_uadd_sat(&mut vm, args())), (0xf, 4));
    assert_eq!(
        returned(binary_op_saturate(&mut vm, args(), BinaryOpSaturate::SAdd)),
        (0x8, 4)
    );
    assert_eq!(
        returned(binary_op_saturate(&mut vm, args(), BinaryOpSaturate::UAdd)),
        (0xf, 4)
    );
}

#[test]
fn saturating_addition_of_vectors() {
    let mut vm = engine();
    // Lanes [0xf0, 0x10] + [0x20, 0x20].
    vm.state.assign(1, BV::from_u64(0x10f0, 16));
    vm.state.assign(2, BV::from_u64(0x2020, 16));
    let ty = Type::Vector { lanes: 2, bits: 8 };
    let args = || call(vec![(Operand::Local(1), ty), (Operand::Local(2), ty)]);
    assert_eq!(returned(llvm_uadd_sat(&mut vm, args())), (0x30ff, 16));
    assert_eq!(returned(llvm_sadd_sat(&mut vm, args())), (0x3010, 16));
}

#[test]
fn expect_returns_its_first_argument() {
    let mut vm = engine();
    let r = llvm_expect(&mut vm, call(vec![integer(5, 32), integer(7, 32)]));
    assert_eq!(returned(r), (5, 32));
    vm.state.assign(9, BV::symbol(3, 1));
    let r = llvm_expect(
        &mut vm,
        call(vec![(Operand::Local(9), Type::Integer { bits: 1 }), integer(1, 1)]),
    );
    assert_eq!(r, Ok(ReturnValue::Value(BV::symbol(3, 1))));
}

#[test]
fn test_memcpy() {
    let mut vm = engine();
    vm.state
        .mem
        .write(&BV::from_u64(0x200, 64), BV::from_u64(0x6543fe671234abcd, 64), Reach::Inside)
        .unwrap();
    let r = llvm_memcpy(
        &mut vm,
        call(vec![pointer(0x100), pointer(0x200), integer(8, 64), integer(0, 1)]),
    );
    assert_eq!(r, Ok(ReturnValue::Void));
    assert_eq!(read(&vm, 0x100, 64), 0x6543fe671234abcd);
    assert_eq!(read(&vm, 0x200, 64), 0x6543fe671234abcd);
}

#[test]
fn memcpy_of_no_bytes_changes_nothing() {
    let mut vm = engine();
    vm.state.mem.write(&BV::from_u64(0x200, 64), BV::from_u64(0xab, 8), Reach::Inside).unwrap();
    vm.state.mem.write(&BV::from_u64(0x100, 64), BV::from_u64(0xcd, 8), Reach::Inside).unwrap();
    let r = llvm_memcpy(
        &mut vm,
        call(vec![pointer(0x100), pointer(0x200), integer(0, 64), integer(0, 1)]),
    );
    assert_eq!(r, Ok(ReturnValue::Void));
    assert_eq!(read(&vm, 0x100, 8), 0xcd);
}

#[test]
fn memcpy_takes_its_size_from_the_witness() {
    let mut vm = engine();
    vm.state.mem.write(&BV::from_u64(0x200, 64), BV::from_u64(0x11223344, 32), Reach::Inside).unwrap();
    let n = BV::symbol(1, 64);
    vm.state.assign(1, n.clone());
    vm.state.solver.constrain(&n.eq(&BV::from_u64(2, 64)));
    let size = (Operand::Local(1), Type::Integer { bits: 64 });
    let args = || call(vec![pointer(0x100), pointer(0x200), size, integer(0, 1)]);

    assert_eq!(llvm_memcpy(&mut vm, args()), Err(VMError::SolverError));

    let mut model = Model::new();
    model.set_symbol(1, 2);
    assert!(vm.state.solver.set_model(model));
    assert_eq!(llvm_memcpy(&mut vm, args()), Ok(ReturnValue::Void));
    assert_eq!(read(&vm, 0x100, 32), 0x00003344);
}

#[test]
fn memcpy_out_of_bounds() {
    let mut vm = engine();
    vm.state.mem = Memory::with_bounds_check(64, true);
    let src = vm.state.mem.allocate(8, 8).unwrap().as_const().unwrap();
    let dst = vm.state.mem.allocate(4, 8).unwrap().as_const().unwrap();
    let args = |n| call(vec![pointer(dst), pointer(src), integer(n, 64), integer(0, 1)]);
    assert_eq!(llvm_memcpy(&mut vm, args(4)), Ok(ReturnValue::Void));
    assert_eq!(
        llvm_memcpy(&mut vm, args(8)),
        Err(VMError::MemoryError(MemoryError::OutOfBounds))
    );
    assert_eq!(
        llvm_memcpy(&mut vm, args(0x2000_0000)),
        Err(VMError::MemoryError(MemoryError::OutOfBounds))
    );
}

#[test]
fn a_constant_size_needs_no_witness() {
    let mut vm = engine();
    vm.state
        .mem
        .write(&BV::from_u64(0x200, 64), BV::from_u64(0x6543fe671234abcd, 64), Reach::Inside)
        .unwrap();
    let x = BV::symbol(1, 8);
    vm.state.solver.constrain(&x.eq(&BV::from_u64(5, 8)));
    assert!(!vm.state.solver.has_witness());

    let r = llvm_memcpy(
        &mut vm,
        call(vec![pointer(0x100), pointer(0x200), integer(8, 64), integer(0, 1)]),
    );
    assert_eq!(r, Ok(ReturnValue::Void));
    assert_eq!(read(&vm, 0x100, 64), 0x6543fe671234abcd);

    // A size that is computed from constants is a constant too.
    vm.state.assign(7, BV::from_u64(1, 64).add(&BV::from_u64(2, 64)));
    let three = (Operand::Local(7), Type::Integer { bits: 64 });
    let r = llvm_memset(
        &mut vm,
        call(vec![pointer(0x100), integer(0xee, 8), three, integer(0, 1)]),
    );
    assert_eq!(r, Ok(ReturnValue::Void));
    assert_eq!(read(&vm, 0x100, 64), 0x6543fe6712eeeeee);
    assert_eq!(get_u64_solution_from_operand(&vm.state, &Operand::Local(7)), Ok(3));
    assert_eq!(vm.paths.len(), 0);
}

#[test]
fn an_address_without_unknowns_is_checked_by_its_value() {
    let mut vm = engine();
    vm.state.mem = Memory::with_bounds_check(64, true);
    let src = vm.state.mem.allocate(8, 8).unwrap().as_const().unwrap();
    let dst = vm.state.mem.allocate(8, 8).unwrap().as_const().unwrap();
    assert_eq!((src, dst), (8, 16));
    vm.state.mem.write(&BV::from_u64(dst, 64), BV::from_u64(0x1111, 16), Reach::Inside).unwrap();
    // The sum 8 + 100 lies outside every region; 8 + 4 inside the first.
    vm.state.assign(1, BV::from_u64(8, 64).add(&BV::from_u64(100, 64)));
    vm.state.assign(2, BV::from_u64(8, 64).add(&BV::from_u64(4, 64)));
    let outside = (Operand::Local(1), Type::Pointer);
    let inside = (Operand::Local(2), Type::Pointer);
    let out_of_bounds = Err(VMError::MemoryError(MemoryError::OutOfBounds));

    let copy = |from, to, n| call(vec![to, from, integer(n, 64), integer(0, 1)]);
    assert_eq!(llvm_memcpy(&mut vm, copy(outside, pointer(dst), 2)), out_of_bounds);
    assert_eq!(llvm_memcpy(&mut vm, copy(pointer(src), outside, 2)), out_of_bounds);
    assert_eq!(read(&vm, dst, 16), 0x1111);
    assert_eq!(llvm_memcpy(&mut vm, copy(inside, pointer(dst), 4)), Ok(ReturnValue::Void));
    assert_eq!(llvm_memcpy(&mut vm, copy(inside, pointer(dst), 5)), out_of_bounds);

    let fill = |at, n| call(vec![at, integer(0x77, 8), integer(n, 64), integer(0, 1)]);
    assert_eq!(llvm_memset(&mut vm, fill(outside, 1)), out_of_bounds);
    assert_eq!(llvm_memset(&mut vm, fill(inside, 5)), out_of_bounds);
    assert_eq!(llvm_memset(&mut vm, fill(inside, 4)), Ok(ReturnValue::Void));
    assert_eq!(read(&vm, src, 64), 0x7777777700000000);
}

#[test]
fn an_address_with_an_unknown_is_checked_by_the_solvers_word() {
    let mut vm = engine();
    vm.state.mem = Memory::with_bounds_check(64, true);
    let region = vm.state.mem.allocate(8, 8).unwrap().as_const().unwrap();
    vm.state
        .mem
        .write(&BV::from_u64(region, 64), BV::from_u64(0x1122334455667788, 64), Reach::Inside)
        .unwrap();
    vm.state.assign(1, BV::symbol(1, 64));
    vm.state.assign(2, BV::symbol(2, 64));
    let unknown = (Operand::Local(1), Type::Pointer);
    let other = (Operand::Local(2), Type::Pointer);
    let out_of_bounds = Err(VMError::MemoryError(MemoryError::OutOfBounds));
    let copy = |to, from| vec![to, from, integer(1, 64), integer(0, 1)];
    let ok = Ok(ReturnValue::Void);

    // Without the solver's word an unknown address counts as one that can
    // leave every region, and nothing is copied.
    let before = format!("{:?}", vm.state.mem.contents());
    assert_eq!(llvm_memcpy(&mut vm, call(copy(other, unknown))), out_of_bounds);
    assert_eq!(llvm_memcpy(&mut vm, call(copy(pointer(region), unknown))), out_of_bounds);
    assert_eq!(llvm_memcpy(&mut vm, call(copy(unknown, pointer(region)))), out_of_bounds);
    let fill = |to| vec![to, integer(0x55, 8), integer(2, 64), integer(0, 1)];
    assert_eq!(llvm_memset(&mut vm, call(fill(unknown))), out_of_bounds);

    // The solver's word on the read at the source comes first, its word on
    // the write at the destination second.
    let told = |src, dst| vec![src, dst];
    let (inside, can_leave) = (Reach::Inside, Reach::CanLeave);
    let r = llvm_memcpy(&mut vm, call_told(copy(other, unknown), told(can_leave, inside)));
    assert_eq!(r, out_of_bounds);
    let r = llvm_memcpy(&mut vm, call_told(copy(other, unknown), told(inside, can_leave)));
    assert_eq!(r, out_of_bounds);
    let r = llvm_memcpy(&mut vm, call_told(copy(other, unknown), vec![inside]));
    assert_eq!(r, out_of_bounds);
    let r = llvm_memset(&mut vm, call_told(fill(unknown), vec![can_leave]));
    assert_eq!(r, out_of_bounds);
    assert_eq!(format!("{:?}", vm.state.mem.contents()), before);
    assert_eq!(read(&vm, region, 64), 0x1122334455667788);

    // With the solver's word that both lie inside, the copy is made.
    let r = llvm_memcpy(&mut vm, call_told(copy(other, unknown), told(inside, inside)));
    assert_eq!(r, ok);
    let mut model = Model::new();
    model.set_symbol(1, region);
    model.set_symbol(2, region + 7);
    let copied = vm.state.mem.read(&BV::from_u64(region + 7, 64), 8, Reach::Inside);
    assert_eq!(copied.unwrap().get_solution(&model), Some(0x88));
    // An address without unknowns goes by its value, whatever was told.
    let r = llvm_memcpy(
        &mut vm,
        call_told(copy(pointer(region), pointer(region + 8)), told(inside, inside)),
    );
    assert_eq!(r, out_of_bounds);
    let r = llvm_memset(&mut vm, call_told(fill(unknown), vec![inside]));
    assert_eq!(r, ok);
    let filled = vm.state.mem.read(&BV::from_u64(region + 1, 64), 8, Reach::Inside);
    model.set_symbol(1, region);
    assert_eq!(filled.unwrap().get_solution(&model), Some(0x55));
}

#[test]
fn a_hook_names_the_accesses_that_it_makes() {
    let mut vm = engine();
    vm.state.assign(1, BV::symbol(1, 64));
    let unknown = (Operand::Local(1), Type::Pointer);
    let copy = call(vec![pointer(0x10), unknown, integer(3, 64), integer(0, 1)]);
    let accesses = Hook::Memcpy.accesses(&vm, &copy);
    assert_eq!(accesses.len(), 2);
    assert_eq!(accesses[0], Access { addr: BV::symbol(1, 64), bytes: 3 });
    assert_eq!(accesses[1], Access { addr: BV::from_u64(0x10, 64), bytes: 3 });
    let fill = call(vec![unknown, integer(0, 8), integer(5, 64), integer(0, 1)]);
    let accesses = Hook::Memset.accesses(&vm, &fill);
    assert_eq!(accesses, vec![Access { addr: BV::symbol(1, 64), bytes: 5 }]);

    // No access where nothing is copied, or where the call is malformed.
    let nothing = call(vec![pointer(0x10), unknown, integer(0, 64), integer(0, 1)]);
    assert_eq!(Hook::Memcpy.accesses(&vm, &nothing), vec![]);
    assert_eq!(Hook::Memset.accesses(&vm, &nothing), vec![]);
    let short = call(vec![pointer(0x10), unknown, integer(3, 64)]);
    assert_eq!(Hook::Memcpy.accesses(&vm, &short), vec![]);
    let narrow = call(vec![integer(1, 8), unknown, integer(3, 64), integer(0, 1)]);
    assert_eq!(Hook::Memcpy.accesses(&vm, &narrow), vec![]);
    assert_eq!(Hook::Memset.accesses(&vm, &copy), vec![]);
    assert_eq!(Hook::Umax.accesses(&vm, &copy), vec![]);
    assert_eq!(Hook::Assume.accesses(&vm, &copy), vec![]);
}

#[test]
fn memset_of_no_bytes_never_fails_for_its_bounds() {
    let mut vm = engine();
    vm.state.mem = Memory::with_bounds_check(64, true);
    let at = vm.state.mem.allocate(4, 1).unwrap().as_const().unwrap();
    vm.state.mem.write(&BV::from_u64(at, 64), BV::from_u64(0x0a0b0c0d, 32), Reach::Inside).unwrap();
    let fill = |to, n| call(vec![pointer(to), integer(0x55, 8), integer(n, 64), integer(0, 1)]);
    assert_eq!(llvm_memset(&mut vm, fill(0x9000, 0)), Ok(ReturnValue::Void));
    assert_eq!(llvm_memset(&mut vm, fill(at + 4, 0)), Ok(ReturnValue::Void));
    assert_eq!(
        llvm_memset(&mut vm, fill(0x9000, 1)),
        Err(VMError::MemoryError(MemoryError::OutOfBounds))
    );
    assert_eq!(read(&vm, at, 32), 0x0a0b0c0d);
    let copy = |n| call(vec![pointer(0x9000), pointer(0x8000), integer(n, 64), integer(0, 1)]);
    assert_eq!(llvm_memcpy(&mut vm, copy(0)), Ok(ReturnValue::Void));
}

#[test]
fn memset_fills_the_bytes() {
    let mut vm = engine();
    vm.state.mem.write(&BV::from_u64(0x100, 64), BV::from_u64(0x1122334455667788, 64), Reach::Inside).unwrap();
    let r = llvm_memset(
        &mut vm,
        call(vec![pointer(0x102), integer(0xaa, 8), integer(4, 64), integer(0, 1)]),
    );
    assert_eq!(r, Ok(ReturnValue::Void));
    assert_eq!(read(&vm, 0x100, 64), 0x1122aaaaaaaa7788);
}

#[test]
fn memset_of_no_bytes_and_out_of_bounds() {
    let mut vm = engine();
    vm.state.mem = Memory::with_bounds_check(64, true);
    let at = vm.state.mem.allocate(4, 1).unwrap().as_const().unwrap();
    let args = |n| call(vec![pointer(at), integer(0x55, 8), integer(n, 64), integer(0, 1)]);
    assert_eq!(llvm_memset(&mut vm, args(0)), Ok(ReturnValue::Void));
    assert_eq!(llvm_memset(&mut vm, args(4)), Ok(ReturnValue::Void));
    assert_eq!(read(&vm, at, 32), 0x55555555);
    assert_eq!(
        llvm_memset(&mut vm, args(5)),
        Err(VMError::MemoryError(MemoryError::OutOfBounds))
    );
}

#[test]
fn test_assume() {
    let mut vm = engine();
    let x = BV::symbol(1, 32);
    vm.state.assign(1, x.clone());
    let condition = x.eq(&BV::from_u64(5, 32));
    vm.state.assign(2, condition.clone());
    let mut model = Model::new();
    model.set_symbol(1, 5);
    assert!(vm.state.solver.set_model(model));

    let r = llvm_assume(
        &mut vm,
        call(vec![(Operand::Local(2), Type::Integer { bits: 1 })]),
    );
    assert_eq!(r, Ok(ReturnValue::Void));
    assert_eq!(vm.state.solver.len(), 1);
    assert_eq!(vm.state.solver.constraint(0), &condition);
    assert_eq!(vm.state.solver.get_solution(&x), Some(5));
    assert_eq!(
        get_u64_solution_from_operand(&vm.state, &Operand::Local(1)),
        Ok(5)
    );
}

#[test]
fn assume_of_what_the_witness_breaks_drops_the_witness() {
    let mut vm = engine();
    let r = llvm_assume(&mut vm, call(vec![integer(0, 1)]));
    assert_eq!(r, Ok(ReturnValue::Void));
    assert_eq!(vm.state.solver.len(), 1);
    assert!(!vm.state.solver.has_witness());
    // A constant is its own solution; what holds an unknown has none now.
    assert_eq!(
        get_u64_solution_from_operand(&vm.state, &Operand::Constant { value: 1, bits: 8 }),
        Ok(1)
    );
    vm.state.assign(1, BV::symbol(1, 8));
    assert_eq!(
        get_u64_solution_from_operand(&vm.state, &Operand::Local(1)),
        Err(VMError::SolverError)
    );
    assert_eq!(
        get_u64_solution_from_operand(&vm.state, &Operand::Local(2)),
        Err(VMError::MalformedInstruction)
    );
    vm.state.assign(3, BV::from_u64(1, 65));
    assert_eq!(
        get_u64_solution_from_operand(&vm.state, &Operand::Local(3)),
        Err(VMError::SolverError)
    );
}

// -------------------------------------------------------------------------------------------------
// Malformed calls
// -------------------------------------------------------------------------------------------------

#[test]
fn a_wrong_number_of_arguments_is_malformed() {
    let mut vm = engine();
    let malformed = Err(VMError::MalformedInstruction);
    assert_eq!(llvm_memcpy(&mut vm, call(vec![pointer(1), pointer(2), integer(1, 64)])), malformed);
    assert_eq!(llvm_memset(&mut vm, call(vec![pointer(1), integer(0, 8), integer(1, 64)])), malformed);
    assert_eq!(llvm_umax(&mut vm, call(vec![integer(1, 8)])), malformed);
    assert_eq!(llvm_uadd_with_overflow(&mut vm, call(vec![integer(1, 8)])), malformed);
    assert_eq!(llvm_sadd_sat(&mut vm, call(vec![integer(1, 8), integer(1, 8), integer(1, 8)])), malformed);
    assert_eq!(llvm_expect(&mut vm, call(vec![integer(1, 8)])), malformed);
    assert_eq!(llvm_assume(&mut vm, call(vec![])), malformed);
    assert_eq!(vm.state.solver.len(), 0);
}

#[test]
fn operands_without_a_value_are_malformed() {
    let mut vm = engine();
    let malformed = Err(VMError::MalformedInstruction);
    let missing = (Operand::Local(77), Type::Integer { bits: 8 });
    assert_eq!(llvm_umax(&mut vm, call(vec![missing, integer(1, 8)])), malformed);
    assert_eq!(llvm_expect(&mut vm, call(vec![missing, integer(1, 8)])), malformed);
    assert_eq!(llvm_assume(&mut vm, call(vec![integer(1, 0)])), malformed);
    assert_eq!(
        llvm_memcpy(&mut vm, call(vec![pointer(1), pointer(2), missing, integer(0, 1)])),
        malformed
    );
    assert_eq!(vm.state.get_var(&Operand::Local(77)), Err(VMError::MalformedInstruction));
}

#[test]
fn operands_of_the_wrong_width_are_malformed() {
    let mut vm = engine();
    let malformed = Err(VMError::MalformedInstruction);
    assert_eq!(llvm_umax(&mut vm, call(vec![integer(1, 8), integer(1, 16)])), malformed);
    assert_eq!(llvm_assume(&mut vm, call(vec![integer(1, 8)])), malformed);
    assert_eq!(
        llvm_memset(&mut vm, call(vec![pointer(1), integer(0, 16), integer(1, 64), integer(0, 1)])),
        malformed
    );
    assert_eq!(
        llvm_memcpy(&mut vm, call(vec![integer(1, 32), pointer(2), integer(1, 64), integer(0, 1)])),
        malformed
    );
    let short = (Operand::Constant { value: 1, bits: 8 }, Type::Vector { lanes: 2, bits: 8 });
    assert_eq!(llvm_uadd_sat(&mut vm, call(vec![short, short])), malformed);
    let empty = (Operand::Constant { value: 1, bits: 8 }, Type::Vector { lanes: 0, bits: 8 });
    assert_eq!(llvm_uadd_sat(&mut vm, call(vec![empty, empty])), malformed);
    let void = (Operand::Constant { value: 1, bits: 8 }, Type::Void);
    assert_eq!(llvm_umax(&mut vm, call(vec![void, void])), malformed);
}

#[test]
fn binop_applies_an_operation_to_each_lane() {
    let mut vm = engine();
    vm.state.assign(1, BV::from_u64(0x0403_0201, 32));
    vm.state.assign(2, BV::from_u64(0x0101_0303, 32));
    let ty = Type::Vector { lanes: 4, bits: 8 };
    let (a, b) = (Operand::Local(1), Operand::Local(2));
    let value = |bv: BV| bv.get_solution(&Model::new()).unwrap();
    let sum = binop(&vm.state, &a, &b, &ty, LaneOp::Binary(BinOp::Add)).unwrap();
    assert_eq!(sum.len(), 32);
    assert_eq!(value(sum), 0x0504_0504);
    let greater = binop(&vm.state, &a, &b, &ty, LaneOp::Binary(BinOp::Ugt)).unwrap();
    assert_eq!(greater.len(), 4);
    assert_eq!(value(greater), 0b1100);
    let whole = binop(&vm.state, &a, &b, &Type::Integer { bits: 32 }, LaneOp::Binary(BinOp::Sub));
    assert_eq!(value(whole.unwrap()), 0x0301_fefe);
    assert_eq!(
        binop(&vm.state, &a, &b, &ty, LaneOp::Binary(BinOp::Concat)),
        Err(VMError::MalformedInstruction)
    );
    assert_eq!(
        binop(&vm.state, &a, &b, &Type::Pointer, LaneOp::Umax),
        Err(VMError::MalformedInstruction)
    );
}

// -------------------------------------------------------------------------------------------------
// Calls by name
// -------------------------------------------------------------------------------------------------

#[test]
fn a_call_by_name_runs_the_hook() {
    let s = Intrinsics::new_with_defaults();
    let mut vm = engine();
    let r = s.call(
        &mut vm,
        "llvm.uadd.with.overflow.i8",
        call(vec![integer(0x04, 8), integer(0xff, 8)]),
    );
    assert_eq!(returned(r), (0x0103, 9));
    let r = s.call(&mut vm, "llvm.dbg.value", call(vec![]));
    assert_eq!(r, Ok(ReturnValue::Void));
    let r = s.call(&mut vm, "llvm.smin.i8", call(vec![integer(0x80, 8), integer(1, 8)]));
    assert_eq!(returned(r), (0x80, 8));
    let r = s.call(&mut vm, "llvm.assume", call(vec![integer(1, 1)]));
    assert_eq!(r, Ok(ReturnValue::Void));
    assert_eq!(vm.state.solver.len(), 1);
    assert_eq!(
        returned(Hook::Umax.call(&mut vm, call(vec![integer(3, 8), integer(9, 8)]))),
        (9, 8)
    );
}

#[test]
fn a_call_of_an_intrinsic_without_a_hook_is_unsupported() {
    let s = Intrinsics::new_with_defaults();
    let mut vm = engine();
    let r = s.call(&mut vm, "llvm.ssub.sat.i8", call(vec![integer(1, 8), integer(2, 8)]));
    assert_eq!(r, Err(VMError::UnsupportedInstruction));
    let r = s.call(&mut vm, "llvm.sqrt.f64", call(vec![]));
    assert_eq!(r, Err(VMError::UnsupportedInstruction));
    let r = s.call(&mut vm, "llvm.dbgx", call(vec![]));
    assert_eq!(r, Err(VMError::UnsupportedInstruction));
}

#[test]
fn a_call_of_what_is_no_intrinsic_is_unknown() {
    let s = Intrinsics::new_with_defaults();
    let mut vm = engine();
    let r = s.call(&mut vm, "printf", call(vec![]));
    assert_eq!(r, Err(VMError::UnknownFunction("printf".to_string())));
}

// -------------------------------------------------------------------------------------------------
// Project and engine
// -------------------------------------------------------------------------------------------------

#[test]
fn bit_sizes_of_types() {
    let project = Project::new(32).unwrap();
    assert_eq!(project.bit_size(&Type::Integer { bits: 17 }), Some(17));
    assert_eq!(project.bit_size(&Type::Integer { bits: 0 }), None);
    assert_eq!(project.bit_size(&Type::Pointer), Some(32));
    assert_eq!(project.bit_size(&Type::Void), None);
    assert_eq!(project.bit_size(&Type::Vector { lanes: 4, bits: 32 }), Some(128));
    assert_eq!(project.bit_size(&Type::Vector { lanes: 0, bits: 32 }), None);
    assert_eq!(project.bit_size(&Type::Vector { lanes: 4, bits: 0 }), None);
    assert_eq!(project.bit_size(&Type::Vector { lanes: 1 << 16, bits: 1 << 16 }), None);
}

#[test]
fn pointer_widths_of_projects() {
    assert!(Project::new(0).is_none());
    assert!(Project::new(65).is_none());
    assert_eq!(Project::new(1), Some(Project { ptr_size: 1 }));
    assert!(VM::new(Project { ptr_size: 0 }).is_none());
    let mut vm = engine();
    assert!(vm.is_consistent());
    vm.project.ptr_size = 32;
    assert!(!vm.is_consistent());
}

#[test]
fn a_later_binding_of_a_local_counts() {
    let mut vm = engine();
    vm.state.assign(1, BV::from_u64(1, 8));
    vm.state.assign(2, BV::from_u64(2, 8));
    vm.state.assign(1, BV::from_u64(3, 8));
    assert_eq!(vm.state.get_var(&Operand::Local(1)), Ok(BV::from_u64(3, 8)));
    assert_eq!(vm.state.get_var(&Operand::Local(2)), Ok(BV::from_u64(2, 8)));
    assert_eq!(
        vm.state.get_var(&Operand::Constant { value: 0x1ff, bits: 8 }),
        Ok(BV::from_u64(0xff, 8))
    );
}
