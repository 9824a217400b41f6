//! LLVM supports a large number of intrinsic functions which are not implemented in bitcode.
//! Thus, these all have to be hooks that are implemented in the system.
//!
//! # Status of supported intrinsics
//!
//! ## Standard C/C++ intrinsics
//!
//! - [x] `llvm.smax.*`
//! - [x] `llvm.smin.*`
//! - [x] `llvm.umax.*`
//! - [x] `llvm.umin.*`
//! - [x] `llvm.memcpy`
//! - [x] `llvm.memset`
//!
//! ## Arithmetic with overflow intrinsics
//!
//! - [x] `llvm.sadd.with.overflow.*`
//! - [x] `llvm.uadd.with.overflow.*`
//! - [x] `llvm.ssub.with.overflow.*`
//! - [x] `llvm.usub.with.overflow.*`
//! - [x] `llvm.smul.with.overflow.*`
//! - [x] `llvm.umul.with.overflow.*`
//!
//! ## Saturation arithmetic intrinsics
//!
//! - [x] `llvm.sadd.sat.*`
//! - [x] `llvm.uadd.sat.*`
//!
//! ## General intrinsics (non-exhaustive)
//!
//! - [x] `llvm.expect`
//! - [x] `llvm.assume`
use super::{FnInfo, Hook};
use crate::common::{
    binop, binop_bits, binop_defined, binop_term, get_u64_solution_from_operand, solution_of,
    LaneOp,
};
use crate::memory::{
    address_value, byte_address, covering_bytes, lemma_addresses_differ, lemma_byte_address,
    lemma_load_wf, lemma_read_after_write, load, read_term, store, write_cells, MemoryError,
    Reach, BITS_IN_BYTE, MAX_ACCESS_BITS,
};
use crate::project::{bit_size_of, Type};
use crate::solver::arith::lemma_wrap_small;
use crate::solver::bv::{truncated, BV};
use crate::solver::kept_witness;
use crate::solver::laws::{lemma_flag_above_value, lemma_resize_unsigned};
use crate::solver::term::{
    binary, lemma_eval_range, slice, zero_extended, Array, BinOp, Env, Term,
};
use crate::vm::{outcome, ReturnValue, State, VMError, VM};
use radix_trie::Trie;
use std::rc::Rc;
use vstd::arithmetic::power2::{lemma2_to64, lemma_pow2_pos, pow2};
use vstd::hash_map::StringHashMap;
use vstd::prelude::*;

verus! {

/// The trie of the `radix_trie` crate. Nothing is known of what is inside
/// one but through [`trie_entries`].
#[verifier::external_type_specification]
#[verifier::external_body]
#[verifier::reject_recursive_types(K)]
#[verifier::reject_recursive_types(V)]
pub struct ExTrie<K, V>(Trie<K, V>);

/// The keys of a trie with their values.
pub uninterp spec fn trie_entries(trie: Trie<String, u8>) -> Map<Seq<char>, u8>;

/// Whether `k` is the longest of `keys` that `name` starts with.
pub open spec fn is_longest_prefix(keys: Set<Seq<char>>, name: Seq<char>, k: Seq<char>) -> bool {
    &&& keys.contains(k)
    &&& k.is_prefix_of(name)
    &&& forall|other: Seq<char>|
        keys.contains(other) && other.is_prefix_of(name) ==> other.len() <= k.len()
}

/// Whether `name` starts with none of `keys`.
pub open spec fn no_prefix(keys: Set<Seq<char>>, name: Seq<char>) -> bool {
    forall|k: Seq<char>| keys.contains(k) ==> !k.is_prefix_of(name)
}

/// An empty trie. Wraps `Trie::new`.
#[verifier::external_body]
fn trie_new() -> (trie: Trie<String, u8>)
    ensures
        trie_entries(trie).dom() == Set::<Seq<char>>::empty(),
{
    Trie::new()
}

/// Puts `value` under `key`. Wraps `Trie::insert`, which stores the pair,
/// replacing the value that the key had, and returns that value.
#[verifier::external_body]
fn trie_insert(trie: &mut Trie<String, u8>, key: String, value: u8) -> (previous: Option<u8>)
    ensures
        trie_entries(*final(trie)) == trie_entries(*old(trie)).insert(key@, value),
        previous == (if trie_entries(*old(trie)).dom().contains(key@) {
            Some(trie_entries(*old(trie))[key@])
        } else {
            None::<u8>
        }),
{
    trie.insert(key, value)
}

/// The value of the longest key that `name` starts with. Wraps
/// `Trie::get_ancestor_value`, which walks down the trie along the bytes of
/// `name` and returns the value of the deepest node on the way that has
/// one: the key of that node is the longest stored key whose bytes `name`
/// starts with, and `None` comes back where no stored key is such. Strings
/// are keyed by their UTF-8 bytes, and one string's bytes start with
/// another's exactly where its characters do.
#[verifier::external_body]
fn trie_get_ancestor_value(trie: &Trie<String, u8>, name: &str) -> (value: Option<u8>)
    ensures
        match value {
            Some(v) => exists|k: Seq<char>|
                #![auto]
                is_longest_prefix(trie_entries(*trie).dom(), name@, k) && trie_entries(*trie)[k]
                    == v,
            None => no_prefix(trie_entries(*trie).dom(), name@),
        },
{
    trie.get_ancestor_value(name).copied()
}

/// Check if the given name is an LLVM intrinsic.
///
/// It checks that the name starts with `llvm.`.
pub fn is_intrinsic(name: &str) -> (b: bool)
    ensures
        b == "llvm."@.is_prefix_of(name@),
{
    proof {
        reveal_strlit("llvm.");
    }
    if name.unicode_len() < 5 {
        return false;
    }
    let b = name.get_char(0) == 'l' && name.get_char(1) == 'l' && name.get_char(2) == 'v'
        && name.get_char(3) == 'm' && name.get_char(4) == '.';
    proof {
        let start = name@.subrange(0, 5);
        assert(start[0] == name@[0] && start[1] == name@[1] && start[2] == name@[2] && start[3]
            == name@[3] && start[4] == name@[4]);
        if b {
            assert("llvm."@ =~= start);
        }
    }
    b
}

/// Intrinsic hook storage.
///
/// Keeps track of intrinsics that have only one version such as `llvm.va_start` and those with
/// multiple versions such as `llvm.abs.*` which is valid for multiple bit lengths.
///
/// Fixed length name intrinsics are kept in a hash map, so all lookups are constant time.
/// Variable intrinsic names are kept in a trie, so lookups are linear time of the retrieved name.
pub struct Intrinsics {
    /// Fixed length intrinsic values, e.g. `llvm.va_start`.
    fixed: StringHashMap<Hook>,
    /// Intrinsics with a suffix such as `llvm.abs.*`.
    ///
    /// Note that the field does not care what the suffix is, it only finds the closest ancestor
    /// (if any).
    variable: Trie<String, u8>,
}

/// The names that the default storage knows in full.
pub open spec fn default_fixed() -> Map<Seq<char>, Hook> {
    Map::<Seq<char>, Hook>::empty().insert("llvm.assume"@, Hook::Assume)
}

/// The beginnings of names that the default storage knows.
pub open spec fn default_variable() -> Map<Seq<char>, Hook> {
    Map::<Seq<char>, Hook>::empty().insert("llvm.memcpy."@, Hook::Memcpy).insert(
        "llvm.memset."@,
        Hook::Memset,
    ).insert("llvm.umax."@, Hook::Umax).insert("llvm.smax."@, Hook::Smax).insert(
        "llvm.umin."@,
        Hook::Umin,
    ).insert("llvm.smin."@, Hook::Smin).insert(
        "llvm.sadd.with.overflow."@,
        Hook::SaddWithOverflow,
    ).insert("llvm.uadd.with.overflow."@, Hook::UaddWithOverflow).insert(
        "llvm.ssub.with.overflow."@,
        Hook::SsubWithOverflow,
    ).insert("llvm.usub.with.overflow."@, Hook::UsubWithOverflow).insert(
        "llvm.smul.with.overflow."@,
        Hook::SmulWithOverflow,
    ).insert("llvm.umul.with.overflow."@, Hook::UmulWithOverflow).insert(
        "llvm.sadd.sat."@,
        Hook::SaddSat,
    ).insert("llvm.uadd.sat."@, Hook::UaddSat).insert("llvm.expect."@, Hook::Expect).insert(
        "llvm.dbg."@,
        Hook::Noop,
    ).insert("llvm.lifetime."@, Hook::Noop).insert("llvm.experimental."@, Hook::Noop)
}

/// The hook that a lookup of `name` gives, where names are known in full by
/// `fixed` and by their beginnings by `variable`: the hook under the name
/// itself in `fixed`, else the hook under the longest beginning of the name
/// in `variable`, else none.
pub open spec fn resolves_to(
    fixed: Map<Seq<char>, Hook>,
    variable: Map<Seq<char>, Hook>,
    name: Seq<char>,
    found: Option<Hook>,
) -> bool {
    if fixed.dom().contains(name) {
        found == Some(fixed[name])
    } else {
        match found {
            Some(hook) => exists|k: Seq<char>|
                #![auto]
                is_longest_prefix(variable.dom(), name, k) && variable[k] == hook,
            None => no_prefix(variable.dom(), name),
        }
    }
}

impl Intrinsics {
    /// The hooks that are known by their full names.
    pub closed spec fn fixed(&self) -> Map<Seq<char>, Hook> {
        self.fixed@
    }

    /// The hooks that are known by the beginnings of their names.
    pub closed spec fn variable(&self) -> Map<Seq<char>, Hook> {
        Map::new(
            |k: Seq<char>| trie_entries(self.variable).dom().contains(k),
            |k: Seq<char>| Hook::of_code(trie_entries(self.variable)[k]),
        )
    }

    /// An intrinsic hook storage that knows no name.
    pub fn new() -> (s: Intrinsics)
        ensures
            s.fixed() == Map::<Seq<char>, Hook>::empty(),
            s.variable() == Map::<Seq<char>, Hook>::empty(),
    {
        let s = Intrinsics { fixed: StringHashMap::new(), variable: trie_new() };
        assert(s.variable() =~= Map::<Seq<char>, Hook>::empty());
        s
    }

    /// Creates a new intrinsic hook storage with all the default intrinsics enabled.
    pub fn new_with_defaults() -> (s: Intrinsics)
        ensures
            s.fixed() == default_fixed(),
            s.variable() == default_variable(),
    {
        let mut s = Intrinsics::new();

        // Add fixed intrinsics.
        s.add_fixed("llvm.assume", Hook::Assume);

        // Add variable intrinsics.
        s.add_variable("llvm.memcpy.", Hook::Memcpy);
        s.add_variable("llvm.memset.", Hook::Memset);
        s.add_variable("llvm.umax.", Hook::Umax);
        s.add_variable("llvm.smax.", Hook::Smax);
        s.add_variable("llvm.umin.", Hook::Umin);
        s.add_variable("llvm.smin.", Hook::Smin);

        s.add_variable("llvm.sadd.with.overflow.", Hook::SaddWithOverflow);
        s.add_variable("llvm.uadd.with.overflow.", Hook::UaddWithOverflow);
        s.add_variable("llvm.ssub.with.overflow.", Hook::SsubWithOverflow);
        s.add_variable("llvm.usub.with.overflow.", Hook::UsubWithOverflow);
        s.add_variable("llvm.smul.with.overflow.", Hook::SmulWithOverflow);
        s.add_variable("llvm.umul.with.overflow.", Hook::UmulWithOverflow);

        s.add_variable("llvm.sadd.sat.", Hook::SaddSat);
        s.add_variable("llvm.uadd.sat.", Hook::UaddSat);

        s.add_variable("llvm.expect.", Hook::Expect);

        // Families that change nothing in the engine.
        s.add_variable("llvm.dbg.", Hook::Noop);
        s.add_variable("llvm.lifetime.", Hook::Noop);
        s.add_variable("llvm.experimental.", Hook::Noop);

        s
    }

    /// Add a fixed length intrinsic.
    pub fn add_fixed(&mut self, name: &str, hook: Hook)
        ensures
            final(self).fixed() == old(self).fixed().insert(name@, hook),
            final(self).variable() == old(self).variable(),
    {
        self.fixed.insert(name.to_owned(), hook);
    }

    /// Add a variable length intrinsic, e.g. if they support any kind of bit width such as
    /// `llvm.abs.*`.
    ///
    /// Note that it matches for the entire prefix, so to add `llvm.abs.*` the name should only be
    /// `llvm.abs.`
    pub fn add_variable(&mut self, name: &str, hook: Hook)
        ensures
            final(self).fixed() == old(self).fixed(),
            final(self).variable() == old(self).variable().insert(name@, hook),
    {
        trie_insert(&mut self.variable, name.to_owned(), hook.code());
        assert(self.variable() =~= old(self).variable().insert(name@, hook));
    }

    /// Returns the hook of the given name. If the hook cannot be found `None` is returned.
    ///
    /// It first checks the fixed length names, and if such a name cannot be found it checks the
    /// variable length names.
    pub fn get(&self, name: &str) -> (hook: Option<Hook>)
        ensures
            resolves_to(self.fixed(), self.variable(), name@, hook),
    {
        match self.fixed.get(name) {
            Some(hook) => Some(*hook),
            None => {
                match trie_get_ancestor_value(&self.variable, name) {
                    Some(code) => {
                        let hook = Hook::from_code(code);
                        proof {
                            let k = choose|k: Seq<char>|
                                #![auto]
                                is_longest_prefix(trie_entries(self.variable).dom(), name@, k)
                                    && trie_entries(self.variable)[k] == code;
                            assert(self.variable().dom() =~= trie_entries(self.variable).dom());
                            assert(is_longest_prefix(self.variable().dom(), name@, k));
                            assert(self.variable()[k] == hook);
                        }
                        Some(hook)
                    },
                    None => {
                        proof {
                            assert(self.variable().dom() =~= trie_entries(self.variable).dom());
                        }
                        None
                    },
                }
            },
        }
    }
}

// -------------------------------------------------------------------------------------------------
// Hooks
// -------------------------------------------------------------------------------------------------

/// A hook that does nothing.
pub fn noop(_vm: &mut VM, _f: FnInfo) -> (r: Result<ReturnValue, VMError>)
    ensures
        outcome(r) == Ok::<Option<Term>, VMError>(None),
        *final(_vm) == *old(_vm),
{
    Ok(ReturnValue::Void)
}

// -------------------------------------------------------------------------------------------------
// Standard C/C++ intrinsics
// -------------------------------------------------------------------------------------------------

/// What `llvm.memcpy` leaves in memory, or how it fails. The arguments are
/// the destination, the source, the number of bytes and a flag that is not
/// looked at.
pub open spec fn memcpy_cells(state: State, f: FnInfo) -> Result<Array, VMError> {
    if f.arguments@.len() != 4 {
        Err(VMError::MalformedInstruction)
    } else {
        let ptr = state.mem.ptr_bits();
        match (state.term_of(f.arguments@[0].0), state.term_of(f.arguments@[1].0)) {
            (Some(dst), Some(src)) => if dst.width() != ptr || src.width() != ptr {
                Err(VMError::MalformedInstruction)
            } else {
                match solution_of(state, f.arguments@[2].0) {
                    Err(e) => Err(e),
                    Ok(size) => if size == 0 {
                        Ok(state.mem.cells())
                    } else if size > MAX_ACCESS_BITS / BITS_IN_BYTE || state.mem.out_of_bounds(
                        src,
                        size as nat,
                        f.told_at(0),
                    ) || state.mem.out_of_bounds(dst, size as nat, f.told_at(1)) {
                        Err(VMError::MemoryError(MemoryError::OutOfBounds))
                    } else {
                        Ok(
                            write_cells(
                                state.mem.cells(),
                                dst,
                                read_term(state.mem.cells(), src, (size * 8) as u32, ptr),
                                ptr,
                            ),
                        )
                    },
                }
            },
            _ => Err(VMError::MalformedInstruction),
        }
    }
}

/// Whether `after` is `before` with other contents of memory and nothing
/// else changed.
pub open spec fn only_cells_changed(before: VM, after: VM, cells: Array) -> bool {
    &&& after.project == before.project
    &&& after.paths == before.paths
    &&& after.state.locals == before.state.locals
    &&& after.state.solver == before.state.solver
    &&& after.state.mem.cells() == cells
    &&& after.state.mem.ptr_bits() == before.state.mem.ptr_bits()
    &&& after.state.mem.allocations() == before.state.mem.allocations()
    &&& after.state.mem.cursor() == before.state.mem.cursor()
    &&& after.state.mem.checks_bounds() == before.state.mem.checks_bounds()
}

/// Copy a block of memory from the source to the destination.
///
/// Arguments:
/// 1. Pointer to destination.
/// 2. Pointer to source.
/// 3. Integer, number of bytes to copy.
/// 4. Bool, indicates volatile access.
///
/// The number of bytes is the solution that the solver gives for the third
/// argument. No byte is copied where it is zero.
///
/// Fails with `MalformedInstruction` unless there are four arguments, each
/// of the first three has a value and both pointers are as wide as a
/// pointer; with the solver's error where it gives no solution; and with
/// `OutOfBounds` where the memory tells either access as out of bounds or
/// more bytes are asked for than one bit-vector holds. The engine is then
/// left as it was. The solver's word on the read at the source is the
/// first of `f.told` and its word on the write at the destination the
/// second.
pub fn llvm_memcpy(vm: &mut VM, f: FnInfo) -> (r: Result<ReturnValue, VMError>)
    ensures
        match memcpy_cells(old(vm).state, f) {
            Ok(cells) => outcome(r) == Ok::<Option<Term>, VMError>(None) && only_cells_changed(
                *old(vm),
                *final(vm),
                cells,
            ),
            Err(e) => r == Err::<ReturnValue, VMError>(e) && *final(vm) == *old(vm),
        },
{
    if f.arguments.len() != 4 {
        return Err(VMError::MalformedInstruction);
    }
    let dst = f.arguments[0].0;
    let src = f.arguments[1].0;
    let size = f.arguments[2].0;

    let dst = match vm.state.get_var(&dst) {
        Ok(v) => v,
        Err(e) => {
            return Err(e);
        },
    };
    let src = match vm.state.get_var(&src) {
        Ok(v) => v,
        Err(e) => {
            return Err(e);
        },
    };
    let ptr_size = vm.state.mem.ptr_size();
    if dst.len() != ptr_size || src.len() != ptr_size {
        return Err(VMError::MalformedInstruction);
    }
    let size = match get_u64_solution_from_operand(&vm.state, &size) {
        Ok(v) => v,
        Err(e) => {
            return Err(e);
        },
    };
    if size == 0 {
        return Ok(ReturnValue::Void);
    }
    if size > (MAX_ACCESS_BITS / BITS_IN_BYTE) as u64 {
        return Err(VMError::MemoryError(MemoryError::OutOfBounds));
    }
    if !vm.state.mem.access_allowed(&dst, size, f.reach(1)) {
        return Err(VMError::MemoryError(MemoryError::OutOfBounds));
    }
    let bits = size as u32 * BITS_IN_BYTE;
    assert(covering_bytes(bits as nat) == size);

    let value = match vm.state.mem.read(&src, bits, f.reach(0)) {
        Ok(v) => v,
        Err(e) => {
            return Err(VMError::MemoryError(e));
        },
    };
    match vm.state.mem.write(&dst, value, f.reach(1)) {
        Ok(()) => Ok(ReturnValue::Void),
        Err(e) => Err(VMError::MemoryError(e)),
    }
}

/// `cells` with `value` written to each of the `n` bytes from `dst` on.
pub open spec fn filled(cells: Array, dst: Term, value: Term, n: nat, ptr_size: u32) -> Array
    decreases n,
{
    if n == 0 {
        cells
    } else {
        write_cells(
            filled(cells, dst, value, (n - 1) as nat, ptr_size),
            byte_address(dst, (n - 1) as nat, ptr_size),
            value,
            ptr_size,
        )
    }
}

/// What `llvm.memset` leaves in memory, or how it fails. The arguments are
/// the address, the byte to fill with, the number of bytes and a flag that
/// is not looked at.
pub open spec fn memset_cells(state: State, f: FnInfo) -> Result<Array, VMError> {
    if f.arguments@.len() != 4 {
        Err(VMError::MalformedInstruction)
    } else {
        let ptr = state.mem.ptr_bits();
        match (state.term_of(f.arguments@[0].0), state.term_of(f.arguments@[1].0)) {
            (Some(dst), Some(value)) => if dst.width() != ptr || value.width() != BITS_IN_BYTE {
                Err(VMError::MalformedInstruction)
            } else {
                match solution_of(state, f.arguments@[2].0) {
                    Err(e) => Err(e),
                    Ok(size) => if size == 0 {
                        Ok(state.mem.cells())
                    } else if state.mem.out_of_bounds(dst, size as nat, f.told_at(0)) {
                        Err(VMError::MemoryError(MemoryError::OutOfBounds))
                    } else {
                        Ok(filled(state.mem.cells(), dst, value, size as nat, ptr))
                    },
                }
            },
            _ => Err(VMError::MalformedInstruction),
        }
    }
}

/// Fill a block of memory with a byte.
///
/// Arguments:
/// 1. Pointer to address to fill.
/// 2. Byte to to fill with.
/// 3. Number of bytes to fill.
/// 4. Indicates volatile access.
///
/// The number of bytes is the solution that the solver gives for the third
/// argument.
///
/// Fails with `MalformedInstruction` unless there are four arguments, each
/// of the first three has a value, the pointer is as wide as a pointer and
/// the byte has eight bits; with the solver's error where it gives no
/// solution; and with `OutOfBounds` where bytes are to be filled and the
/// memory tells the access as out of bounds. The engine is then left as it
/// was. Nothing is written, and nothing fails for its bounds, where the
/// number of bytes is zero. The solver's word on the bytes to be filled is
/// the first of `f.told`.
pub fn llvm_memset(vm: &mut VM, f: FnInfo) -> (r: Result<ReturnValue, VMError>)
    ensures
        match memset_cells(old(vm).state, f) {
            Ok(cells) => outcome(r) == Ok::<Option<Term>, VMError>(None) && only_cells_changed(
                *old(vm),
                *final(vm),
                cells,
            ),
            Err(e) => r == Err::<ReturnValue, VMError>(e) && *final(vm) == *old(vm),
        },
{
    if f.arguments.len() != 4 {
        return Err(VMError::MalformedInstruction);
    }
    let dst = f.arguments[0].0;
    let value = f.arguments[1].0;
    let size = f.arguments[2].0;

    let dst = match vm.state.get_var(&dst) {
        Ok(v) => v,
        Err(e) => {
            return Err(e);
        },
    };
    let value = match vm.state.get_var(&value) {
        Ok(v) => v,
        Err(e) => {
            return Err(e);
        },
    };
    let ptr_size = vm.state.mem.ptr_size();
    if dst.len() != ptr_size || value.len() != BITS_IN_BYTE {
        return Err(VMError::MalformedInstruction);
    }
    let size = match get_u64_solution_from_operand(&vm.state, &size) {
        Ok(v) => v,
        Err(e) => {
            return Err(e);
        },
    };
    if size == 0 {
        return Ok(ReturnValue::Void);
    }
    let told = f.reach(0);
    if !vm.state.mem.access_allowed(&dst, size, told) {
        return Err(VMError::MemoryError(MemoryError::OutOfBounds));
    }
    proof {
        use_type_invariant(&vm.state.mem);
        vm.state.mem.lemma_inv();
    }
    let ghost start = vm.state.mem.cells();
    let mut byte: u64 = 0;
    while byte < size
        invariant
            byte <= size,
            1 <= ptr_size <= 64,
            dst@.wf(),
            !vm.state.mem.out_of_bounds(dst@, size as nat, told),
            ptr_size == old(vm).state.mem.ptr_bits(),
            dst@.width() == ptr_size,
            value@.width() == BITS_IN_BYTE,
            only_cells_changed(
                *old(vm),
                *vm,
                filled(start, dst@, value@, byte as nat, ptr_size),
            ),
        decreases size - byte,
    {
        let offset = BV::from_u64(byte, ptr_size);
        let addr = dst.add(&offset);
        proof {
            use_type_invariant(&vm.state.mem);
            vm.state.mem.lemma_bytes_in_bounds(dst@, size as nat, byte as nat, told);
        }

        match vm.state.mem.write(&addr, value.clone(), Reach::Inside) {
            Ok(()) => {},
            Err(e) => {
                return Err(VMError::MemoryError(e));
            },
        }
        byte += 1;
    }
    Ok(ReturnValue::Void)
}

/// What a hook gives that applies `op` to its two arguments, lane by lane
/// for vectors.
pub open spec fn lanewise_outcome(state: State, f: FnInfo, op: LaneOp) -> Result<
    Option<Term>,
    VMError,
> {
    if f.arguments@.len() != 2 {
        Err(VMError::MalformedInstruction)
    } else {
        let lhs = f.arguments@[0].0;
        let rhs = f.arguments@[1].0;
        let ty = f.arguments@[0].1;
        if binop_defined(state, lhs, rhs, ty, op) {
            Ok(Some(binop_term(op, state.term_of(lhs).unwrap(), state.term_of(rhs).unwrap(), ty)))
        } else {
            Err(VMError::MalformedInstruction)
        }
    }
}

/// Applies `op` to the two arguments of a call.
fn lanewise_hook(vm: &VM, f: &FnInfo, op: LaneOp) -> (r: Result<BV, VMError>)
    ensures
        match r {
            Ok(v) => lanewise_outcome(vm.state, *f, op) == Ok::<Option<Term>, VMError>(Some(v@))
                && v@.width() == binop_bits(
                op,
                f.arguments@[0].1,
                bit_size_of(f.arguments@[0].1, vm.state.mem.ptr_bits()).unwrap(),
            ),
            Err(e) => lanewise_outcome(vm.state, *f, op) == Err::<Option<Term>, VMError>(e),
        },
{
    if f.arguments.len() != 2 {
        return Err(VMError::MalformedInstruction);
    }
    let lhs = f.arguments[0].0;
    let rhs = f.arguments[1].0;
    let ty = f.arguments[0].1;
    binop(&vm.state, &lhs, &rhs, &ty, op)
}

/// The greater of the two arguments, read as unsigned; for vectors, of
/// each pair of lanes. Fails with `MalformedInstruction` unless there are
/// two arguments with values of the size of the first argument's type.
pub fn llvm_umax(vm: &mut VM, f: FnInfo) -> (r: Result<ReturnValue, VMError>)
    ensures
        outcome(r) == lanewise_outcome(old(vm).state, f, LaneOp::Umax),
        *final(vm) == *old(vm),
{
    match lanewise_hook(vm, &f, LaneOp::Umax) {
        Ok(result) => Ok(ReturnValue::Value(result)),
        Err(e) => Err(e),
    }
}

/// The greater of the two arguments, read as signed; for vectors, of each
/// pair of lanes. Fails with `MalformedInstruction` unless there are two
/// arguments with values of the size of the first argument's type.
pub fn llvm_smax(vm: &mut VM, f: FnInfo) -> (r: Result<ReturnValue, VMError>)
    ensures
        outcome(r) == lanewise_outcome(old(vm).state, f, LaneOp::Smax),
        *final(vm) == *old(vm),
{
    match lanewise_hook(vm, &f, LaneOp::Smax) {
        Ok(result) => Ok(ReturnValue::Value(result)),
        Err(e) => Err(e),
    }
}

/// The lesser of the two arguments, read as unsigned; for vectors, of each
/// pair of lanes. Fails with `MalformedInstruction` unless there are two
/// arguments with values of the size of the first argument's type.
pub fn llvm_umin(vm: &mut VM, f: FnInfo) -> (r: Result<ReturnValue, VMError>)
    ensures
        outcome(r) == lanewise_outcome(old(vm).state, f, LaneOp::Umin),
        *final(vm) == *old(vm),
{
    match lanewise_hook(vm, &f, LaneOp::Umin) {
        Ok(result) => Ok(ReturnValue::Value(result)),
        Err(e) => Err(e),
    }
}

/// The lesser of the two arguments, read as signed; for vectors, of each
/// pair of lanes. Fails with `MalformedInstruction` unless there are two
/// arguments with values of the size of the first argument's type.
pub fn llvm_smin(vm: &mut VM, f: FnInfo) -> (r: Result<ReturnValue, VMError>)
    ensures
        outcome(r) == lanewise_outcome(old(vm).state, f, LaneOp::Smin),
        *final(vm) == *old(vm),
{
    match lanewise_hook(vm, &f, LaneOp::Smin) {
        Ok(result) => Ok(ReturnValue::Value(result)),
        Err(e) => Err(e),
    }
}

// -------------------------------------------------------------------------------------------------
// Arithmetic with overflow intrinsics
// -------------------------------------------------------------------------------------------------

/// All the binary operations that check for overflow.
#[derive(Debug, Clone, Copy, PartialEq, Eq, Structural)]
pub enum BinaryOpOverflow {
    SAdd,
    UAdd,
    SSub,
    USub,
    SMul,
    UMul,
}

impl BinaryOpOverflow {
    /// The operator that gives the wrapped result.
    pub open spec fn value_op(self) -> BinOp {
        match self {
            BinaryOpOverflow::SAdd | BinaryOpOverflow::UAdd => BinOp::Add,
            BinaryOpOverflow::SSub | BinaryOpOverflow::USub => BinOp::Sub,
            BinaryOpOverflow::SMul | BinaryOpOverflow::UMul => BinOp::Mul,
        }
    }

    /// The operator that tells whether the result overflows.
    pub open spec fn flag_op(self) -> BinOp {
        match self {
            BinaryOpOverflow::SAdd => BinOp::Saddo,
            BinaryOpOverflow::UAdd => BinOp::Uaddo,
            BinaryOpOverflow::SSub => BinOp::Ssubo,
            BinaryOpOverflow::USub => BinOp::Usubo,
            BinaryOpOverflow::SMul => BinOp::Smulo,
            BinaryOpOverflow::UMul => BinOp::Umulo,
        }
    }

    fn operators(self) -> (ops: (BinOp, BinOp))
        ensures
            ops.0 == self.value_op(),
            ops.1 == self.flag_op(),
    {
        match self {
            BinaryOpOverflow::SAdd => (BinOp::Add, BinOp::Saddo),
            BinaryOpOverflow::UAdd => (BinOp::Add, BinOp::Uaddo),
            BinaryOpOverflow::SSub => (BinOp::Sub, BinOp::Ssubo),
            BinaryOpOverflow::USub => (BinOp::Sub, BinOp::Usubo),
            BinaryOpOverflow::SMul => (BinOp::Mul, BinOp::Smulo),
            BinaryOpOverflow::UMul => (BinOp::Mul, BinOp::Umulo),
        }
    }
}

/// What an operation that checks for overflow gives: the overflow flags
/// placed above the wrapped results. For vectors the flags of all lanes,
/// in the order of the lanes, stand above the results of all lanes.
pub open spec fn overflow_outcome(state: State, f: FnInfo, op: BinaryOpOverflow) -> Result<
    Option<Term>,
    VMError,
> {
    match (
        lanewise_outcome(state, f, LaneOp::Binary(op.value_op())),
        lanewise_outcome(state, f, LaneOp::Binary(op.flag_op())),
    ) {
        (Ok(Some(value)), Ok(Some(flags))) => {
            let ty = f.arguments@[0].1;
            let size = bit_size_of(ty, state.mem.ptr_bits()).unwrap();
            if binop_bits(LaneOp::Binary(op.value_op()), ty, size) + binop_bits(
                LaneOp::Binary(op.flag_op()),
                ty,
                size,
            ) <= u32::MAX {
                Ok(Some(binary(BinOp::Concat, flags, value)))
            } else {
                Err(VMError::MalformedInstruction)
            }
        },
        _ => Err(VMError::MalformedInstruction),
    }
}

/// Binary operations that indicate whether an overflow occurred or not.
///
/// Returns the overflow flag placed above the wrapped result; for vectors
/// the flags of all lanes above the results of all lanes. Fails with
/// `MalformedInstruction` unless there are two arguments with values of the
/// size of the first argument's type.
pub fn binary_op_overflow(vm: &mut VM, f: FnInfo, op: BinaryOpOverflow) -> (r: Result<
    ReturnValue,
    VMError,
>)
    ensures
        outcome(r) == overflow_outcome(old(vm).state, f, op),
        *final(vm) == *old(vm),
{
    let (value_op, flag_op) = op.operators();
    let result = match lanewise_hook(vm, &f, LaneOp::Binary(value_op)) {
        Ok(v) => v,
        Err(e) => {
            return Err(e);
        },
    };
    let overflow = match lanewise_hook(vm, &f, LaneOp::Binary(flag_op)) {
        Ok(v) => v,
        Err(e) => {
            return Err(e);
        },
    };
    if overflow.len() > u32::MAX - result.len() {
        return Err(VMError::MalformedInstruction);
    }
    let result_with_overflow = overflow.concat(&result);
    Ok(ReturnValue::Value(result_with_overflow))
}

/// Signed addition on any bit width, performs a signed addition and indicates whether an overflow
/// occurred.
pub fn llvm_sadd_with_overflow(vm: &mut VM, f: FnInfo) -> (r: Result<ReturnValue, VMError>)
    ensures
        outcome(r) == overflow_outcome(old(vm).state, f, BinaryOpOverflow::SAdd),
        *final(vm) == *old(vm),
{
    binary_op_overflow(vm, f, BinaryOpOverflow::SAdd)
}

/// Unsigned addition on any bit width, performs an unsigned addition and indicates whether an
/// overflow occurred.
pub fn llvm_uadd_with_overflow(vm: &mut VM, f: FnInfo) -> (r: Result<ReturnValue, VMError>)
    ensures
        outcome(r) == overflow_outcome(old(vm).state, f, BinaryOpOverflow::UAdd),
        *final(vm) == *old(vm),
{
    binary_op_overflow(vm, f, BinaryOpOverflow::UAdd)
}

/// Signed subtraction on any bit width, performs a signed subtraction and indicates whether an
/// overflow occurred.
pub fn llvm_ssub_with_overflow(vm: &mut VM, f: FnInfo) -> (r: Result<ReturnValue, VMError>)
    ensures
        outcome(r) == overflow_outcome(old(vm).state, f, BinaryOpOverflow::SSub),
        *final(vm) == *old(vm),
{
    binary_op_overflow(vm, f, BinaryOpOverflow::SSub)
}

/// Unsigned subtraction on any bit width, performs an unsigned subtraction and indicates whether an
/// overflow occurred.
pub fn llvm_usub_with_overflow(vm: &mut VM, f: FnInfo) -> (r: Result<ReturnValue, VMError>)
    ensures
        outcome(r) == overflow_outcome(old(vm).state, f, BinaryOpOverflow::USub),
        *final(vm) == *old(vm),
{
    binary_op_overflow(vm, f, BinaryOpOverflow::USub)
}

/// Signed multiplication on any bit width, performs a signed multiplication and indicates whether
/// an overflow occurred.
pub fn llvm_smul_with_overflow(vm: &mut VM, f: FnInfo) -> (r: Result<ReturnValue, VMError>)
    ensures
        outcome(r) == overflow_outcome(old(vm).state, f, BinaryOpOverflow::SMul),
        *final(vm) == *old(vm),
{
    binary_op_overflow(vm, f, BinaryOpOverflow::SMul)
}

/// Unsigned multiplication on any bit width, performs an unsigned multiplication and indicates
/// whether an overflow occurred.
pub fn llvm_umul_with_overflow(vm: &mut VM, f: FnInfo) -> (r: Result<ReturnValue, VMError>)
    ensures
        outcome(r) == overflow_outcome(old(vm).state, f, BinaryOpOverflow::UMul),
        *final(vm) == *old(vm),
{
    binary_op_overflow(vm, f, BinaryOpOverflow::UMul)
}

// -------------------------------------------------------------------------------------------------
// Saturation arithmetic intrinsics
// -------------------------------------------------------------------------------------------------

/// The binary operations that saturate.
#[derive(Debug, Clone, Copy, PartialEq, Eq, Structural)]
pub enum BinaryOpSaturate {
    SAdd,
    UAdd,
}

impl BinaryOpSaturate {
    /// The operation on one pair of lanes.
    pub open spec fn lane_op(self) -> LaneOp {
        match self {
            BinaryOpSaturate::SAdd => LaneOp::Sadds,
            BinaryOpSaturate::UAdd => LaneOp::Uadds,
        }
    }
}

/// Binary operations that hold their result within the range of the width.
///
/// `SAdd` is the signed and `UAdd` the unsigned saturating sum; for vectors,
/// of each pair of lanes. Fails with `MalformedInstruction` unless there
/// are two arguments with values of the size of the first argument's type.
pub fn binary_op_saturate(vm: &mut VM, f: FnInfo, op: BinaryOpSaturate) -> (r: Result<
    ReturnValue,
    VMError,
>)
    ensures
        outcome(r) == lanewise_outcome(old(vm).state, f, op.lane_op()),
        *final(vm) == *old(vm),
{
    let lane_op = match op {
        BinaryOpSaturate::SAdd => LaneOp::Sadds,
        BinaryOpSaturate::UAdd => LaneOp::Uadds,
    };
    match lanewise_hook(vm, &f, lane_op) {
        Ok(result) => Ok(ReturnValue::Value(result)),
        Err(e) => Err(e),
    }
}

/// Unsigned saturating addition.
pub fn llvm_uadd_sat(vm: &mut VM, f: FnInfo) -> (r: Result<ReturnValue, VMError>)
    ensures
        outcome(r) == lanewise_outcome(old(vm).state, f, LaneOp::Uadds),
        *final(vm) == *old(vm),
{
    binary_op_saturate(vm, f, BinaryOpSaturate::UAdd)
}

/// Signed saturating addition.
pub fn llvm_sadd_sat(vm: &mut VM, f: FnInfo) -> (r: Result<ReturnValue, VMError>)
    ensures
        outcome(r) == lanewise_outcome(old(vm).state, f, LaneOp::Sadds),
        *final(vm) == *old(vm),
{
    binary_op_saturate(vm, f, BinaryOpSaturate::SAdd)
}

// -------------------------------------------------------------------------------------------------
// General intrinsics
// -------------------------------------------------------------------------------------------------

/// What `llvm.expect` gives: its first argument; the second, the value
/// that is expected, is only a hint.
pub open spec fn expect_outcome(state: State, f: FnInfo) -> Result<Option<Term>, VMError> {
    if f.arguments@.len() != 2 {
        Err(VMError::MalformedInstruction)
    } else {
        match state.term_of(f.arguments@[0].0) {
            Some(value) => Ok(Some(value)),
            None => Err(VMError::MalformedInstruction),
        }
    }
}

/// Returns the first argument unchanged. Fails with `MalformedInstruction`
/// unless there are two arguments and the first has a value.
pub fn llvm_expect(vm: &mut VM, f: FnInfo) -> (r: Result<ReturnValue, VMError>)
    ensures
        outcome(r) == expect_outcome(old(vm).state, f),
        *final(vm) == *old(vm),
{
    if f.arguments.len() != 2 {
        return Err(VMError::MalformedInstruction);
    }
    let a0 = f.arguments[0].0;
    match vm.state.get_var(&a0) {
        Ok(val) => Ok(ReturnValue::Value(val)),
        Err(e) => Err(e),
    }
}

/// The condition that `llvm.assume` asserts, or how it fails: its one
/// argument, which must be one bit wide.
pub open spec fn assumed(state: State, info: FnInfo) -> Result<Term, VMError> {
    if info.arguments@.len() != 1 {
        Err(VMError::MalformedInstruction)
    } else {
        match state.term_of(info.arguments@[0].0) {
            Some(condition) => if condition.width() == 1 {
                Ok(condition)
            } else {
                Err(VMError::MalformedInstruction)
            },
            None => Err(VMError::MalformedInstruction),
        }
    }
}

/// Asserts the argument on the path's solver. Fails with
/// `MalformedInstruction` unless there is one argument and it has a value of
/// one bit; the engine is then left as it was.
pub fn llvm_assume(vm: &mut VM, info: FnInfo) -> (r: Result<ReturnValue, VMError>)
    ensures
        match assumed(old(vm).state, info) {
            Ok(condition) => {
                &&& outcome(r) == Ok::<Option<Term>, VMError>(None)
                &&& final(vm).project == old(vm).project
                &&& final(vm).paths == old(vm).paths
                &&& final(vm).state.locals == old(vm).state.locals
                &&& final(vm).state.mem == old(vm).state.mem
                &&& final(vm).state.solver@ == old(vm).state.solver@.asserted(condition)
                &&& final(vm).state.solver.witness() == kept_witness(
                    old(vm).state.solver.witness(),
                    condition,
                )
            },
            Err(e) => r == Err::<ReturnValue, VMError>(e) && *final(vm) == *old(vm),
        },
{
    if info.arguments.len() != 1 {
        return Err(VMError::MalformedInstruction);
    }
    let condition = info.arguments[0].0;
    let condition = match vm.state.get_var(&condition) {
        Ok(v) => v,
        Err(e) => {
            return Err(e);
        },
    };
    if condition.len() != 1 {
        return Err(VMError::MalformedInstruction);
    }
    vm.state.solver.constrain(&condition);

    Ok(ReturnValue::Void)
}

// -------------------------------------------------------------------------------------------------
// Calling a hook
// -------------------------------------------------------------------------------------------------

impl Hook {
    /// What a call of the hook gives and leaves: `r` is what it returns on
    /// the arguments `f` and `after` is the engine that it leaves, where
    /// `before` is the engine that it found.
    pub open spec fn gives(
        self,
        before: VM,
        f: FnInfo,
        after: VM,
        r: Result<ReturnValue, VMError>,
    ) -> bool {
        match self {
            Hook::Noop => outcome(r) == Ok::<Option<Term>, VMError>(None) && after == before,
            Hook::Assume => match assumed(before.state, f) {
                Ok(condition) => {
                    &&& outcome(r) == Ok::<Option<Term>, VMError>(None)
                    &&& after.project == before.project
                    &&& after.paths == before.paths
                    &&& after.state.locals == before.state.locals
                    &&& after.state.mem == before.state.mem
                    &&& after.state.solver@ == before.state.solver@.asserted(condition)
                    &&& after.state.solver.witness() == kept_witness(
                        before.state.solver.witness(),
                        condition,
                    )
                },
                Err(e) => r == Err::<ReturnValue, VMError>(e) && after == before,
            },
            Hook::Expect => outcome(r) == expect_outcome(before.state, f) && after == before,
            Hook::Memcpy => match memcpy_cells(before.state, f) {
                Ok(cells) => outcome(r) == Ok::<Option<Term>, VMError>(None)
                    && only_cells_changed(before, after, cells),
                Err(e) => r == Err::<ReturnValue, VMError>(e) && after == before,
            },
            Hook::Memset => match memset_cells(before.state, f) {
                Ok(cells) => outcome(r) == Ok::<Option<Term>, VMError>(None)
                    && only_cells_changed(before, after, cells),
                Err(e) => r == Err::<ReturnValue, VMError>(e) && after == before,
            },
            Hook::Umax => outcome(r) == lanewise_outcome(before.state, f, LaneOp::Umax) && after
                == before,
            Hook::Smax => outcome(r) == lanewise_outcome(before.state, f, LaneOp::Smax) && after
                == before,
            Hook::Umin => outcome(r) == lanewise_outcome(before.state, f, LaneOp::Umin) && after
                == before,
            Hook::Smin => outcome(r) == lanewise_outcome(before.state, f, LaneOp::Smin) && after
                == before,
            Hook::SaddWithOverflow => outcome(r) == overflow_outcome(
                before.state,
                f,
                BinaryOpOverflow::SAdd,
            ) && after == before,
            Hook::UaddWithOverflow => outcome(r) == overflow_outcome(
                before.state,
                f,
                BinaryOpOverflow::UAdd,
            ) && after == before,
            Hook::SsubWithOverflow => outcome(r) == overflow_outcome(
                before.state,
                f,
                BinaryOpOverflow::SSub,
            ) && after == before,
            Hook::UsubWithOverflow => outcome(r) == overflow_outcome(
                before.state,
                f,
                BinaryOpOverflow::USub,
            ) && after == before,
            Hook::SmulWithOverflow => outcome(r) == overflow_outcome(
                before.state,
                f,
                BinaryOpOverflow::SMul,
            ) && after == before,
            Hook::UmulWithOverflow => outcome(r) == overflow_outcome(
                before.state,
                f,
                BinaryOpOverflow::UMul,
            ) && after == before,
            Hook::SaddSat => outcome(r) == lanewise_outcome(before.state, f, LaneOp::Sadds)
                && after == before,
            Hook::UaddSat => outcome(r) == lanewise_outcome(before.state, f, LaneOp::Uadds)
                && after == before,
        }
    }

    /// Runs the hook on the arguments `f`.
    pub fn call(self, vm: &mut VM, f: FnInfo) -> (r: Result<ReturnValue, VMError>)
        ensures
            self.gives(*old(vm), f, *final(vm), r),
    {
        match self {
            Hook::Noop => noop(vm, f),
            Hook::Assume => llvm_assume(vm, f),
            Hook::Expect => llvm_expect(vm, f),
            Hook::Memcpy => llvm_memcpy(vm, f),
            Hook::Memset => llvm_memset(vm, f),
            Hook::Umax => llvm_umax(vm, f),
            Hook::Smax => llvm_smax(vm, f),
            Hook::Umin => llvm_umin(vm, f),
            Hook::Smin => llvm_smin(vm, f),
            Hook::SaddWithOverflow => llvm_sadd_with_overflow(vm, f),
            Hook::UaddWithOverflow => llvm_uadd_with_overflow(vm, f),
            Hook::SsubWithOverflow => llvm_ssub_with_overflow(vm, f),
            Hook::UsubWithOverflow => llvm_usub_with_overflow(vm, f),
            Hook::SmulWithOverflow => llvm_smul_with_overflow(vm, f),
            Hook::UmulWithOverflow => llvm_umul_with_overflow(vm, f),
            Hook::SaddSat => llvm_sadd_sat(vm, f),
            Hook::UaddSat => llvm_uadd_sat(vm, f),
        }
    }
}

/// An access to memory that a call makes: `bytes` bytes at `addr`.
#[derive(Debug, Clone, PartialEq, Eq)]
pub struct Access {
    pub addr: BV,
    pub bytes: u64,
}

/// The accesses that a copy of `size` bytes makes: the read at the source,
/// then the write at the destination. None for what is no copy of at least
/// one byte between two pointers.
pub open spec fn memcpy_accesses(state: State, f: FnInfo) -> Seq<(Term, u64)> {
    if f.arguments@.len() != 4 {
        seq![]
    } else {
        let ptr = state.mem.ptr_bits();
        match (
            state.term_of(f.arguments@[0].0),
            state.term_of(f.arguments@[1].0),
            solution_of(state, f.arguments@[2].0),
        ) {
            (Some(dst), Some(src), Ok(size)) => if dst.width() == ptr && src.width() == ptr
                && size > 0 {
                seq![(src, size), (dst, size)]
            } else {
                seq![]
            },
            _ => seq![],
        }
    }
}

/// The access that a fill of `size` bytes makes: the write of the bytes.
/// None for what is no fill of at least one byte at a pointer.
pub open spec fn memset_accesses(state: State, f: FnInfo) -> Seq<(Term, u64)> {
    if f.arguments@.len() != 4 {
        seq![]
    } else {
        let ptr = state.mem.ptr_bits();
        match (
            state.term_of(f.arguments@[0].0),
            state.term_of(f.arguments@[1].0),
            solution_of(state, f.arguments@[2].0),
        ) {
            (Some(dst), Some(value), Ok(size)) => if dst.width() == ptr && value.width()
                == BITS_IN_BYTE && size > 0 {
                seq![(dst, size)]
            } else {
                seq![]
            },
            _ => seq![],
        }
    }
}

impl Hook {
    /// The accesses to memory that a call of the hook on the arguments `f`
    /// makes, in the order in which `f.told` holds the solver's word on
    /// them.
    pub open spec fn accesses_of(self, state: State, f: FnInfo) -> Seq<(Term, u64)> {
        match self {
            Hook::Memcpy => memcpy_accesses(state, f),
            Hook::Memset => memset_accesses(state, f),
            _ => seq![],
        }
    }

    /// The accesses to memory that a call of the hook on the arguments `f`
    /// would make. Before the call, a solver is to be asked of each whether
    /// it can leave every region handed out, and its words are to be put
    /// into `f.told` in the same order.
    pub fn accesses(self, vm: &VM, f: &FnInfo) -> (r: Vec<Access>)
        ensures
            r@.len() == self.accesses_of(vm.state, *f).len(),
            forall|i: int|
                0 <= i < r@.len() ==> (#[trigger] r@[i]).addr@ == self.accesses_of(
                    vm.state,
                    *f,
                )[i].0 && r@[i].bytes == self.accesses_of(vm.state, *f)[i].1,
    {
        let mut found: Vec<Access> = Vec::new();
        let copies = match self {
            Hook::Memcpy => true,
            Hook::Memset => false,
            _ => {
                return found;
            },
        };
        if f.arguments.len() != 4 {
            return found;
        }
        let first = f.arguments[0].0;
        let second = f.arguments[1].0;
        let third = f.arguments[2].0;
        let dst = match vm.state.get_var(&first) {
            Ok(v) => v,
            Err(_) => {
                return found;
            },
        };
        let other = match vm.state.get_var(&second) {
            Ok(v) => v,
            Err(_) => {
                return found;
            },
        };
        let size = match get_u64_solution_from_operand(&vm.state, &third) {
            Ok(v) => v,
            Err(_) => {
                return found;
            },
        };
        let ptr_size = vm.state.mem.ptr_size();
        if dst.len() != ptr_size || size == 0 {
            return found;
        }
        if copies {
            if other.len() != ptr_size {
                return found;
            }
            found.push(Access { addr: other, bytes: size });
        } else if other.len() != BITS_IN_BYTE {
            return found;
        }
        found.push(Access { addr: dst, bytes: size });
        found
    }
}

/// A call of a hook sets no path aside: it gives one outcome, on the path
/// that it was called on.
pub proof fn lemma_hooks_fork_nothing(
    hook: Hook,
    before: VM,
    f: FnInfo,
    after: VM,
    r: Result<ReturnValue, VMError>,
)
    requires
        hook.gives(before, f, after, r),
    ensures
        after.paths == before.paths,
        after.project == before.project,
{
}

impl Intrinsics {
    /// Calls the function `name` on the arguments `f`: the hook that the
    /// name resolves to is run. Fails with `UnknownFunction` where the name
    /// is not that of an intrinsic, and with `UnsupportedInstruction` where
    /// it is one that the storage has no hook for; the engine is then left
    /// as it was.
    pub fn call(&self, vm: &mut VM, name: &str, f: FnInfo) -> (r: Result<ReturnValue, VMError>)
        ensures
            if !"llvm."@.is_prefix_of(name@) {
                &&& r matches Err(VMError::UnknownFunction(unknown))
                &&& unknown@ == name@
                &&& *final(vm) == *old(vm)
            } else if resolves_to(self.fixed(), self.variable(), name@, None) {
                &&& r == Err::<ReturnValue, VMError>(VMError::UnsupportedInstruction)
                &&& *final(vm) == *old(vm)
            } else {
                exists|hook: Hook|
                    #![auto]
                    resolves_to(self.fixed(), self.variable(), name@, Some(hook)) && hook.gives(
                        *old(vm),
                        f,
                        *final(vm),
                        r,
                    )
            },
    {
        if !is_intrinsic(name) {
            return Err(VMError::UnknownFunction(name.to_owned()));
        }
        match self.get(name) {
            Some(hook) => {
                proof {
                    lemma_resolves_once(self.fixed(), self.variable(), name@, hook);
                }
                hook.call(vm, f)
            },
            None => Err(VMError::UnsupportedInstruction),
        }
    }
}

/// What `llvm.memcpy` copies: after it, a read of the bytes at the
/// destination gives what a read of as many bytes at the source gave before
/// it, under every assignment. The bytes copied must not lap over each
/// other round the end of the address space.
pub proof fn lemma_memcpy_copies(state: State, f: FnInfo, env: Env)
    requires
        state.mem.wf(),
        memcpy_cells(state, f) is Ok,
        solution_of(state, f.arguments@[2].0).unwrap() > 0,
        solution_of(state, f.arguments@[2].0).unwrap() <= pow2(state.mem.ptr_bits() as nat),
        state.term_of(f.arguments@[0].0).unwrap().wf(),
        state.term_of(f.arguments@[1].0).unwrap().wf(),
    ensures
        ({
            let ptr = state.mem.ptr_bits();
            let dst = state.term_of(f.arguments@[0].0).unwrap();
            let src = state.term_of(f.arguments@[1].0).unwrap();
            let bits = (solution_of(state, f.arguments@[2].0).unwrap() * 8) as u32;
            read_term(memcpy_cells(state, f).unwrap(), dst, bits, ptr).eval(env) == read_term(
                state.mem.cells(),
                src,
                bits,
                ptr,
            ).eval(env)
        }),
{
    let ptr = state.mem.ptr_bits();
    let dst = state.term_of(f.arguments@[0].0).unwrap();
    let src = state.term_of(f.arguments@[1].0).unwrap();
    let size = solution_of(state, f.arguments@[2].0).unwrap();
    let bits = (size * 8) as u32;
    assert(covering_bytes(bits as nat) == size);
    let loaded = load(state.mem.cells(), src, size as nat, ptr);
    lemma_load_wf(state.mem.cells(), src, size as nat, ptr);
    lemma_resize_unsigned(loaded, bits, env);
    let value = read_term(state.mem.cells(), src, bits, ptr);
    assert(value.wf() && value.width() == bits);
    lemma_read_after_write(state.mem.cells(), dst, value, ptr, env);
}

/// What `llvm.memset` fills: in memory with `value` written to each of the
/// `n` bytes from `dst` on, every one of those bytes holds `value`, under
/// every assignment. The bytes must not lap over each other round the end
/// of the address space.
pub proof fn lemma_filled_holds(
    cells: Array,
    dst: Term,
    value: Term,
    n: nat,
    i: nat,
    ptr_size: u32,
    env: Env,
)
    requires
        dst.wf(),
        dst.width() == ptr_size,
        value.wf(),
        value.width() == BITS_IN_BYTE,
        n <= pow2(ptr_size as nat),
        n <= u64::MAX,
        i < n,
    ensures
        filled(cells, dst, value, n, ptr_size).select(
            env,
            address_value(dst.eval(env), i, ptr_size),
        ) == value.eval(env),
    decreases n,
{
    let last = (n - 1) as nat;
    let base = dst.eval(env);
    lemma_eval_range(&dst, env);
    lemma_eval_range(&value, env);
    lemma2_to64();
    // The address that the last byte is written to.
    let at = byte_address(dst, last, ptr_size);
    lemma_byte_address(dst, last, ptr_size, env);
    lemma_byte_address(at, 0, ptr_size, env);
    lemma_eval_range(&at, env);
    assert(address_value(at.eval(env), 0, ptr_size) == at.eval(env)) by {
        assert(truncated(0, ptr_size) == 0) by {
            if ptr_size < 64 {
                lemma_pow2_pos(ptr_size as nat);
                lemma_wrap_small(0, ptr_size as nat);
            }
        }
        lemma_wrap_small(at.eval(env) as int, ptr_size as nat);
    }
    // The byte that is written there.
    let byte = slice(value, 0, 7);
    assert(byte.eval(env) == (value.eval(env) / pow2(0)) % pow2(8));
    assert(byte.eval(env) == value.eval(env));
    // What the last write leaves.
    let inner = filled(cells, dst, value, last, ptr_size);
    assert(covering_bytes(value.width()) == 1);
    assert(zero_extended(value, 8) == value);
    assert(store(inner, at, value, 0, ptr_size) == inner);
    assert(filled(cells, dst, value, n, ptr_size) == Array::Store(
        Rc::new(inner),
        Rc::new(byte_address(at, 0, ptr_size)),
        Rc::new(byte),
    ));
    if i != last {
        lemma_addresses_differ(base, i, last, ptr_size);
        lemma_filled_holds(cells, dst, value, last, i, ptr_size, env);
    }
}

/// A name that resolves to a hook does not resolve to none.
pub proof fn lemma_resolves_once(
    fixed: Map<Seq<char>, Hook>,
    variable: Map<Seq<char>, Hook>,
    name: Seq<char>,
    hook: Hook,
)
    requires
        resolves_to(fixed, variable, name, Some(hook)),
    ensures
        !resolves_to(fixed, variable, name, None),
{
}

/// A name resolves to one hook at most: the longest stored beginning of a
/// name is one.
pub proof fn lemma_resolves_unique(
    fixed: Map<Seq<char>, Hook>,
    variable: Map<Seq<char>, Hook>,
    name: Seq<char>,
    first: Hook,
    second: Hook,
)
    requires
        resolves_to(fixed, variable, name, Some(first)),
        resolves_to(fixed, variable, name, Some(second)),
    ensures
        first == second,
{
    if !fixed.dom().contains(name) {
        let k1 = choose|k: Seq<char>|
            #![auto]
            is_longest_prefix(variable.dom(), name, k) && variable[k] == first;
        let k2 = choose|k: Seq<char>|
            #![auto]
            is_longest_prefix(variable.dom(), name, k) && variable[k] == second;
        assert(k1.len() == k2.len());
        assert(k1 =~= k2);
    }
}

/// The layout of what an operation that checks for overflow returns on two
/// integers of `bits` bits: the low `bits` bits are the wrapped result of
/// the arithmetic and the bit above them is the overflow flag.
pub proof fn lemma_overflow_layout(
    state: State,
    f: FnInfo,
    op: BinaryOpOverflow,
    bits: u32,
    env: Env,
)
    requires
        f.arguments@.len() == 2,
        f.arguments@[0].1 == (Type::Integer { bits }),
        overflow_outcome(state, f, op) is Ok,
        state.term_of(f.arguments@[0].0).unwrap().wf(),
        state.term_of(f.arguments@[1].0).unwrap().wf(),
    ensures
        ({
            let bits = bits as nat;
            let a = state.term_of(f.arguments@[0].0).unwrap();
            let b = state.term_of(f.arguments@[1].0).unwrap();
            let result = overflow_outcome(state, f, op).unwrap().unwrap();
            &&& result.wf()
            &&& result.width() == bits + 1
            &&& result.eval(env) % pow2(bits) == op.value_op().apply(
                a.eval(env),
                b.eval(env),
                bits,
                bits,
            )
            &&& result.eval(env) / pow2(bits) == op.flag_op().apply(
                a.eval(env),
                b.eval(env),
                bits,
                bits,
            )
        }),
{
    let a = state.term_of(f.arguments@[0].0).unwrap();
    let b = state.term_of(f.arguments@[1].0).unwrap();
    lemma_flag_above_value(op.flag_op(), op.value_op(), a, b, env);
    assert(binary(op.value_op(), a, b).eval(env) == op.value_op().apply(
        a.eval(env),
        b.eval(env),
        a.width(),
        b.width(),
    ));
    assert(binary(op.flag_op(), a, b).eval(env) == op.flag_op().apply(
        a.eval(env),
        b.eval(env),
        a.width(),
        b.width(),
    ));
}

} // verus!
