use crate::solver::bv::{resized, truncated, BV};
use crate::solver::arith::{extract, flag, lemma_pow2_monotone, lemma_wrap_small, wrap};
use crate::solver::term::{
    binary, lemma_eval_range, share, slice, zero, zero_extended, Array, BinOp, Env, Term,
};
use std::rc::Rc;
use vstd::arithmetic::power2::{lemma2_to64, lemma_pow2_adds, lemma_pow2_pos, pow2};
use vstd::prelude::*;

verus! {

/// Number of bits in one byte of memory.
pub const BITS_IN_BYTE: u32 = 8;

/// Whether a memory made by [`Memory::new`] tells accesses out of bounds.
pub const CHECK_OUT_OF_BOUNDS: bool = false;

/// Identifier of the array of unknown contents that a memory starts from.
pub const MEMORY_ARRAY: u64 = 0;

/// The widest access, in bits: its covering bytes still have a width.
pub const MAX_ACCESS_BITS: u32 = 0xffff_fff8;

/// How an access to memory can fail.
#[derive(Debug, Clone, Copy, PartialEq, Eq, Structural)]
pub enum MemoryError {
    /// The access leaves every allocation, or no room is left to allocate.
    OutOfBounds,
    /// An alignment of zero was asked for.
    Unaligned,
    /// A read of what was never written.
    UninitRead,
}

/// What a solver has said of an access at an address that holds an
/// unknown, under the constraints of the path.
#[derive(Debug, Clone, Copy, PartialEq, Eq, Structural)]
pub enum Reach {
    /// The access lies within one region handed out, whatever the unknowns
    /// are.
    Inside,
    /// The access can leave every region, or the solver could not tell.
    CanLeave,
}

/// A region that was handed out: `size` bytes from `base` on.
#[derive(Debug, Clone, Copy, PartialEq, Eq, Structural)]
pub struct Allocation {
    pub base: u64,
    pub size: u64,
}

/// A byte-addressable memory of symbolic bytes, little-endian.
pub struct Memory {
    ptr_size: u32,
    cells: Rc<Array>,
    allocations: Vec<Allocation>,
    cursor: u64,
    check_bounds: bool,
}

/// Number of bytes that cover `bits` bits.
pub open spec fn covering_bytes(bits: nat) -> nat {
    (bits + 7) / 8
}

/// The address `i` bytes above `addr`, in `ptr_size` bits.
pub open spec fn byte_address(addr: Term, i: nat, ptr_size: u32) -> Term {
    binary(BinOp::Add, addr, Term::Const { width: ptr_size, value: truncated(i as u64, ptr_size) })
}

/// The `i`-th byte above `addr` in `cells`.
pub open spec fn byte_at(cells: Array, addr: Term, i: nat, ptr_size: u32) -> Term {
    Term::Select(Rc::new(cells), Rc::new(byte_address(addr, i, ptr_size)))
}

/// The `n` bytes from `addr` on, the byte at the lowest address in the
/// lowest bits.
pub open spec fn load(cells: Array, addr: Term, n: nat, ptr_size: u32) -> Term
    decreases n,
{
    if n <= 1 {
        byte_at(cells, addr, 0, ptr_size)
    } else {
        binary(
            BinOp::Concat,
            byte_at(cells, addr, (n - 1) as nat, ptr_size),
            load(cells, addr, (n - 1) as nat, ptr_size),
        )
    }
}

/// `cells` with the low `n` bytes of `value` written from `addr` on, the
/// lowest bits at the lowest address.
pub open spec fn store(cells: Array, addr: Term, value: Term, n: nat, ptr_size: u32) -> Array
    decreases n,
{
    if n == 0 {
        cells
    } else {
        Array::Store(
            Rc::new(store(cells, addr, value, (n - 1) as nat, ptr_size)),
            Rc::new(byte_address(addr, (n - 1) as nat, ptr_size)),
            Rc::new(slice(value, (8 * (n - 1)) as u32, (8 * (n - 1) + 7) as u32)),
        )
    }
}

/// What a read of `bits` bits at `addr` gives: the covering bytes, cut
/// down to `bits` bits.
pub open spec fn read_term(cells: Array, addr: Term, bits: u32, ptr_size: u32) -> Term {
    resized(load(cells, addr, covering_bytes(bits as nat), ptr_size), bits)
}

/// What a write of `value` at `addr` leaves: `value`, extended with zeros
/// to whole bytes, in the covering bytes.
pub open spec fn write_cells(cells: Array, addr: Term, value: Term, ptr_size: u32) -> Array {
    let n = covering_bytes(value.width());
    store(cells, addr, zero_extended(value, (8 * n) as u32), n, ptr_size)
}

/// Whether the `n` bytes from `at` on lie within one of `allocations`.
pub open spec fn covered(allocations: Seq<Allocation>, at: nat, n: nat) -> bool {
    exists|k: int|
        0 <= k < allocations.len() && (#[trigger] allocations[k]).base <= at && at + n
            <= allocations[k].base + allocations[k].size
}

/// Whether `allocations` lie one after another, from address one on and
/// below `cursor`.
pub open spec fn in_order(allocations: Seq<Allocation>, cursor: u64) -> bool {
    &&& forall|k: int|
        0 <= k < allocations.len() ==> 1 <= (#[trigger] allocations[k]).base && allocations[k].base
            + allocations[k].size <= cursor
    &&& forall|j: int, k: int|
        0 <= j < k < allocations.len() ==> (#[trigger] allocations[j]).base + allocations[j].size
            <= (#[trigger] allocations[k]).base
}

/// The condition that the `n` bytes from `addr` on lie within the region
/// `a`, which has no less than `n` bytes: a one-bit expression.
pub open spec fn within(a: Allocation, addr: Term, n: u64, ptr_size: u32) -> Term {
    let base = Term::Const { width: ptr_size, value: a.base };
    let room = Term::Const { width: ptr_size, value: (a.size - n) as u64 };
    binary(
        BinOp::And,
        binary(BinOp::Ugte, addr, base),
        binary(BinOp::Ulte, binary(BinOp::Sub, addr, base), room),
    )
}

/// The condition that the `n` bytes from `addr` on lie within one of the
/// first `k` of `allocations`: a one-bit expression.
pub open spec fn bounds_term(
    allocations: Seq<Allocation>,
    addr: Term,
    n: u64,
    ptr_size: u32,
    k: nat,
) -> Term
    decreases k,
{
    if k == 0 {
        zero(1)
    } else {
        let rest = bounds_term(allocations, addr, n, ptr_size, (k - 1) as nat);
        let a = allocations[k - 1];
        if n <= a.size {
            binary(BinOp::Or, rest, within(a, addr, n, ptr_size))
        } else {
            rest
        }
    }
}

/// The least multiple of `align` that is not below `at`.
pub open spec fn aligned_up(at: nat, align: nat) -> nat {
    if at % align == 0 {
        at
    } else {
        (at + align - at % align) as nat
    }
}

/// The aligned address is a multiple of the alignment, and the least one
/// that is not below the address.
pub proof fn lemma_aligned_up(at: nat, align: nat)
    requires
        align > 0,
    ensures
        aligned_up(at, align) % align == 0,
        at <= aligned_up(at, align) < at + align,
{
    let a = at as int;
    let d = align as int;
    assert(0 <= a % d < d && (a % d != 0 ==> (a + d - a % d) % d == 0)) by (nonlinear_arith)
        requires
            d > 0,
            a >= 0,
    ;
}

impl Clone for Memory {
    /// A memory of its own with the same contents and regions: what is
    /// written to the one does not reach the other.
    fn clone(&self) -> (m: Self)
        ensures
            m.same_as(self),
    {
        let mut allocations: Vec<Allocation> = Vec::new();
        let mut i: usize = 0;
        while i < self.allocations.len()
            invariant
                i <= self.allocations.len(),
                allocations@ == self.allocations@.take(i as int),
            decreases self.allocations.len() - i,
        {
            allocations.push(self.allocations[i]);
            assert(allocations@ =~= self.allocations@.take(i + 1));
            i += 1;
        }
        assert(allocations@ =~= self.allocations@);
        let cells = share(&self.cells);
        proof {
            use_type_invariant(self);
            assert(self.wf());
        }
        Memory {
            ptr_size: self.ptr_size,
            cells,
            allocations,
            cursor: self.cursor,
            check_bounds: self.check_bounds,
        }
    }
}

impl Memory {
    /// Whether two memories hold the same: contents, regions handed out,
    /// cursor, width of addresses and whether bounds are checked.
    pub open spec fn same_as(&self, other: &Memory) -> bool {
        &&& self.ptr_bits() == other.ptr_bits()
        &&& self.cells() == other.cells()
        &&& self.allocations() == other.allocations()
        &&& self.cursor() == other.cursor()
        &&& self.checks_bounds() == other.checks_bounds()
    }

    /// Width of an address, in bits.
    pub closed spec fn ptr_bits(&self) -> u32 {
        self.ptr_size
    }

    /// The contents.
    pub closed spec fn cells(&self) -> Array {
        *self.cells
    }

    /// The regions handed out so far, in order.
    pub closed spec fn allocations(&self) -> Seq<Allocation> {
        self.allocations@
    }

    /// The first address that was not handed out yet.
    pub closed spec fn cursor(&self) -> u64 {
        self.cursor
    }

    /// Whether accesses out of bounds are told.
    pub closed spec fn checks_bounds(&self) -> bool {
        self.check_bounds
    }

    /// The greatest address.
    pub open spec fn limit(&self) -> nat {
        (pow2(self.ptr_bits() as nat) - 1) as nat
    }

    #[verifier::type_invariant]
    pub closed spec fn inv(&self) -> bool {
        self.wf()
    }

    /// What holds of every memory.
    pub proof fn lemma_inv(&self)
        requires
            self.inv(),
        ensures
            self.wf(),
    {
    }

    /// What holds of every memory: addresses have between 1 and 64 bits,
    /// the contents are addressed by them, and the regions handed out lie
    /// one after another below the cursor.
    pub open spec fn wf(&self) -> bool {
        &&& 1 <= self.ptr_bits() <= 64
        &&& self.cells().wf()
        &&& self.cells().index_width() == self.ptr_bits()
        &&& 1 <= self.cursor() <= self.limit()
        &&& in_order(self.allocations(), self.cursor())
    }

    /// An empty memory with addresses of `ptr_size` bits.
    pub fn new(ptr_size: u32) -> (m: Memory)
        requires
            1 <= ptr_size <= 64,
        ensures
            m.ptr_bits() == ptr_size,
            m.cells() == (Array::Fresh { id: MEMORY_ARRAY, index_width: ptr_size }),
            m.allocations().len() == 0,
            m.cursor() == 1,
            m.checks_bounds() == CHECK_OUT_OF_BOUNDS,
    {
        Memory::with_bounds_check(ptr_size, CHECK_OUT_OF_BOUNDS)
    }

    /// An empty memory with addresses of `ptr_size` bits, which tells
    /// accesses out of bounds where `check` is set.
    pub fn with_bounds_check(ptr_size: u32, check: bool) -> (m: Memory)
        requires
            1 <= ptr_size <= 64,
        ensures
            m.ptr_bits() == ptr_size,
            m.cells() == (Array::Fresh { id: MEMORY_ARRAY, index_width: ptr_size }),
            m.allocations().len() == 0,
            m.cursor() == 1,
            m.checks_bounds() == check,
    {
        proof {
            lemma2_to64();
            crate::solver::arith::lemma_pow2_monotone(1, ptr_size as nat);
        }
        Memory {
            ptr_size,
            cells: Rc::new(Array::Fresh { id: MEMORY_ARRAY, index_width: ptr_size }),
            allocations: Vec::new(),
            cursor: 1,
            check_bounds: check,
        }
    }

    /// Width of an address, in bits.
    pub fn ptr_size(&self) -> (w: u32)
        ensures
            w == self.ptr_bits(),
    {
        self.ptr_size
    }

    /// The contents, as an expression.
    pub fn contents(&self) -> (a: &Array)
        ensures
            *a == self.cells(),
    {
        &*self.cells
    }

    /// Number of regions handed out.
    pub fn allocation_count(&self) -> (n: usize)
        ensures
            n == self.allocations().len(),
    {
        self.allocations.len()
    }

    /// The `k`-th region handed out.
    pub fn allocation(&self, k: usize) -> (a: Allocation)
        requires
            k < self.allocations().len(),
        ensures
            a == self.allocations()[k as int],
    {
        self.allocations[k]
    }

    /// The greatest address.
    fn top(&self) -> (t: u64)
        ensures
            t == self.limit(),
    {
        proof {
            use_type_invariant(self);
            lemma2_to64();
            lemma_pow2_pos(self.ptr_size as nat);
        }
        if self.ptr_size == 64 {
            u64::MAX
        } else {
            proof {
                vstd::arithmetic::power2::lemma_pow2_strictly_increases(self.ptr_size as nat, 64);
                vstd::bits::lemma_u64_shl_is_mul(1, self.ptr_size as u64);
            }
            (1u64 << self.ptr_size) - 1
        }
    }

    /// Whether the `n` bytes from `at` on lie within one region handed out.
    pub fn in_bounds(&self, at: u64, n: u64) -> (b: bool)
        ensures
            b == covered(self.allocations(), at as nat, n as nat),
    {
        let mut k: usize = 0;
        while k < self.allocations.len()
            invariant
                k <= self.allocations.len(),
                forall|j: int|
                    0 <= j < k ==> !((#[trigger] self.allocations@[j]).base <= at && at + n
                        <= self.allocations@[j].base + self.allocations@[j].size),
            decreases self.allocations.len() - k,
        {
            let a = self.allocations[k];
            if a.base <= at && at as u128 + n as u128 <= a.base as u128 + a.size as u128 {
                return true;
            }
            k += 1;
        }
        false
    }
}

impl Memory {
    /// Whether an access of `n` bytes at `addr` is told as out of bounds,
    /// where the memory checks bounds. An address that holds no unknown has
    /// one value: the access is out of bounds where the bytes from that
    /// value on do not lie within one region handed out. Of any other
    /// address the solver's word `told` is taken: the access is out of
    /// bounds unless the solver has said that it lies within one region.
    pub open spec fn out_of_bounds(&self, addr: Term, n: nat, told: Reach) -> bool {
        self.checks_bounds() && if addr.closed() && addr.evaluable() {
            !covered(self.allocations(), addr.eval(Env::empty()), n)
        } else {
            told == Reach::CanLeave
        }
    }

    /// Whether accesses out of bounds are told.
    pub fn is_checked(&self) -> (b: bool)
        ensures
            b == self.checks_bounds(),
    {
        self.check_bounds
    }

    /// Whether an access of `bytes` bytes at `addr` is let through: it is
    /// not told as out of bounds, `told` being the solver's word on it.
    pub fn access_allowed(&self, addr: &BV, bytes: u64, told: Reach) -> (ok: bool)
        ensures
            ok == !self.out_of_bounds(addr@, bytes as nat, told),
    {
        if self.check_bounds {
            match addr.constant_value() {
                Some(at) => self.in_bounds(at, bytes),
                None => match told {
                    Reach::Inside => true,
                    Reach::CanLeave => false,
                },
            }
        } else {
            true
        }
    }

    /// The condition that an access of `bytes` bytes at `addr` lies within
    /// one region handed out, as a one-bit expression: for an address that
    /// holds an unknown, a solver can tell from it whether the access can
    /// leave every region.
    pub fn bounds_condition(&self, addr: &BV, bytes: u64) -> (r: BV)
        requires
            addr@.width() == self.ptr_bits(),
        ensures
            r@ == bounds_term(
                self.allocations(),
                addr@,
                bytes,
                self.ptr_bits(),
                self.allocations().len(),
            ),
            r@.width() == 1,
    {
        proof {
            use_type_invariant(self);
            lemma2_to64();
        }
        let mut condition = BV::zero(1);
        let mut k: usize = 0;
        while k < self.allocations.len()
            invariant
                self.wf(),
                k <= self.allocations.len(),
                addr@.width() == self.ptr_bits(),
                condition@ == bounds_term(
                    self.allocations(),
                    addr@,
                    bytes,
                    self.ptr_bits(),
                    k as nat,
                ),
                condition@.width() == 1,
            decreases self.allocations.len() - k,
        {
            let a = self.allocations[k];
            if bytes <= a.size {
                proof {
                    if self.ptr_size < 64 {
                        lemma_pow2_pos(self.ptr_size as nat);
                        lemma_wrap_small(a.base as int, self.ptr_size as nat);
                        lemma_wrap_small((a.size - bytes) as int, self.ptr_size as nat);
                    }
                }
                let base = BV::from_u64(a.base, self.ptr_size);
                let room = BV::from_u64(a.size - bytes, self.ptr_size);
                let inside = addr.ugte(&base).and(&addr.sub(&base).ulte(&room));
                condition = condition.or(&inside);
            }
            k += 1;
        }
        condition
    }

    /// Hands out `bytes` bytes at the least address from the cursor on that
    /// is a multiple of `align`, and returns that address. Fails with
    /// `Unaligned` where `align` is zero and with `OutOfBounds` where the
    /// region would pass the greatest address; the memory is then unchanged.
    pub fn allocate(&mut self, bytes: u64, align: u64) -> (r: Result<BV, MemoryError>)
        ensures
            final(self).ptr_bits() == old(self).ptr_bits(),
            final(self).cells() == old(self).cells(),
            final(self).checks_bounds() == old(self).checks_bounds(),
            match r {
                Ok(p) => {
                    let base = aligned_up(old(self).cursor() as nat, align as nat);
                    &&& align > 0
                    &&& base + bytes <= old(self).limit()
                    &&& base % (align as nat) == 0
                    &&& p@ == (Term::Const { width: old(self).ptr_bits(), value: base as u64 })
                    &&& final(self).allocations() == old(self).allocations().push(
                        Allocation { base: base as u64, size: bytes },
                    )
                    &&& final(self).cursor() == base + bytes
                    &&& forall|k: int|
                        0 <= k < old(self).allocations().len() ==> (#[trigger] old(
                            self,
                        ).allocations()[k]).base + old(self).allocations()[k].size <= base
                },
                Err(e) => {
                    &&& final(self).allocations() == old(self).allocations()
                    &&& final(self).cursor() == old(self).cursor()
                    &&& e == MemoryError::Unaligned <==> align == 0
                    &&& e == MemoryError::OutOfBounds <==> align > 0 && aligned_up(
                        old(self).cursor() as nat,
                        align as nat,
                    ) + bytes > old(self).limit()
                    &&& e != MemoryError::UninitRead
                },
            },
    {
        if align == 0 {
            return Err(MemoryError::Unaligned);
        }
        proof {
            use_type_invariant(&*self);
            lemma_aligned_up(self.cursor as nat, align as nat);
            lemma2_to64();
        }
        let top = self.top();
        let rest = self.cursor % align;
        let base: u128 = if rest == 0 {
            self.cursor as u128
        } else {
            self.cursor as u128 + (align - rest) as u128
        };
        if base + bytes as u128 > top as u128 {
            return Err(MemoryError::OutOfBounds);
        }
        let base = base as u64;
        proof {
            if self.ptr_size < 64 {
                lemma_pow2_pos(self.ptr_size as nat);
                assert(base < pow2(self.ptr_size as nat));
                vstd::arithmetic::div_mod::lemma_small_mod(
                    base as nat,
                    pow2(self.ptr_size as nat),
                );
            }
        }
        let pointer = BV::from_u64(base, self.ptr_size);
        let mut taken = Memory::with_bounds_check(self.ptr_size, self.check_bounds);
        std::mem::swap(self, &mut taken);
        let Memory { ptr_size, cells, mut allocations, cursor, check_bounds } = taken;
        allocations.push(Allocation { base, size: bytes });
        *self = Memory { ptr_size, cells, allocations, cursor: base + bytes, check_bounds };
        Ok(pointer)
    }

    /// The address `i` bytes above `addr`.
    fn address_of_byte(&self, addr: &BV, i: u32) -> (r: BV)
        requires
            addr@.width() == self.ptr_bits(),
        ensures
            r@ == byte_address(addr@, i as nat, self.ptr_bits()),
            r@.width() == self.ptr_bits(),
    {
        proof {
            use_type_invariant(self);
        }
        addr.add(&BV::from_u64(i as u64, self.ptr_size))
    }

    /// Reads `bits` bits at `addr`: the covering bytes, the byte at the
    /// lowest address in the lowest bits, cut down to `bits` bits. Fails
    /// with `OutOfBounds` where the access is told as out of bounds,
    /// `told` being the solver's word on it.
    pub fn read(&self, addr: &BV, bits: u32, told: Reach) -> (r: Result<BV, MemoryError>)
        requires
            addr@.width() == self.ptr_bits(),
            1 <= bits <= MAX_ACCESS_BITS,
        ensures
            match r {
                Ok(v) => {
                    &&& !self.out_of_bounds(addr@, covering_bytes(bits as nat), told)
                    &&& v@ == read_term(self.cells(), addr@, bits, self.ptr_bits())
                    &&& v@.width() == bits
                },
                Err(e) => e == MemoryError::OutOfBounds && self.out_of_bounds(
                    addr@,
                    covering_bytes(bits as nat),
                    told,
                ),
            },
    {
        proof {
            use_type_invariant(self);
        }
        let n: u32 = (bits - 1) / 8 + 1;
        assert(n as nat == covering_bytes(bits as nat));
        if !self.access_allowed(addr, n as u64, told) {
            return Err(MemoryError::OutOfBounds);
        }
        let mut value = BV::select(&self.cells, &self.address_of_byte(addr, 0));
        let mut i: u32 = 1;
        while i < n
            invariant
                self.wf(),
                addr@.width() == self.ptr_bits(),
                1 <= i <= n,
                n <= 0x1fff_ffff,
                value@ == load(self.cells(), addr@, i as nat, self.ptr_bits()),
                value@.width() == 8 * i,
            decreases n - i,
        {
            let next = BV::select(&self.cells, &self.address_of_byte(addr, i));
            value = next.concat(&value);
            i += 1;
        }
        Ok(value.resize_unsigned(bits))
    }

    /// Writes `value` at `addr`: extended with zeros to whole bytes, the
    /// lowest bits at the lowest address. Fails with `OutOfBounds` where
    /// the access is told as out of bounds, `told` being the solver's word
    /// on it; the memory is then unchanged.
    pub fn write(&mut self, addr: &BV, value: BV, told: Reach) -> (r: Result<
        (),
        MemoryError,
    >)
        requires
            addr@.width() == old(self).ptr_bits(),
            value@.width() <= MAX_ACCESS_BITS,
        ensures
            final(self).ptr_bits() == old(self).ptr_bits(),
            final(self).allocations() == old(self).allocations(),
            final(self).cursor() == old(self).cursor(),
            final(self).checks_bounds() == old(self).checks_bounds(),
            match r {
                Ok(()) => {
                    &&& !old(self).out_of_bounds(addr@, covering_bytes(value@.width()), told)
                    &&& final(self).cells() == write_cells(
                        old(self).cells(),
                        addr@,
                        value@,
                        old(self).ptr_bits(),
                    )
                },
                Err(e) => {
                    &&& e == MemoryError::OutOfBounds
                    &&& old(self).out_of_bounds(addr@, covering_bytes(value@.width()), told)
                    &&& final(self).cells() == old(self).cells()
                },
            },
    {
        proof {
            use_type_invariant(&*self);
        }
        let bits = value.len();
        let n: u32 = (bits - 1) / 8 + 1;
        assert(n as nat == covering_bytes(bits as nat));
        if !self.access_allowed(addr, n as u64, told) {
            return Err(MemoryError::OutOfBounds);
        }
        let wide = value.zero_ext(8 * n);
        let ghost start = self.cells();
        let mut i: u32 = 0;
        while i < n
            invariant
                self.wf(),
                self.ptr_bits() == old(self).ptr_bits(),
                self.allocations() == old(self).allocations(),
                self.cursor() == old(self).cursor(),
                self.checks_bounds() == old(self).checks_bounds(),
                addr@.width() == self.ptr_bits(),
                i <= n,
                n <= 0x1fff_ffff,
                wide@.width() == 8 * n,
                self.cells() == store(start, addr@, wide@, i as nat, self.ptr_bits()),
            decreases n - i,
        {
            let byte = wide.slice(8 * i, 8 * i + 7);
            let at = self.address_of_byte(addr, i);
            self.cells = BV::store(&self.cells, &at, &byte);
            i += 1;
        }
        Ok(())
    }
}

// -------------------------------------------------------------------------------------------------
// What is written is what is read
// -------------------------------------------------------------------------------------------------

/// The value of the address `i` bytes above an address of value `base`.
pub open spec fn address_value(base: nat, i: nat, ptr_size: u32) -> nat {
    wrap((base + truncated(i as u64, ptr_size)) as int, ptr_size as nat)
}

/// The address `i` bytes above `addr` is well formed and its value is `i`
/// above that of `addr`, modulo the size of the address space.
pub proof fn lemma_byte_address(addr: Term, i: nat, ptr_size: u32, env: Env)
    requires
        addr.wf(),
        addr.width() == ptr_size,
        i <= u64::MAX,
    ensures
        byte_address(addr, i, ptr_size).wf(),
        byte_address(addr, i, ptr_size).width() == ptr_size,
        byte_address(addr, i, ptr_size).eval(env) == address_value(addr.eval(env), i, ptr_size),
{
    lemma_eval_range(&addr, env);
    let offset = Term::Const { width: ptr_size, value: truncated(i as u64, ptr_size) };
    if ptr_size < 64 {
        lemma_pow2_pos(ptr_size as nat);
        let m = pow2(ptr_size as nat) as int;
        let x = i as int;
        assert(0 <= x % m < m) by (nonlinear_arith)
            requires
                m > 0,
        ;
    }
    assert(offset.wf());
    assert(offset.eval(env) == truncated(i as u64, ptr_size));
}

/// Two offsets within the address space lead from one address to two
/// different addresses.
pub proof fn lemma_addresses_differ(base: nat, i: nat, j: nat, ptr_size: u32)
    requires
        i != j,
        i < pow2(ptr_size as nat),
        j < pow2(ptr_size as nat),
        i <= u64::MAX,
        j <= u64::MAX,
    ensures
        address_value(base, i, ptr_size) != address_value(base, j, ptr_size),
{
    let m = pow2(ptr_size as nat) as int;
    if ptr_size < 64 {
        lemma_wrap_small(i as int, ptr_size as nat);
        lemma_wrap_small(j as int, ptr_size as nat);
    }
    assert(truncated(i as u64, ptr_size) == i);
    assert(truncated(j as u64, ptr_size) == j);
    let b = base as int;
    let x = i as int;
    let y = j as int;
    assert((b + x) % m != (b + y) % m) by (nonlinear_arith)
        requires
            0 <= x < m,
            0 <= y < m,
            x != y,
            b >= 0,
    {
        let qx = (b + x) / m;
        let qy = (b + y) / m;
        assert((b + x) == qx * m + (b + x) % m);
        assert((b + y) == qy * m + (b + y) % m);
        if (b + x) % m == (b + y) % m {
            assert(x - y == (qx - qy) * m);
            if qx - qy >= 1 {
                assert((qx - qy) * m >= m);
            } else if qx - qy <= -1 {
                assert((qx - qy) * m <= -m);
            }
        }
    }
}

/// Storing bytes leaves a well-formed array with the same addresses.
pub proof fn lemma_store_wf(cells: Array, addr: Term, value: Term, n: nat, ptr_size: u32)
    requires
        cells.wf(),
        cells.index_width() == ptr_size,
        addr.wf(),
        addr.width() == ptr_size,
        value.wf(),
        8 * n <= value.width(),
    ensures
        store(cells, addr, value, n, ptr_size).wf(),
        store(cells, addr, value, n, ptr_size).index_width() == ptr_size,
    decreases n,
{
    if n > 0 {
        lemma_eval_range(&value, arbitrary());
        lemma_store_wf(cells, addr, value, (n - 1) as nat, ptr_size);
        lemma_byte_address(addr, (n - 1) as nat, ptr_size, arbitrary());
        let byte = slice(value, (8 * (n - 1)) as u32, (8 * (n - 1) + 7) as u32);
        assert(byte.wf() && byte.width() == 8);
    }
}

/// Loading bytes gives a well-formed expression of eight bits a byte.
pub proof fn lemma_load_wf(cells: Array, addr: Term, n: nat, ptr_size: u32)
    requires
        cells.wf(),
        cells.index_width() == ptr_size,
        addr.wf(),
        addr.width() == ptr_size,
        1 <= n <= 0x1fff_ffff,
    ensures
        load(cells, addr, n, ptr_size).wf(),
        load(cells, addr, n, ptr_size).width() == 8 * n,
    decreases n,
{
    lemma_byte_address(addr, 0, ptr_size, arbitrary());
    if n > 1 {
        lemma_load_wf(cells, addr, (n - 1) as nat, ptr_size);
        lemma_byte_address(addr, (n - 1) as nat, ptr_size, arbitrary());
        let high = byte_at(cells, addr, (n - 1) as nat, ptr_size);
        assert(high.wf() && high.width() == 8);
    }
}

/// After `n` bytes of `value` were stored from `addr` on, the cell `i`
/// bytes above `addr` holds the `i`-th byte of `value`, for `i < n`.
pub proof fn lemma_select_stored(
    cells: Array,
    addr: Term,
    value: Term,
    n: nat,
    i: nat,
    ptr_size: u32,
    env: Env,
)
    requires
        cells.wf(),
        cells.index_width() == ptr_size,
        addr.wf(),
        addr.width() == ptr_size,
        value.wf(),
        8 * n <= value.width(),
        n <= pow2(ptr_size as nat),
        i < n,
    ensures
        store(cells, addr, value, n, ptr_size).select(
            env,
            address_value(addr.eval(env), i, ptr_size),
        ) == extract(value.eval(env), 8 * i, 8 * i + 7),
    decreases n,
{
    lemma_eval_range(&value, env);
    let last = (n - 1) as nat;
    let at = address_value(addr.eval(env), i, ptr_size);
    lemma_byte_address(addr, last, ptr_size, env);
    let byte = slice(value, (8 * last) as u32, (8 * last + 7) as u32);
    assert(byte.eval(env) == extract(value.eval(env), 8 * last, 8 * last + 7));
    if i != last {
        lemma_addresses_differ(addr.eval(env), i, last, ptr_size);
        lemma_select_stored(cells, addr, value, last, i, ptr_size, env);
    }
}

/// Cells that a store does not address keep their contents.
pub proof fn lemma_select_untouched(
    cells: Array,
    addr: Term,
    value: Term,
    n: nat,
    at: nat,
    ptr_size: u32,
    env: Env,
)
    requires
        addr.wf(),
        addr.width() == ptr_size,
        n <= u32::MAX,
        forall|j: nat| j < n ==> address_value(addr.eval(env), j, ptr_size) != at,
    ensures
        store(cells, addr, value, n, ptr_size).select(env, at) == cells.select(env, at),
    decreases n,
{
    if n > 0 {
        let last = (n - 1) as nat;
        lemma_byte_address(addr, last, ptr_size, env);
        assert(address_value(addr.eval(env), last, ptr_size) != at);
        lemma_select_untouched(cells, addr, value, last, at, ptr_size, env);
    }
}

/// The value of `n` loaded bytes, from the cells that they name.
pub open spec fn loaded_value(cells: Array, base: nat, n: nat, ptr_size: u32, env: Env) -> nat
    decreases n,
{
    if n <= 1 {
        cells.select(env, address_value(base, 0, ptr_size))
    } else {
        cells.select(env, address_value(base, (n - 1) as nat, ptr_size)) * pow2(
            (8 * (n - 1)) as nat,
        ) + loaded_value(cells, base, (n - 1) as nat, ptr_size, env)
    }
}

/// The value of a load is that of the cells which it names, the cell at
/// the lowest address in the lowest bits.
pub proof fn lemma_load_value(cells: Array, addr: Term, n: nat, ptr_size: u32, env: Env)
    requires
        cells.wf(),
        cells.index_width() == ptr_size,
        addr.wf(),
        addr.width() == ptr_size,
        1 <= n <= 0x1fff_ffff,
    ensures
        load(cells, addr, n, ptr_size).eval(env) == loaded_value(
            cells,
            addr.eval(env),
            n,
            ptr_size,
            env,
        ),
    decreases n,
{
    lemma_byte_address(addr, 0, ptr_size, env);
    if n > 1 {
        let last = (n - 1) as nat;
        lemma_load_value(cells, addr, last, ptr_size, env);
        lemma_load_wf(cells, addr, last, ptr_size);
        lemma_byte_address(addr, last, ptr_size, env);
        let high = byte_at(cells, addr, last, ptr_size);
        let low = load(cells, addr, last, ptr_size);
        assert(high.eval(env) == cells.select(env, address_value(addr.eval(env), last, ptr_size)));
        assert(load(cells, addr, n, ptr_size).eval(env) == BinOp::Concat.apply(
            high.eval(env),
            low.eval(env),
            high.width(),
            low.width(),
        ));
    }
}

/// The `n` low bytes of `v`, put together again, are `v` modulo `2^(8n)`.
pub proof fn lemma_bytes_rejoin(v: nat, n: nat)
    requires
        n >= 1,
    ensures
        extract(v, (8 * (n - 1)) as nat, (8 * (n - 1) + 7) as nat) * pow2((8 * (n - 1)) as nat) + v
            % pow2((8 * (n - 1)) as nat) == v % pow2(8 * n),
{
    let a = (8 * (n - 1)) as nat;
    lemma_pow2_pos(a);
    lemma_pow2_pos(8);
    lemma_pow2_adds(a, 8);
    vstd::arithmetic::div_mod::lemma_mod_breakdown(v as int, pow2(a) as int, pow2(8) as int);
    assert(pow2(a) * ((v / pow2(a)) % pow2(8)) == ((v / pow2(a)) % pow2(8)) * pow2(a))
        by (nonlinear_arith);
}

/// After the bytes of `value` were stored from `addr` on, the first `k` of
/// them, loaded from `addr`, are `value` modulo `2^(8k)`.
pub proof fn lemma_load_stored(
    cells: Array,
    addr: Term,
    value: Term,
    n: nat,
    k: nat,
    ptr_size: u32,
    env: Env,
)
    requires
        cells.wf(),
        cells.index_width() == ptr_size,
        addr.wf(),
        addr.width() == ptr_size,
        value.wf(),
        8 * n <= value.width(),
        n <= pow2(ptr_size as nat),
        1 <= k <= n,
    ensures
        loaded_value(store(cells, addr, value, n, ptr_size), addr.eval(env), k, ptr_size, env)
            == value.eval(env) % pow2(8 * k),
    decreases k,
{
    let written = store(cells, addr, value, n, ptr_size);
    let v = value.eval(env);
    lemma_select_stored(cells, addr, value, n, (k - 1) as nat, ptr_size, env);
    lemma2_to64();
    if k > 1 {
        lemma_load_stored(cells, addr, value, n, (k - 1) as nat, ptr_size, env);
        lemma_bytes_rejoin(v, k);
    } else {
        assert(extract(v, 0, 7) == (v / 1) % pow2(8));
    }
}

/// A read at the address of a write, of the width of the value written,
/// gives the value written: the two have the same value under every
/// assignment. The bytes written must not lap over each other round the
/// end of the address space.
pub proof fn lemma_read_after_write(cells: Array, addr: Term, value: Term, ptr_size: u32, env: Env)
    requires
        cells.wf(),
        cells.index_width() == ptr_size,
        addr.wf(),
        addr.width() == ptr_size,
        value.wf(),
        value.width() <= MAX_ACCESS_BITS,
        covering_bytes(value.width()) <= pow2(ptr_size as nat),
    ensures
        read_term(
            write_cells(cells, addr, value, ptr_size),
            addr,
            value.width() as u32,
            ptr_size,
        ).wf(),
        read_term(
            write_cells(cells, addr, value, ptr_size),
            addr,
            value.width() as u32,
            ptr_size,
        ).eval(env) == value.eval(env),
{
    lemma_eval_range(&value, env);
    let bits = value.width() as u32;
    let n = covering_bytes(value.width());
    let wide = zero_extended(value, (8 * n) as u32);
    assert(wide.wf() && wide.width() == 8 * n && wide.eval(env) == value.eval(env));
    let written = store(cells, addr, wide, n, ptr_size);
    lemma_store_wf(cells, addr, wide, n, ptr_size);
    lemma_load_wf(written, addr, n, ptr_size);
    lemma_load_value(written, addr, n, ptr_size, env);
    lemma_load_stored(cells, addr, wide, n, n, ptr_size, env);
    let loaded = load(written, addr, n, ptr_size);
    crate::solver::laws::lemma_resize_unsigned(loaded, bits, env);
    let v = value.eval(env);
    lemma_pow2_monotone(bits as nat, 8 * n);
    lemma_wrap_small(v as int, 8 * n);
    lemma_wrap_small(v as int, bits as nat);
}

/// A read of bytes that a write did not address gives what it gave before
/// the write, under every assignment under which no byte read is a byte
/// written.
pub proof fn lemma_read_elsewhere(
    cells: Array,
    read_at: Term,
    bits: u32,
    write_at: Term,
    value: Term,
    ptr_size: u32,
    env: Env,
)
    requires
        cells.wf(),
        cells.index_width() == ptr_size,
        read_at.wf(),
        read_at.width() == ptr_size,
        write_at.wf(),
        write_at.width() == ptr_size,
        value.wf(),
        value.width() <= MAX_ACCESS_BITS,
        1 <= bits <= MAX_ACCESS_BITS,
        forall|i: nat, j: nat|
            i < covering_bytes(bits as nat) && j < covering_bytes(value.width())
                ==> address_value(read_at.eval(env), i, ptr_size) != address_value(
                write_at.eval(env),
                j,
                ptr_size,
            ),
    ensures
        read_term(write_cells(cells, write_at, value, ptr_size), read_at, bits, ptr_size).eval(
            env,
        ) == read_term(cells, read_at, bits, ptr_size).eval(env),
{
    lemma_eval_range(&value, env);
    let n = covering_bytes(bits as nat);
    let m = covering_bytes(value.width());
    let wide = zero_extended(value, (8 * m) as u32);
    assert(wide.wf() && wide.width() == 8 * m);
    let written = store(cells, write_at, wide, m, ptr_size);
    lemma_store_wf(cells, write_at, wide, m, ptr_size);
    lemma_load_wf(written, read_at, n, ptr_size);
    lemma_load_wf(cells, read_at, n, ptr_size);
    lemma_load_value(written, read_at, n, ptr_size, env);
    lemma_load_value(cells, read_at, n, ptr_size, env);
    lemma_loaded_untouched(cells, read_at.eval(env), n, n, write_at, wide, m, ptr_size, env);
    crate::solver::laws::lemma_resize_unsigned(load(written, read_at, n, ptr_size), bits, env);
    crate::solver::laws::lemma_resize_unsigned(load(cells, read_at, n, ptr_size), bits, env);
}

/// Bytes loaded from cells that a store did not address are what they were
/// before the store.
pub proof fn lemma_loaded_untouched(
    cells: Array,
    base: nat,
    n: nat,
    k: nat,
    write_at: Term,
    value: Term,
    m: nat,
    ptr_size: u32,
    env: Env,
)
    requires
        write_at.wf(),
        write_at.width() == ptr_size,
        m <= u32::MAX,
        1 <= k <= n,
        forall|i: nat, j: nat|
            i < n && j < m ==> address_value(base, i, ptr_size) != address_value(
                write_at.eval(env),
                j,
                ptr_size,
            ),
    ensures
        loaded_value(store(cells, write_at, value, m, ptr_size), base, k, ptr_size, env)
            == loaded_value(cells, base, k, ptr_size, env),
    decreases k,
{
    let i = (k - 1) as nat;
    assert forall|j: nat| j < m implies address_value(write_at.eval(env), j, ptr_size)
        != address_value(base, i, ptr_size) by {}
    lemma_select_untouched(
        cells,
        write_at,
        value,
        m,
        address_value(base, i, ptr_size),
        ptr_size,
        env,
    );
    if k > 1 {
        lemma_loaded_untouched(cells, base, n, i, write_at, value, m, ptr_size, env);
    }
}

// -------------------------------------------------------------------------------------------------
// The bounds condition
// -------------------------------------------------------------------------------------------------

/// The condition that an access lies within one region holds under an
/// assignment exactly where the bytes, at the value that the address has
/// under it, lie within one of the regions.
pub proof fn lemma_bounds_term(
    allocations: Seq<Allocation>,
    cursor: u64,
    addr: Term,
    n: u64,
    ptr_size: u32,
    k: nat,
    env: Env,
)
    requires
        1 <= ptr_size <= 64,
        in_order(allocations, cursor),
        cursor < pow2(ptr_size as nat),
        addr.wf(),
        addr.width() == ptr_size,
        k <= allocations.len(),
    ensures
        bounds_term(allocations, addr, n, ptr_size, k).wf(),
        bounds_term(allocations, addr, n, ptr_size, k).width() == 1,
        bounds_term(allocations, addr, n, ptr_size, k).eval(env) == flag(
            covered(allocations.take(k as int), addr.eval(env), n as nat),
        ),
    decreases k,
{
    lemma2_to64();
    lemma_eval_range(&addr, env);
    let at = addr.eval(env);
    if k == 0 {
        assert(zero(1).wf() && zero(1).eval(env) == 0);
        assert(!covered(allocations.take(0), at, n as nat));
    } else {
        let rest = bounds_term(allocations, addr, n, ptr_size, (k - 1) as nat);
        lemma_bounds_term(allocations, cursor, addr, n, ptr_size, (k - 1) as nat, env);
        let a = allocations[k - 1];
        let before = allocations.take(k - 1);
        let now = allocations.take(k as int);
        let fits = a.base <= at && at + n <= a.base + a.size;
        assert(covered(now, at, n as nat) <==> covered(before, at, n as nat) || fits) by {
            if covered(before, at, n as nat) {
                let j = choose|j: int|
                    0 <= j < before.len() && (#[trigger] before[j]).base <= at && at + n
                        <= before[j].base + before[j].size;
                assert(now[j] == before[j]);
            }
            if fits {
                assert(now[k - 1] == a);
            }
            if covered(now, at, n as nat) {
                let j = choose|j: int|
                    0 <= j < now.len() && (#[trigger] now[j]).base <= at && at + n <= now[j].base
                        + now[j].size;
                if j < k - 1 {
                    assert(before[j] == now[j]);
                } else {
                    assert(now[j] == a);
                }
            }
        }
        if n <= a.size {
            let base = Term::Const { width: ptr_size, value: a.base };
            let room = Term::Const { width: ptr_size, value: (a.size - n) as u64 };
            assert(base.wf() && base.eval(env) == a.base);
            assert(room.wf() && room.eval(env) == a.size - n);
            let above = binary(BinOp::Ugte, addr, base);
            let offset = binary(BinOp::Sub, addr, base);
            let below = binary(BinOp::Ulte, offset, room);
            let inside = within(a, addr, n, ptr_size);
            assert(above.wf() && above.width() == 1);
            assert(offset.wf() && offset.width() == ptr_size);
            assert(below.wf() && below.width() == 1);
            assert(inside.wf() && inside.width() == 1);
            assert(offset.eval(env) == wrap(at - a.base, ptr_size as nat));
            if at >= a.base {
                lemma_wrap_small(at - a.base, ptr_size as nat);
            }
            assert(above.eval(env) == flag(at >= a.base));
            assert(below.eval(env) == flag(offset.eval(env) <= a.size - n));
            lemma_flags_combine(above.eval(env), below.eval(env));
            assert(inside.eval(env) == BinOp::And.apply(above.eval(env), below.eval(env), 1, 1));
            assert(inside.eval(env) == flag(fits));
            let all = binary(BinOp::Or, rest, inside);
            lemma_flags_combine(rest.eval(env), inside.eval(env));
            assert(all.eval(env) == BinOp::Or.apply(rest.eval(env), inside.eval(env), 1, 1));
        }
    }
}

impl Memory {
    /// The bounds condition of a memory holds under an assignment exactly
    /// where the access, at the value that the address has under it, lies
    /// within one region handed out.
    pub proof fn lemma_bounds_condition(&self, addr: Term, n: u64, env: Env)
        requires
            self.inv(),
            addr.wf(),
            addr.width() == self.ptr_bits(),
        ensures
            bounds_term(
                self.allocations(),
                addr,
                n,
                self.ptr_bits(),
                self.allocations().len(),
            ).eval(env) == flag(covered(self.allocations(), addr.eval(env), n as nat)),
    {
        lemma_pow2_pos(self.ptr_bits() as nat);
        lemma_bounds_term(
            self.allocations(),
            self.cursor(),
            addr,
            n,
            self.ptr_bits(),
            self.allocations().len(),
            env,
        );
        assert(self.allocations().take(self.allocations().len() as int) == self.allocations());
    }
}

impl Memory {
    /// Where an access of `n` bytes at `addr` is not told as out of bounds,
    /// an access of one byte at any of those bytes lies within one region
    /// too.
    pub proof fn lemma_bytes_in_bounds(&self, addr: Term, n: nat, i: nat, told: Reach)
        requires
            self.inv(),
            addr.wf(),
            addr.width() == self.ptr_bits(),
            !self.out_of_bounds(addr, n, told),
            i < n,
            i <= u64::MAX,
        ensures
            !self.out_of_bounds(byte_address(addr, i, self.ptr_bits()), 1, Reach::Inside),
    {
        let ptr_size = self.ptr_bits();
        let at = byte_address(addr, i, ptr_size);
        let env = Env::empty();
        if self.checks_bounds() && at.closed() && at.evaluable() {
            assert(addr.closed() && addr.evaluable());
            let base = addr.eval(env);
            let k = choose|k: int|
                0 <= k < self.allocations().len() && (#[trigger] self.allocations()[k]).base
                    <= base && base + n <= self.allocations()[k].base
                    + self.allocations()[k].size;
            lemma_pow2_pos(ptr_size as nat);
            lemma_byte_address(addr, i, ptr_size, env);
            if ptr_size < 64 {
                lemma_wrap_small(i as int, ptr_size as nat);
            }
            assert(truncated(i as u64, ptr_size) == i);
            lemma_wrap_small((base + i) as int, ptr_size as nat);
            assert(at.eval(env) == base + i);
            assert(self.allocations()[k].base <= base + i && base + i + 1
                <= self.allocations()[k].base + self.allocations()[k].size);
        }
    }
}

/// On single bits, conjunction and disjunction are those of truth values.
pub proof fn lemma_flags_combine(x: nat, y: nat)
    requires
        x <= 1,
        y <= 1,
    ensures
        crate::solver::arith::bit_and(x, y, 1) == flag(x == 1 && y == 1),
        crate::solver::arith::bit_or(x, y, 1) == flag(x == 1 || y == 1),
{
    assert(crate::solver::arith::bit_and(x / 2, y / 2, 0) == 0);
    assert(crate::solver::arith::bit_or(x / 2, y / 2, 0) == 0);
}

} // verus!
