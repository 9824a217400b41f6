pub mod intrinsics;

use crate::memory::Reach;
use crate::project::{Operand, Type};
use vstd::prelude::*;

verus! {

/// What a hook is told of the call that it stands for.
#[derive(Debug, Clone, PartialEq, Eq)]
pub struct FnInfo {
    /// The arguments of the call, each with its type.
    pub arguments: Vec<(Operand, Type)>,
    /// What the solver has said of the accesses to memory that the call
    /// makes, in the order of [`Hook::accesses`]. Looked at only where the
    /// memory checks bounds and the address holds an unknown.
    pub told: Vec<Reach>,
}

impl FnInfo {
    /// The solver's word on the `i`-th access that the call makes; where
    /// there is none the access counts as one that can leave every region.
    pub open spec fn told_at(&self, i: int) -> Reach {
        if 0 <= i < self.told@.len() {
            self.told@[i]
        } else {
            Reach::CanLeave
        }
    }

    /// The solver's word on the `i`-th access that the call makes.
    pub fn reach(&self, i: usize) -> (r: Reach)
        ensures
            r == self.told_at(i as int),
    {
        if i < self.told.len() {
            self.told[i]
        } else {
            Reach::CanLeave
        }
    }
}

/// The functions that the engine models itself instead of running their
/// code.
#[derive(Debug, Clone, Copy, PartialEq, Eq, Structural)]
pub enum Hook {
    Noop,
    Assume,
    Expect,
    Memcpy,
    Memset,
    Umax,
    Smax,
    Umin,
    Smin,
    SaddWithOverflow,
    UaddWithOverflow,
    SsubWithOverflow,
    UsubWithOverflow,
    SmulWithOverflow,
    UmulWithOverflow,
    SaddSat,
    UaddSat,
}

/// Number of hooks.
pub const HOOK_COUNT: u8 = 17;

impl Hook {
    /// The number that stands for the hook where hooks are stored as
    /// numbers.
    pub open spec fn code_of(self) -> u8 {
        match self {
            Hook::Noop => 0,
            Hook::Assume => 1,
            Hook::Expect => 2,
            Hook::Memcpy => 3,
            Hook::Memset => 4,
            Hook::Umax => 5,
            Hook::SaddWithOverflow => 6,
            Hook::UaddWithOverflow => 7,
            Hook::SsubWithOverflow => 8,
            Hook::UsubWithOverflow => 9,
            Hook::SmulWithOverflow => 10,
            Hook::UmulWithOverflow => 11,
            Hook::SaddSat => 12,
            Hook::UaddSat => 13,
            Hook::Smax => 14,
            Hook::Umin => 15,
            Hook::Smin => 16,
        }
    }

    /// The hook that `code` stands for; `Noop` for a number that stands for
    /// none.
    pub open spec fn of_code(code: u8) -> Hook {
        match code {
            1 => Hook::Assume,
            2 => Hook::Expect,
            3 => Hook::Memcpy,
            4 => Hook::Memset,
            5 => Hook::Umax,
            6 => Hook::SaddWithOverflow,
            7 => Hook::UaddWithOverflow,
            8 => Hook::SsubWithOverflow,
            9 => Hook::UsubWithOverflow,
            10 => Hook::SmulWithOverflow,
            11 => Hook::UmulWithOverflow,
            12 => Hook::SaddSat,
            13 => Hook::UaddSat,
            14 => Hook::Smax,
            15 => Hook::Umin,
            16 => Hook::Smin,
            _ => Hook::Noop,
        }
    }

    /// The number that stands for the hook.
    pub fn code(self) -> (c: u8)
        ensures
            c == self.code_of(),
            c < HOOK_COUNT,
            Hook::of_code(c) == self,
    {
        match self {
            Hook::Noop => 0,
            Hook::Assume => 1,
            Hook::Expect => 2,
            Hook::Memcpy => 3,
            Hook::Memset => 4,
            Hook::Umax => 5,
            Hook::SaddWithOverflow => 6,
            Hook::UaddWithOverflow => 7,
            Hook::SsubWithOverflow => 8,
            Hook::UsubWithOverflow => 9,
            Hook::SmulWithOverflow => 10,
            Hook::UmulWithOverflow => 11,
            Hook::SaddSat => 12,
            Hook::UaddSat => 13,
            Hook::Smax => 14,
            Hook::Umin => 15,
            Hook::Smin => 16,
        }
    }

    /// The hook that `code` stands for; `Noop` for a number that stands for
    /// none.
    pub fn from_code(code: u8) -> (h: Hook)
        ensures
            h == Hook::of_code(code),
    {
        match code {
            1 => Hook::Assume,
            2 => Hook::Expect,
            3 => Hook::Memcpy,
            4 => Hook::Memset,
            5 => Hook::Umax,
            6 => Hook::SaddWithOverflow,
            7 => Hook::UaddWithOverflow,
            8 => Hook::SsubWithOverflow,
            9 => Hook::UsubWithOverflow,
            10 => Hook::SmulWithOverflow,
            11 => Hook::UmulWithOverflow,
            12 => Hook::SaddSat,
            13 => Hook::UaddSat,
            14 => Hook::Smax,
            15 => Hook::Umin,
            16 => Hook::Smin,
            _ => Hook::Noop,
        }
    }
}

} // verus!
