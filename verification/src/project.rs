use vstd::prelude::*;

verus! {

/// The widest pointer that a project can have, in bits.
pub const MAX_PTR_SIZE: u32 = 64;

/// The type of a value of the analysed program.
#[derive(Debug, Clone, Copy, PartialEq, Eq, Structural)]
pub enum Type {
    /// No value.
    Void,
    /// An integer of `bits` bits.
    Integer { bits: u32 },
    /// A pointer, of the width that the project gives pointers.
    Pointer,
    /// `lanes` integers of `bits` bits each, the first in the lowest bits.
    Vector { lanes: u32, bits: u32 },
}

/// An operand of an instruction or a call.
#[derive(Debug, Clone, Copy, PartialEq, Eq, Structural)]
pub enum Operand {
    /// The local value with the given identifier.
    Local(u64),
    /// The integer constant `value` in `bits` bits.
    Constant { value: u64, bits: u32 },
}

/// What the engine knows of the loaded program's target.
#[derive(Debug, Clone, Copy, PartialEq, Eq, Structural)]
pub struct Project {
    /// Width of a pointer, in bits.
    pub ptr_size: u32,
}

/// The size of `ty` in bits where pointers have `ptr_size` bits; `None`
/// where the type has no value, no bits, or more bits than a width holds.
pub open spec fn bit_size_of(ty: Type, ptr_size: u32) -> Option<u32> {
    match ty {
        Type::Void => None,
        Type::Integer { bits } => if bits >= 1 {
            Some(bits)
        } else {
            None
        },
        Type::Pointer => Some(ptr_size),
        Type::Vector { lanes, bits } => if lanes >= 1 && bits >= 1 && lanes * bits <= u32::MAX {
            Some((lanes * bits) as u32)
        } else {
            None
        },
    }
}

impl Project {
    /// A pointer has at least one bit and at most 64.
    pub open spec fn wf(&self) -> bool {
        1 <= self.ptr_size <= MAX_PTR_SIZE
    }

    /// A project whose pointers have `ptr_size` bits; `None` where that is
    /// zero or more than 64.
    pub fn new(ptr_size: u32) -> (p: Option<Project>)
        ensures
            p.is_some() <==> 1 <= ptr_size <= MAX_PTR_SIZE,
            p matches Some(project) ==> project.ptr_size == ptr_size && project.wf(),
    {
        if 1 <= ptr_size && ptr_size <= MAX_PTR_SIZE {
            Some(Project { ptr_size })
        } else {
            None
        }
    }

    /// The size of `ty` in bits; `None` where the type has no value, no
    /// bits, or more bits than a width holds.
    pub fn bit_size(&self, ty: &Type) -> (size: Option<u32>)
        ensures
            size == bit_size_of(*ty, self.ptr_size),
    {
        match ty {
            Type::Void => None,
            Type::Integer { bits } => if *bits >= 1 {
                Some(*bits)
            } else {
                None
            },
            Type::Pointer => Some(self.ptr_size),
            Type::Vector { lanes, bits } => {
                if *lanes >= 1 && *bits >= 1 {
                    match lanes.checked_mul(*bits) {
                        Some(total) => Some(total),
                        None => None,
                    }
                } else {
                    None
                }
            },
        }
    }
}

} // verus!
