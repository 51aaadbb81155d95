//! The closed vocabulary of endpoint value types.

use vstd::prelude::*;

verus! {

/// Value type of an endpoint: fixed-width integers, IEEE floating point
/// carried as bit patterns, text, or unknown.
#[derive(Clone, Copy, PartialEq, Eq, Structural, Debug)]
pub enum TypeKind {
    U8,
    U16,
    U32,
    U64,
    I8,
    I16,
    I32,
    I64,
    F32,
    F64,
    Str,
    Unknown,
}

impl TypeKind {
    /// Wire width in bytes; zero for text and unknown types.
    pub open spec fn width(self) -> nat {
        match self {
            TypeKind::U8 => 1,
            TypeKind::U16 => 2,
            TypeKind::U32 => 4,
            TypeKind::U64 => 8,
            TypeKind::I8 => 1,
            TypeKind::I16 => 2,
            TypeKind::I32 => 4,
            TypeKind::I64 => 8,
            TypeKind::F32 => 4,
            TypeKind::F64 => 8,
            TypeKind::Str => 0,
            TypeKind::Unknown => 0,
        }
    }

    pub open spec fn is_unsigned(self) -> bool {
        self == TypeKind::U8 || self == TypeKind::U16 || self == TypeKind::U32 || self
            == TypeKind::U64
    }

    pub open spec fn is_signed(self) -> bool {
        self == TypeKind::I8 || self == TypeKind::I16 || self == TypeKind::I32 || self
            == TypeKind::I64
    }

    pub open spec fn is_integer(self) -> bool {
        self.is_unsigned() || self.is_signed()
    }

    pub open spec fn is_float(self) -> bool {
        self == TypeKind::F32 || self == TypeKind::F64
    }

    /// Smallest value an integer kind admits.
    pub open spec fn min_val(self) -> int {
        if self.is_unsigned() {
            0
        } else {
            match self {
                TypeKind::I8 => -0x80,
                TypeKind::I16 => -0x8000,
                TypeKind::I32 => -0x80000000,
                TypeKind::I64 => -0x8000000000000000,
                _ => 0,
            }
        }
    }

    /// Largest value an integer kind admits.
    pub open spec fn max_val(self) -> int {
        match self {
            TypeKind::U8 => 0xff,
            TypeKind::U16 => 0xffff,
            TypeKind::U32 => 0xffffffff,
            TypeKind::U64 => 0xffffffffffffffff,
            TypeKind::I8 => 0x7f,
            TypeKind::I16 => 0x7fff,
            TypeKind::I32 => 0x7fffffff,
            TypeKind::I64 => 0x7fffffffffffffff,
            _ => 0,
        }
    }

    /// Wire width in bytes, as executable code.
    pub fn byte_width(self) -> (w: usize)
        ensures
            w == self.width(),
    {
        match self {
            TypeKind::U8 => 1,
            TypeKind::U16 => 2,
            TypeKind::U32 => 4,
            TypeKind::U64 => 8,
            TypeKind::I8 => 1,
            TypeKind::I16 => 2,
            TypeKind::I32 => 4,
            TypeKind::I64 => 8,
            TypeKind::F32 => 4,
            TypeKind::F64 => 8,
            TypeKind::Str => 0,
            TypeKind::Unknown => 0,
        }
    }
}

} // verus!
