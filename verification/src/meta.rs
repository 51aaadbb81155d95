//! Decoding of the 16-bit endpoint metadata word.

use vstd::prelude::*;
use crate::kind::TypeKind;

verus! {

/// Kind named by a metadata word's type tag (low nibble) and size nibble.
/// Every pair outside the table maps to `Unknown`.
pub open spec fn spec_kind_of(tag: int, size: int) -> TypeKind {
    if tag == 0 {
        if size == 1 {
            TypeKind::U8
        } else if size == 2 {
            TypeKind::U16
        } else if size == 4 {
            TypeKind::U32
        } else if size == 8 {
            TypeKind::U64
        } else {
            TypeKind::Unknown
        }
    } else if tag == 1 {
        if size == 1 {
            TypeKind::I8
        } else if size == 2 {
            TypeKind::I16
        } else if size == 4 {
            TypeKind::I32
        } else if size == 8 {
            TypeKind::I64
        } else {
            TypeKind::Unknown
        }
    } else if tag == 2 {
        if size == 4 {
            TypeKind::F32
        } else if size == 8 {
            TypeKind::F64
        } else {
            TypeKind::Unknown
        }
    } else if tag == 3 {
        TypeKind::Str
    } else {
        TypeKind::Unknown
    }
}

/// Structured description of one endpoint read from its metadata word:
/// value type, raw size nibble, capability flags, and whether the word
/// marked the endpoint as absent.
pub struct RpcMeta {
    pub arg_type: TypeKind,
    pub size: usize,
    pub read: bool,
    pub write: bool,
    pub persistent: bool,
    pub unknown: bool,
}

impl RpcMeta {
    /// Decodes a metadata word. Total: every 16-bit value yields a
    /// descriptor; unrecognized (tag, size) pairs yield the unknown kind.
    pub fn parse(meta: u16) -> (r: RpcMeta)
        ensures
            r.arg_type == spec_kind_of((meta as int) % 16, ((meta as int) / 16) % 16),
            r.size == ((meta as int) / 16) % 16,
            r.read == (((meta as int) / 256) % 2 == 1),
            r.write == (((meta as int) / 512) % 2 == 1),
            r.persistent == (((meta as int) / 1024) % 2 == 1),
            r.unknown == (meta == 0),
    {
        let size: u16 = (meta / 16) % 16;
        let tag: u16 = meta % 16;
        let arg_type = if tag == 0 {
            if size == 1 {
                TypeKind::U8
            } else if size == 2 {
                TypeKind::U16
            } else if size == 4 {
                TypeKind::U32
            } else if size == 8 {
                TypeKind::U64
            } else {
                TypeKind::Unknown
            }
        } else if tag == 1 {
            if size == 1 {
                TypeKind::I8
            } else if size == 2 {
                TypeKind::I16
            } else if size == 4 {
                TypeKind::I32
            } else if size == 8 {
                TypeKind::I64
            } else {
                TypeKind::Unknown
            }
        } else if tag == 2 {
            if size == 4 {
                TypeKind::F32
            } else if size == 8 {
                TypeKind::F64
            } else {
                TypeKind::Unknown
            }
        } else if tag == 3 {
            TypeKind::Str
        } else {
            TypeKind::Unknown
        };
        RpcMeta {
            arg_type,
            size: size as usize,
            read: (meta / 256) % 2 == 1,
            write: (meta / 512) % 2 == 1,
            persistent: (meta / 1024) % 2 == 1,
            unknown: meta == 0,
        }
    }
}

/// Law: metadata decoding is total, and every (tag, size) pair outside the
/// recognized table yields the unknown kind.
pub proof fn lemma_meta_kind_total(tag: int, size: int)
    ensures
        !(((tag == 0 || tag == 1) && (size == 1 || size == 2 || size == 4 || size == 8)) || (tag
            == 2 && (size == 4 || size == 8)) || tag == 3) ==> spec_kind_of(tag, size)
            == TypeKind::Unknown,
{
}

} // verus!
