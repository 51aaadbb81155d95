//! The invocation client's decisions: the wire-facing type vocabulary and
//! the resolution of request and reply types. The transport call itself is
//! an outside collaborator; a runner queries metadata when these rules ask
//! for it and hands the word back in.

use vstd::prelude::*;
use vstd::string::*;
use crate::kind::TypeKind;
use crate::meta::{spec_kind_of, RpcMeta};

verus! {

/// Kind an endpoint's metadata word names, with string as the fallback for
/// an unknown kind: callers treat an unknown type as text.
pub open spec fn spec_fallback_kind(meta: u16) -> TypeKind {
    if spec_kind_of((meta as int) % 16, ((meta as int) / 16) % 16) == TypeKind::Unknown {
        TypeKind::Str
    } else {
        spec_kind_of((meta as int) % 16, ((meta as int) / 16) % 16)
    }
}

/// Reads the value type out of a metadata word, falling back to string
/// when the word names no known type.
pub fn type_from_meta(meta: u16) -> (k: TypeKind)
    ensures
        k == spec_fallback_kind(meta),
{
    let m = RpcMeta::parse(meta);
    match m.arg_type {
        TypeKind::Unknown => TypeKind::Str,
        t => t,
    }
}

/// Whether resolving the request type needs the endpoint metadata: only
/// when an argument is present and no explicit type was given.
pub fn request_needs_meta(explicit: Option<TypeKind>, arg_present: bool) -> (r: bool)
    ensures
        r == (explicit.is_none() && arg_present),
{
    explicit.is_none() && arg_present
}

/// Resolves the request type: an explicit choice wins; otherwise, with an
/// argument present, the endpoint's own metadata decides, string when it
/// reports an unknown type; with no argument there is no request type.
pub fn resolve_request_type(explicit: Option<TypeKind>, arg_present: bool, meta: Option<u16>) -> (r:
    Option<TypeKind>)
    requires
        explicit.is_none() && arg_present ==> meta.is_some(),
    ensures
        r == if explicit.is_some() {
            explicit
        } else if arg_present {
            Some(spec_fallback_kind(meta.unwrap()))
        } else {
            None::<TypeKind>
        },
{
    match explicit {
        Some(t) => Some(t),
        None => {
            if arg_present {
                match meta {
                    Some(m) => Some(type_from_meta(m)),
                    None => None,  // unreachable: the metadata was owed
                }
            } else {
                None
            }
        },
    }
}

/// Resolves the reply type: an explicit choice wins; else the request type
/// carries over; else the endpoint metadata decides, string when unknown.
pub fn resolve_reply_type(explicit: Option<TypeKind>, req_type: Option<TypeKind>, meta: Option<
    u16,
>) -> (r: TypeKind)
    requires
        explicit.is_none() && req_type.is_none() ==> meta.is_some(),
    ensures
        r == if explicit.is_some() {
            explicit.unwrap()
        } else if req_type.is_some() {
            req_type.unwrap()
        } else {
            spec_fallback_kind(meta.unwrap())
        },
{
    match explicit {
        Some(t) => t,
        None => match req_type {
            Some(t) => t,
            None => match meta {
                Some(m) => type_from_meta(m),
                None => TypeKind::Str,  // unreachable: the metadata was owed
            },
        },
    }
}

/// Wire-facing label of a kind; empty for the unknown kind.
pub open spec fn spec_kind_name(k: TypeKind) -> Seq<char> {
    match k {
        TypeKind::U8 => "u8"@,
        TypeKind::U16 => "u16"@,
        TypeKind::U32 => "u32"@,
        TypeKind::U64 => "u64"@,
        TypeKind::I8 => "i8"@,
        TypeKind::I16 => "i16"@,
        TypeKind::I32 => "i32"@,
        TypeKind::I64 => "i64"@,
        TypeKind::F32 => "f32"@,
        TypeKind::F64 => "f64"@,
        TypeKind::Str => "string"@,
        TypeKind::Unknown => ""@,
    }
}

/// Wire-facing label of a kind, as executable code.
pub fn kind_name(k: TypeKind) -> (r: &'static str)
    ensures
        r@ == spec_kind_name(k),
{
    match k {
        TypeKind::U8 => "u8",
        TypeKind::U16 => "u16",
        TypeKind::U32 => "u32",
        TypeKind::U64 => "u64",
        TypeKind::I8 => "i8",
        TypeKind::I16 => "i16",
        TypeKind::I32 => "i32",
        TypeKind::I64 => "i64",
        TypeKind::F32 => "f32",
        TypeKind::F64 => "f64",
        TypeKind::Str => "string",
        TypeKind::Unknown => "",
    }
}

/// Kind a wire-facing label names; `None` for any other text.
pub open spec fn spec_kind_of_name(s: Seq<char>) -> Option<TypeKind> {
    if s == "u8"@ {
        Some(TypeKind::U8)
    } else if s == "u16"@ {
        Some(TypeKind::U16)
    } else if s == "u32"@ {
        Some(TypeKind::U32)
    } else if s == "u64"@ {
        Some(TypeKind::U64)
    } else if s == "i8"@ {
        Some(TypeKind::I8)
    } else if s == "i16"@ {
        Some(TypeKind::I16)
    } else if s == "i32"@ {
        Some(TypeKind::I32)
    } else if s == "i64"@ {
        Some(TypeKind::I64)
    } else if s == "f32"@ {
        Some(TypeKind::F32)
    } else if s == "f64"@ {
        Some(TypeKind::F64)
    } else if s == "string"@ {
        Some(TypeKind::Str)
    } else {
        None
    }
}

/// Reads a wire-facing type label.
pub fn kind_of_name(name: &str) -> (r: Option<TypeKind>)
    ensures
        r == spec_kind_of_name(name@),
{
    let n = name.to_owned();
    if n.eq(&String::from_str("u8")) {
        Some(TypeKind::U8)
    } else if n.eq(&String::from_str("u16")) {
        Some(TypeKind::U16)
    } else if n.eq(&String::from_str("u32")) {
        Some(TypeKind::U32)
    } else if n.eq(&String::from_str("u64")) {
        Some(TypeKind::U64)
    } else if n.eq(&String::from_str("i8")) {
        Some(TypeKind::I8)
    } else if n.eq(&String::from_str("i16")) {
        Some(TypeKind::I16)
    } else if n.eq(&String::from_str("i32")) {
        Some(TypeKind::I32)
    } else if n.eq(&String::from_str("i64")) {
        Some(TypeKind::I64)
    } else if n.eq(&String::from_str("f32")) {
        Some(TypeKind::F32)
    } else if n.eq(&String::from_str("f64")) {
        Some(TypeKind::F64)
    } else if n.eq(&String::from_str("string")) {
        Some(TypeKind::Str)
    } else {
        None
    }
}

} // verus!
