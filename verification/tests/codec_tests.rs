use capture_rpc::codec::{decode, encode, encode_f32_bits, encode_f64_bits, CodecError, Decoded};
use capture_rpc::invoke::{
    kind_name, kind_of_name, request_needs_meta, resolve_reply_type, resolve_request_type,
    type_from_meta,
};
use capture_rpc::kind::TypeKind;
use capture_rpc::listparse::parse_byte_list;
use capture_rpc::meta::RpcMeta;

fn decoded_text(d: Decoded) -> String {
    match d {
        Decoded::Text(s) => s,
        other => panic!("expected text, got {:?}", other),
    }
}

#[test]
fn meta_parse_known_kinds() {
    assert_eq!(RpcMeta::parse(0x10).arg_type, TypeKind::U8);
    assert_eq!(RpcMeta::parse(0x20).arg_type, TypeKind::U16);
    assert_eq!(RpcMeta::parse(0x40).arg_type, TypeKind::U32);
    assert_eq!(RpcMeta::parse(0x80).arg_type, TypeKind::U64);
    assert_eq!(RpcMeta::parse(0x11).arg_type, TypeKind::I8);
    assert_eq!(RpcMeta::parse(0x21).arg_type, TypeKind::I16);
    assert_eq!(RpcMeta::parse(0x41).arg_type, TypeKind::I32);
    assert_eq!(RpcMeta::parse(0x81).arg_type, TypeKind::I64);
    assert_eq!(RpcMeta::parse(0x42).arg_type, TypeKind::F32);
    assert_eq!(RpcMeta::parse(0x82).arg_type, TypeKind::F64);
    assert_eq!(RpcMeta::parse(0x03).arg_type, TypeKind::Str);
}

#[test]
fn meta_parse_flags_and_size() {
    let m = RpcMeta::parse(0x0110);
    assert_eq!(m.arg_type, TypeKind::U8);
    assert_eq!(m.size, 1);
    assert!(m.read);
    assert!(!m.write);
    assert!(!m.persistent);
    assert!(!m.unknown);
    let m = RpcMeta::parse(0x0620);
    assert_eq!(m.arg_type, TypeKind::U16);
    assert!(!m.read);
    assert!(m.write);
    assert!(m.persistent);
    let m = RpcMeta::parse(0);
    assert!(m.unknown);
}

#[test]
fn meta_parse_is_total_on_unknown_pairs() {
    // every 16-bit word decodes; odd (tag, size) pairs yield Unknown
    for meta in 0u32..=0xffffu32 {
        let m = RpcMeta::parse(meta as u16);
        let tag = meta & 0xf;
        let size = (meta >> 4) & 0xf;
        let known = (tag <= 1 && (size == 1 || size == 2 || size == 4 || size == 8))
            || (tag == 2 && (size == 4 || size == 8))
            || tag == 3;
        if !known {
            assert_eq!(m.arg_type, TypeKind::Unknown);
        }
    }
}

#[test]
fn encode_unsigned_layouts() {
    assert_eq!(encode("200", TypeKind::U8).unwrap(), vec![200]);
    assert_eq!(encode("65535", TypeKind::U16).unwrap(), vec![255, 255]);
    assert_eq!(encode("1", TypeKind::U32).unwrap(), vec![1, 0, 0, 0]);
    assert_eq!(
        encode("258", TypeKind::U64).unwrap(),
        vec![2, 1, 0, 0, 0, 0, 0, 0]
    );
    assert_eq!(encode("+7", TypeKind::U8).unwrap(), vec![7]);
}

#[test]
fn encode_signed_layouts() {
    assert_eq!(encode("-1", TypeKind::I8).unwrap(), vec![0xff]);
    assert_eq!(encode("-128", TypeKind::I8).unwrap(), vec![0x80]);
    assert_eq!(encode("127", TypeKind::I8).unwrap(), vec![0x7f]);
    assert_eq!(encode("-2", TypeKind::I16).unwrap(), vec![0xfe, 0xff]);
    assert_eq!(
        encode("-1", TypeKind::I64).unwrap(),
        vec![0xff; 8]
    );
}

#[test]
fn encode_string_passes_utf8_through() {
    assert_eq!(encode("hi", TypeKind::Str).unwrap(), vec![0x68, 0x69]);
    assert_eq!(encode("", TypeKind::Str).unwrap(), Vec::<u8>::new());
}

#[test]
fn encode_rejects_out_of_range_and_non_numeric() {
    assert_eq!(encode("999", TypeKind::U8).unwrap_err(), CodecError::BadLiteral);
    assert_eq!(encode("256", TypeKind::U8).unwrap_err(), CodecError::BadLiteral);
    assert_eq!(encode("abc", TypeKind::I32).unwrap_err(), CodecError::BadLiteral);
    assert_eq!(encode("-1", TypeKind::U8).unwrap_err(), CodecError::BadLiteral);
    assert_eq!(encode("-129", TypeKind::I8).unwrap_err(), CodecError::BadLiteral);
    assert_eq!(encode("", TypeKind::U32).unwrap_err(), CodecError::BadLiteral);
    assert_eq!(encode("1.5", TypeKind::U32).unwrap_err(), CodecError::BadLiteral);
    assert_eq!(encode("x", TypeKind::Unknown).unwrap_err(), CodecError::UnknownKind);
    assert_eq!(encode("1.0", TypeKind::F32).unwrap_err(), CodecError::FloatText);
}

#[test]
fn decode_round_trips_canonical_text() {
    let cases: &[(&str, TypeKind)] = &[
        ("0", TypeKind::U8),
        ("255", TypeKind::U8),
        ("65535", TypeKind::U16),
        ("4294967295", TypeKind::U32),
        ("18446744073709551615", TypeKind::U64),
        ("-128", TypeKind::I8),
        ("127", TypeKind::I8),
        ("-32768", TypeKind::I16),
        ("-2147483648", TypeKind::I32),
        ("2147483647", TypeKind::I32),
        ("-9223372036854775808", TypeKind::I64),
        ("9223372036854775807", TypeKind::I64),
    ];
    for (text, kind) in cases {
        let bytes = encode(text, *kind).unwrap();
        let back = decoded_text(decode(&bytes, *kind).unwrap());
        assert_eq!(back, *text);
    }
}

#[test]
fn decode_float_kinds_round_trip_through_bits() {
    let bytes = encode_f32_bits(1.5f32.to_bits());
    assert_eq!(bytes, 1.5f32.to_le_bytes().to_vec());
    match decode(&bytes, TypeKind::F32).unwrap() {
        Decoded::F32Bits(bits) => assert_eq!(f32::from_bits(bits), 1.5),
        other => panic!("unexpected {:?}", other),
    }
    let bytes = encode_f64_bits((-2.25f64).to_bits());
    assert_eq!(bytes, (-2.25f64).to_le_bytes().to_vec());
    match decode(&bytes, TypeKind::F64).unwrap() {
        Decoded::F64Bits(bits) => assert_eq!(f64::from_bits(bits), -2.25),
        other => panic!("unexpected {:?}", other),
    }
}

#[test]
fn decode_underrun_is_reported() {
    assert_eq!(decode(&[1], TypeKind::U16).unwrap_err(), CodecError::Underrun);
    assert_eq!(decode(&[], TypeKind::U8).unwrap_err(), CodecError::Underrun);
    assert_eq!(decode(&[1, 2, 3], TypeKind::F32).unwrap_err(), CodecError::Underrun);
    assert_eq!(decode(&[0; 7], TypeKind::I64).unwrap_err(), CodecError::Underrun);
}

#[test]
fn decode_string_reply_gives_both_renderings() {
    // invalid UTF-8: best-effort reading is empty, byte list is literal
    let s = decoded_text(decode(&[0xff, 0x41], TypeKind::Str).unwrap());
    assert_eq!(s, "\"\" [255, 65]");
    // valid UTF-8: both renderings
    let s = decoded_text(decode(&[0x41, 0x42], TypeKind::Str).unwrap());
    assert_eq!(s, "\"AB\" [65, 66]");
    let s = decoded_text(decode(&[], TypeKind::Str).unwrap());
    assert_eq!(s, "\"\" []");
}

#[test]
fn byte_list_text_parses_back() {
    assert_eq!(parse_byte_list("[1, 2, 3]"), vec![1, 2, 3]);
    assert_eq!(parse_byte_list("[255,0, 17]"), vec![255, 0, 17]);
    assert_eq!(parse_byte_list("[ 7 ]"), vec![7]);
    // malformed tokens fall back to zero, keeping alignment
    assert_eq!(parse_byte_list("[1, x, 3]"), vec![1, 0, 3]);
    assert_eq!(parse_byte_list("[300]"), vec![0]);
    assert_eq!(parse_byte_list("[]"), vec![0]);
}

#[test]
fn byte_list_render_parses_back() {
    // the string-reply rendering of raw bytes and the tolerant list parser
    // agree on the bracketed list
    let bytes = vec![0u8, 7, 255, 64];
    let rendered = capture_rpc::codec::byte_list(&bytes);
    assert_eq!(rendered, "[0, 7, 255, 64]");
    assert_eq!(parse_byte_list(&rendered), bytes);
}

#[test]
fn type_names_round_trip() {
    let kinds = [
        TypeKind::U8,
        TypeKind::U16,
        TypeKind::U32,
        TypeKind::U64,
        TypeKind::I8,
        TypeKind::I16,
        TypeKind::I32,
        TypeKind::I64,
        TypeKind::F32,
        TypeKind::F64,
        TypeKind::Str,
    ];
    for k in kinds {
        assert_eq!(kind_of_name(kind_name(k)), Some(k));
    }
    assert_eq!(kind_name(TypeKind::Str), "string");
    assert_eq!(kind_of_name("bogus"), None);
    assert_eq!(kind_of_name(""), None);
}

#[test]
fn request_type_resolution() {
    assert!(request_needs_meta(None, true));
    assert!(!request_needs_meta(Some(TypeKind::U8), true));
    assert!(!request_needs_meta(None, false));
    assert_eq!(
        resolve_request_type(Some(TypeKind::I16), true, None),
        Some(TypeKind::I16)
    );
    assert_eq!(resolve_request_type(None, false, None), None);
    // metadata names u8 => u8; metadata unknown => string fallback
    assert_eq!(resolve_request_type(None, true, Some(0x10)), Some(TypeKind::U8));
    assert_eq!(resolve_request_type(None, true, Some(0)), Some(TypeKind::Str));
    assert_eq!(type_from_meta(0x42), TypeKind::F32);
    assert_eq!(type_from_meta(0x30), TypeKind::Str);
}

#[test]
fn reply_type_resolution() {
    assert_eq!(
        resolve_reply_type(Some(TypeKind::Str), Some(TypeKind::U8), None),
        TypeKind::Str
    );
    assert_eq!(resolve_reply_type(None, Some(TypeKind::U8), None), TypeKind::U8);
    assert_eq!(resolve_reply_type(None, None, Some(0x21)), TypeKind::I16);
    assert_eq!(resolve_reply_type(None, None, Some(0)), TypeKind::Str);
}
