//! The typed value codec: between decimal text and little-endian wire bytes.

use vstd::prelude::*;
use vstd::string::*;
use vstd::utf8::{valid_utf8, decode_utf8, encode_utf8};
use crate::kind::TypeKind;
use crate::numtext::{
    all_digits, chars_of, dec_digits, dec_int_text, i64_to_dec, lemma_digits_val_nonneg,
    lemma_signed_text_round_trip, lemma_unsigned_text_round_trip, parse_signed, parse_unsigned,
    signed_text_val, u64_to_dec, unsigned_text_val,
};
use crate::wire::{
    le_bytes_of, le_decode, le_encode, le_val, lemma_le_bytes_len, lemma_le_round_trip,
    lemma_pow256_values, pow256,
};

verus! {

/// Failures of the typed value codec.
#[derive(Clone, Copy, PartialEq, Eq, Structural, Debug)]
pub enum CodecError {
    /// The text is not a well-formed, in-range literal of the numeric kind.
    BadLiteral,
    /// The reply holds fewer bytes than the kind's width.
    Underrun,
    /// Floating-point values enter and leave this codec as IEEE bit
    /// patterns, not as text; the text form is the caller's to produce.
    FloatText,
    /// The unknown kind carries no representation.
    UnknownKind,
}

/// A decoded reply: text for integer and string kinds, IEEE bit patterns
/// for the floating-point kinds.
#[derive(Debug)]
pub enum Decoded {
    Text(String),
    F32Bits(u32),
    F64Bits(u64),
}

/// Two's complement image of an integer in `w` bytes.
pub open spec fn twos(v: int, w: nat) -> nat {
    if v >= 0 {
        v as nat
    } else {
        (v + pow256(w)) as nat
    }
}

/// Signed reading of an unsigned `w`-byte value.
pub open spec fn from_twos(n: nat, w: nat) -> int {
    if n < pow256(w) / 2 {
        n as int
    } else {
        n - pow256(w)
    }
}

/// The wire bytes owed for text `s` under kind `k`; `None` when the text is
/// rejected or the kind has no text encoding here.
pub open spec fn spec_encode(s: Seq<char>, k: TypeKind) -> Option<Seq<u8>> {
    if k.is_unsigned() {
        match unsigned_text_val(s) {
            Some(v) => if v <= k.max_val() {
                Some(le_bytes_of(v as nat, k.width()))
            } else {
                None
            },
            None => None,
        }
    } else if k.is_signed() {
        match signed_text_val(s) {
            Some(v) => if k.min_val() <= v <= k.max_val() {
                Some(le_bytes_of(twos(v, k.width()), k.width()))
            } else {
                None
            },
            None => None,
        }
    } else if k == TypeKind::Str {
        Some(encode_utf8(s))
    } else {
        None
    }
}

/// Canonical text of an integer reply.
pub open spec fn spec_decode_int_text(b: Seq<u8>, k: TypeKind) -> Seq<char> {
    if k.is_unsigned() {
        dec_digits(le_val(b.subrange(0, k.width() as int)))
    } else {
        dec_int_text(from_twos(le_val(b.subrange(0, k.width() as int)), k.width()))
    }
}

/// "[a, b, c]" rendering of a byte string, decimal and comma-separated.
pub open spec fn spec_byte_list(b: Seq<u8>) -> Seq<char> {
    seq!['['] + spec_byte_list_inner(b) + seq![']']
}

pub open spec fn spec_byte_list_inner(b: Seq<u8>) -> Seq<char>
    decreases b.len(),
{
    if b.len() == 0 {
        Seq::empty()
    } else if b.len() == 1 {
        dec_digits(b[0] as nat)
    } else {
        dec_digits(b[0] as nat) + seq![',', ' '] + spec_byte_list_inner(b.drop_first())
    }
}

/// Quoted best-effort UTF-8 reading followed by the literal byte list: the
/// two renderings a string-typed reply owes.
pub open spec fn spec_str_render(b: Seq<u8>) -> Seq<char> {
    seq!['"'] + (if valid_utf8(b) {
        decode_utf8(b)
    } else {
        Seq::<char>::empty()
    }) + seq!['"', ' '] + spec_byte_list(b)
}

/// Relies on core::str::from_utf8: it succeeds exactly on valid UTF-8 and
/// yields the bytes' decoding.
#[verifier::external_body]
fn utf8_text(bytes: &[u8]) -> (r: Option<String>)
    ensures
        r.is_some() == valid_utf8(bytes@),
        r matches Some(s) ==> s@ == decode_utf8(bytes@),
{
    match core::str::from_utf8(bytes) {
        Ok(s) => Some(s.to_owned()),
        Err(_) => None,
    }
}

pub proof fn lemma_byte_list_inner_snoc(b: Seq<u8>, x: u8)
    ensures
        b.len() == 0 ==> spec_byte_list_inner(b.push(x)) == dec_digits(x as nat),
        b.len() > 0 ==> spec_byte_list_inner(b.push(x)) == spec_byte_list_inner(b) + seq![
            ',',
            ' ',
        ] + dec_digits(x as nat),
    decreases b.len(),
{
    if b.len() == 0 {
        assert(b.push(x) =~= seq![x]);
        assert(seq![x][0] == x);
        assert(spec_byte_list_inner(seq![x]) == dec_digits(x as nat));
    } else if b.len() == 1 {
        assert(b.push(x).len() == 2);
        assert(b.push(x)[0] == b[0]);
        assert(b.push(x).drop_first() =~= seq![x]);
        assert(seq![x][0] == x);
        assert(spec_byte_list_inner(seq![x]) == dec_digits(x as nat));
        assert(spec_byte_list_inner(b.push(x)) == dec_digits(b[0] as nat) + seq![',', ' ']
            + dec_digits(x as nat));
        assert(spec_byte_list_inner(b) == dec_digits(b[0] as nat));
    } else {
        lemma_byte_list_inner_snoc(b.drop_first(), x);
        assert(b.push(x).len() == b.len() + 1);
        assert(b.push(x)[0] == b[0]);
        assert(b.push(x).drop_first() =~= b.drop_first().push(x));
        assert(spec_byte_list_inner(b.push(x)) == dec_digits(b[0] as nat) + seq![',', ' ']
            + spec_byte_list_inner(b.drop_first().push(x)));
        assert(spec_byte_list_inner(b) == dec_digits(b[0] as nat) + seq![',', ' ']
            + spec_byte_list_inner(b.drop_first()));
        assert(dec_digits(b[0] as nat) + seq![',', ' '] + (spec_byte_list_inner(b.drop_first())
            + seq![',', ' '] + dec_digits(x as nat)) =~= (dec_digits(b[0] as nat) + seq![',', ' ']
            + spec_byte_list_inner(b.drop_first())) + seq![',', ' '] + dec_digits(x as nat));
    }
}

/// Renders bytes as a bracketed, comma-separated decimal list.
pub fn byte_list(b: &[u8]) -> (r: String)
    ensures
        r@ == spec_byte_list(b@),
{
    proof {
        reveal_strlit("[");
        reveal_strlit("]");
        reveal_strlit(", ");
    }
    let mut out = String::from_str("[");
    proof {
        assert(out@ =~= seq!['['] + spec_byte_list_inner(b@.subrange(0, 0)));
    }
    let n = b.len();
    let mut i: usize = 0;
    while i < n
        invariant
            i <= n == b@.len(),
            out@ == seq!['['] + spec_byte_list_inner(b@.subrange(0, i as int)),
        decreases n - i,
    {
        let ghost pre = b@.subrange(0, i as int);
        if i > 0 {
            out.append(", ");
        }
        let d = u64_to_dec(b[i] as u64);
        out.append(d.as_str());
        proof {
            lemma_byte_list_inner_snoc(pre, b@[i as int]);
            assert(b@.subrange(0, i as int + 1) =~= pre.push(b@[i as int]));
            if i == 0 {
                assert(pre.len() == 0);
                assert(spec_byte_list_inner(pre) == Seq::<char>::empty());
                assert(spec_byte_list_inner(b@.subrange(0, i as int + 1)) == dec_digits(
                    b@[i as int] as nat,
                ));
                assert(out@ == (seq!['['] + spec_byte_list_inner(pre)) + dec_digits(
                    b@[i as int] as nat,
                ));
                assert((seq!['['] + Seq::<char>::empty()) + dec_digits(b@[i as int] as nat)
                    =~= seq!['['] + dec_digits(b@[i as int] as nat));
                assert(out@ == seq!['['] + dec_digits(b@[i as int] as nat));
                assert(out@ == seq!['['] + spec_byte_list_inner(b@.subrange(0, i as int + 1)));
            } else {
                assert(pre.len() > 0);
                assert(spec_byte_list_inner(b@.subrange(0, i as int + 1))
                    == spec_byte_list_inner(pre) + seq![',', ' '] + dec_digits(b@[i as int] as nat));
                reveal_strlit(", ");
                assert(", "@ =~= seq![',', ' ']);
                assert(out@ == ((seq!['['] + spec_byte_list_inner(pre)) + seq![',', ' '])
                    + dec_digits(b@[i as int] as nat));
                assert(((seq!['['] + spec_byte_list_inner(pre)) + seq![',', ' ']) + dec_digits(
                    b@[i as int] as nat,
                ) =~= seq!['['] + ((spec_byte_list_inner(pre) + seq![',', ' ']) + dec_digits(
                    b@[i as int] as nat,
                )));
                assert(out@ == seq!['['] + spec_byte_list_inner(b@.subrange(0, i as int + 1)));
            }
        }
        i = i + 1;
    }
    proof {
        assert(b@.subrange(0, n as int) =~= b@);
    }
    out.concat("]")
}

/// Decodes a string-typed reply: a quoted best-effort UTF-8 reading (empty
/// when the bytes are not valid UTF-8) followed by the literal byte list.
pub fn render_str_reply(bytes: &[u8]) -> (r: String)
    ensures
        r@ == spec_str_render(bytes@),
{
    proof {
        reveal_strlit("\"");
        reveal_strlit("\" ");
    }
    let mut out = String::from_str("\"");
    match utf8_text(bytes) {
        Some(s) => {
            out.append(s.as_str());
        },
        None => {},
    }
    out.append("\" ");
    let list = byte_list(bytes);
    out.append(list.as_str());
    proof {
        assert(out@ =~= spec_str_render(bytes@));
    }
    out
}

fn encode_unsigned_text(chars: &Vec<char>, max: u64, w: usize) -> (r: Result<Vec<u8>, CodecError>)
    requires
        1 <= w <= 8,
        (max as nat) < pow256(w as nat),
    ensures
        ({
            match unsigned_text_val(chars@) {
                Some(v) => if v <= max as int {
                    r matches Ok(b) && b@ == le_bytes_of(v as nat, w as nat)
                } else {
                    r == Err::<Vec<u8>, CodecError>(CodecError::BadLiteral)
                },
                None => r == Err::<Vec<u8>, CodecError>(CodecError::BadLiteral),
            }
        }),
{
    proof {
        let d = if chars@.len() > 0 && chars@[0] == '+' {
            chars@.subrange(1, chars@.len() as int)
        } else {
            chars@
        };
        if d.len() > 0 && all_digits(d) {
            lemma_digits_val_nonneg(d);
        }
    }
    match parse_unsigned(chars, max) {
        Some(v) => Ok(le_encode(v, w)),
        None => Err(CodecError::BadLiteral),
    }
}

fn encode_signed_text(chars: &Vec<char>, min: i64, max: i64, w: usize) -> (r: Result<
    Vec<u8>,
    CodecError,
>)
    requires
        1 <= w <= 8,
        min as int == -(pow256(w as nat) / 2),
        max as int == pow256(w as nat) / 2 - 1,
    ensures
        ({
            match signed_text_val(chars@) {
                Some(v) => if min as int <= v <= max as int {
                    r matches Ok(b) && b@ == le_bytes_of(twos(v, w as nat), w as nat)
                } else {
                    r == Err::<Vec<u8>, CodecError>(CodecError::BadLiteral)
                },
                None => Err::<Vec<u8>, CodecError>(CodecError::BadLiteral) == r,
            }
        }),
{
    proof {
        lemma_pow256_values();
    }
    match parse_signed(chars, min, max) {
        Some(v) => {
            let tc: u64 = if v >= 0 {
                v as u64
            } else {
                let p = crate::wire::pow256_exec(w);
                (((v as i128) + (p as i128)) as u64)
            };
            proof {
                assert(tc as nat == twos(v as int, w as nat));
            }
            Ok(le_encode(tc, w))
        },
        None => Err(CodecError::BadLiteral),
    }
}

/// Encodes text under a kind. Integer kinds parse as std integers and lay
/// out little-endian; the string kind passes the text's UTF-8 bytes through
/// unchanged; floating-point kinds are refused here (their IEEE bit
/// patterns enter through `encode_f32_bits` and `encode_f64_bits`); the
/// unknown kind is refused.
pub fn encode(text: &str, k: TypeKind) -> (r: Result<Vec<u8>, CodecError>)
    ensures
        ({
            match spec_encode(text@, k) {
                Some(b) => r matches Ok(v) && v@ == b,
                None => r matches Err(e) && e == (if k.is_float() {
                    CodecError::FloatText
                } else if k == TypeKind::Unknown {
                    CodecError::UnknownKind
                } else {
                    CodecError::BadLiteral
                }),
            }
        }),
{
    proof {
        lemma_pow256_values();
    }
    match k {
        TypeKind::Str => Ok(text.as_bytes_vec()),
        TypeKind::F32 => Err(CodecError::FloatText),
        TypeKind::F64 => Err(CodecError::FloatText),
        TypeKind::Unknown => Err(CodecError::UnknownKind),
        TypeKind::U8 => encode_unsigned_text(&chars_of(text), 0xff, 1),
        TypeKind::U16 => encode_unsigned_text(&chars_of(text), 0xffff, 2),
        TypeKind::U32 => encode_unsigned_text(&chars_of(text), 0xffffffff, 4),
        TypeKind::U64 => encode_unsigned_text(&chars_of(text), 0xffffffffffffffff, 8),
        TypeKind::I8 => encode_signed_text(&chars_of(text), -0x80, 0x7f, 1),
        TypeKind::I16 => encode_signed_text(&chars_of(text), -0x8000, 0x7fff, 2),
        TypeKind::I32 => encode_signed_text(&chars_of(text), -0x80000000, 0x7fffffff, 4),
        TypeKind::I64 => encode_signed_text(
            &chars_of(text),
            -0x8000000000000000,
            0x7fffffffffffffff,
            8,
        ),
    }
}

/// Lays out an IEEE single-precision bit pattern on the wire.
pub fn encode_f32_bits(bits: u32) -> (r: Vec<u8>)
    ensures
        r@ == le_bytes_of(bits as nat, 4),
{
    le_encode(bits as u64, 4)
}

/// Lays out an IEEE double-precision bit pattern on the wire.
pub fn encode_f64_bits(bits: u64) -> (r: Vec<u8>)
    ensures
        r@ == le_bytes_of(bits as nat, 8),
{
    le_encode(bits, 8)
}

/// Decodes a reply under a kind: canonical decimal text for integer kinds,
/// both renderings for the string kind, IEEE bit patterns for the
/// floating-point kinds. Errs exactly when a numeric reply is shorter than
/// the kind's width, or the kind is unknown.
pub fn decode(bytes: &[u8], k: TypeKind) -> (r: Result<Decoded, CodecError>)
    ensures
        ({
            match k {
                TypeKind::Unknown => r matches Err(e) && e == CodecError::UnknownKind,
                TypeKind::Str => r matches Ok(d) && d matches Decoded::Text(s) && s@
                    == spec_str_render(bytes@),
                TypeKind::F32 => if bytes@.len() < 4 {
                    r matches Err(e) && e == CodecError::Underrun
                } else {
                    r matches Ok(d) && d matches Decoded::F32Bits(x) && x as nat == le_val(
                        bytes@.subrange(0, 4),
                    )
                },
                TypeKind::F64 => if bytes@.len() < 8 {
                    r matches Err(e) && e == CodecError::Underrun
                } else {
                    r matches Ok(d) && d matches Decoded::F64Bits(x) && x as nat == le_val(
                        bytes@.subrange(0, 8),
                    )
                },
                _ => if bytes@.len() < k.width() {
                    r matches Err(e) && e == CodecError::Underrun
                } else {
                    r matches Ok(d) && d matches Decoded::Text(s) && s@ == spec_decode_int_text(
                        bytes@,
                        k,
                    )
                },
            }
        }),
{
    proof {
        lemma_pow256_values();
    }
    match k {
        TypeKind::Unknown => Err(CodecError::UnknownKind),
        TypeKind::Str => Ok(Decoded::Text(render_str_reply(bytes))),
        TypeKind::F32 => {
            if bytes.len() < 4 {
                Err(CodecError::Underrun)
            } else {
                let n = le_decode(bytes, 4);
                Ok(Decoded::F32Bits(n as u32))
            }
        },
        TypeKind::F64 => {
            if bytes.len() < 8 {
                Err(CodecError::Underrun)
            } else {
                Ok(Decoded::F64Bits(le_decode(bytes, 8)))
            }
        },
        TypeKind::U8 | TypeKind::U16 | TypeKind::U32 | TypeKind::U64 => {
            let w = k.byte_width();
            if bytes.len() < w {
                Err(CodecError::Underrun)
            } else {
                let n = le_decode(bytes, w);
                Ok(Decoded::Text(u64_to_dec(n)))
            }
        },
        _ => {
            let w = k.byte_width();
            if bytes.len() < w {
                Err(CodecError::Underrun)
            } else {
                let n = le_decode(bytes, w);
                let p = crate::wire::pow256_exec(w);
                let half: u128 = p / 2;
                let v: i64 = if (n as u128) < half {
                    n as i64
                } else {
                    ((n as i128) - (p as i128)) as i64
                };
                proof {
                    assert(v as int == from_twos(n as nat, w as nat));
                }
                Ok(Decoded::Text(i64_to_dec(v)))
            }
        },
    }
}

/// Law: an IEEE bit pattern survives the round trip through its wire
/// bytes: what `encode_f32_bits` and `encode_f64_bits` lay out, `decode`
/// reads back bit for bit.
pub proof fn lemma_float_bits_round_trip(bits32: u32, bits64: u64)
    ensures
        le_val(le_bytes_of(bits32 as nat, 4)) == bits32 as nat,
        le_val(le_bytes_of(bits64 as nat, 8)) == bits64 as nat,
{
    lemma_pow256_values();
    lemma_le_round_trip(bits32 as nat, 4);
    lemma_le_round_trip(bits64 as nat, 8);
}

/// Law: for every integer kind and every value in its range, decoding the
/// encoding of the value's canonical decimal text yields that text again.
pub proof fn lemma_codec_round_trip(v: int, k: TypeKind)
    requires
        k.is_integer(),
        k.min_val() <= v <= k.max_val(),
    ensures
        spec_encode(dec_int_text(v), k).is_some(),
        spec_decode_int_text(spec_encode(dec_int_text(v), k).unwrap(), k) == dec_int_text(v),
{
    lemma_pow256_values();
    let w = k.width();
    let s = dec_int_text(v);
    if k.is_unsigned() {
        lemma_unsigned_text_round_trip(v as nat);
        let b = le_bytes_of(v as nat, w);
        lemma_le_bytes_len(v as nat, w);
        assert(b.subrange(0, w as int) =~= b);
        lemma_le_round_trip(v as nat, w);
    } else {
        lemma_signed_text_round_trip(v);
        let tc = twos(v, w);
        let b = le_bytes_of(tc, w);
        lemma_le_bytes_len(tc, w);
        assert(b.subrange(0, w as int) =~= b);
        lemma_le_round_trip(tc, w);
        assert(from_twos(tc, w) == v);
    }
}

} // verus!
