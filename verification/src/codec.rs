//! Hexadecimal and base64 text.

use base64::Engine;
use vstd::prelude::*;

verus! {

/// The error of `hex::decode`.
#[verifier::external_type_specification]
#[verifier::external_body]
pub struct ExFromHexError(hex::FromHexError);

/// The error of base64 decoding.
#[verifier::external_type_specification]
#[verifier::external_body]
pub struct ExDecodeError(base64::DecodeError);

/// The lower-case hexadecimal digit `d`.
pub open spec fn hex_digit(d: nat) -> char {
    if d < 10 {
        (48 + d) as char
    } else {
        (87 + d) as char
    }
}

/// Whether `c` is a hexadecimal digit of either case.
pub open spec fn is_hex_digit(c: char) -> bool {
    '0' <= c <= '9' || 'a' <= c <= 'f' || 'A' <= c <= 'F'
}

/// The value of a hexadecimal digit.
pub open spec fn hex_digit_value(c: char) -> int {
    if '0' <= c <= '9' {
        c as int - 48
    } else if 'a' <= c <= 'f' {
        c as int - 87
    } else {
        c as int - 55
    }
}

/// The lower-case hexadecimal text of `data`.
pub open spec fn hex_text(data: Seq<u8>) -> Seq<char> {
    Seq::new(
        2 * data.len(),
        |i: int|
            if i % 2 == 0 {
                hex_digit((data[i / 2] / 16) as nat)
            } else {
                hex_digit((data[i / 2] % 16) as nat)
            },
    )
}

/// Whether `s` is hexadecimal text of a whole number of bytes.
pub open spec fn is_hex(s: Seq<char>) -> bool {
    &&& s.len() % 2 == 0
    &&& forall|i: int| 0 <= i < s.len() ==> is_hex_digit(#[trigger] s[i])
}

/// The bytes that hexadecimal text stands for.
pub open spec fn hex_bytes(s: Seq<char>) -> Seq<u8> {
    Seq::new(
        s.len() / 2,
        |i: int| (hex_digit_value(s[2 * i]) * 16 + hex_digit_value(s[2 * i + 1])) as u8,
    )
}

/// `hex::encode` writes each byte as two lower-case hexadecimal digits, the high one first.
#[verifier::external_body]
pub(crate) fn hex_encode(data: &[u8]) -> (r: String)
    ensures
        r@ == hex_text(data@),
{
    hex::encode(data)
}

/// `hex::decode` accepts an even number of hexadecimal digits of either case and nothing
/// else, and gives back the byte that each pair stands for.
#[verifier::external_body]
fn hex_decode_call(s: &str) -> (r: Result<Vec<u8>, hex::FromHexError>)
    ensures
        r is Ok == is_hex(s@),
        r matches Ok(v) ==> v@ == hex_bytes(s@),
{
    hex::decode(s)
}

/// The bytes that `s` stands for, where it is hexadecimal text.
pub fn hex_decode(s: &str) -> (r: Option<Vec<u8>>)
    ensures
        r is Some == is_hex(s@),
        r matches Some(v) ==> v@ == hex_bytes(s@),
{
    match hex_decode_call(s) {
        Ok(v) => Some(v),
        Err(_) => None,
    }
}

/// Decoding what was encoded gives the bytes back.
pub proof fn lemma_hex_round_trip(data: Seq<u8>)
    ensures
        is_hex(hex_text(data)),
        hex_bytes(hex_text(data)) == data,
{
    let t = hex_text(data);
    assert forall|i: int| 0 <= i < t.len() implies is_hex_digit(#[trigger] t[i]) by {
        assert(data[i / 2] / 16 < 16);
        assert(data[i / 2] % 16 < 16);
    }
    assert forall|i: int| 0 <= i < data.len() implies #[trigger] hex_bytes(t)[i] == data[i] by {
        let b = data[i];
        assert((2 * i) / 2 == i && (2 * i + 1) / 2 == i);
        assert((2 * i) % 2 == 0 && (2 * i + 1) % 2 == 1);
        assert(t[2 * i] == hex_digit((b / 16) as nat));
        assert(t[2 * i + 1] == hex_digit((b % 16) as nat));
        assert((b / 16) * 16 + b % 16 == b);
    }
    assert(hex_bytes(t) =~= data);
}

/// The padded standard base64 text of `data`.
pub uninterp spec fn base64_text(data: Seq<u8>) -> Seq<char>;

/// The bytes that padded standard base64 text stands for, where it is such text.
pub uninterp spec fn base64_bytes(s: Seq<char>) -> Option<Seq<u8>>;

/// `Engine::encode` of the engine `STANDARD`: padded base64 in the standard alphabet. The same
/// engine decodes it to the bytes that were encoded.
#[verifier::external_body]
pub(crate) fn base64_encode(data: &[u8]) -> (r: String)
    ensures
        r@ == base64_text(data@),
        base64_bytes(r@) == Some(data@),
{
    base64::engine::general_purpose::STANDARD.encode(data)
}

/// `Engine::decode` of the engine `STANDARD`, which takes no other text for some bytes than the
/// one that it encodes them to. The empty text decodes to no bytes.
#[verifier::external_body]
fn base64_decode_call(s: &str) -> (r: Result<Vec<u8>, base64::DecodeError>)
    ensures
        r is Ok == base64_bytes(s@) is Some,
        r matches Ok(v) ==> base64_bytes(s@) == Some(v@) && base64_text(v@) == s@,
        r is Err ==> s@.len() > 0,
        r matches Ok(v) ==> (s@.len() == 0 ==> v@.len() == 0),
{
    base64::engine::general_purpose::STANDARD.decode(s)
}

/// The bytes that `s` stands for, where it is padded standard base64 text.
pub fn base64_decode(s: &str) -> (r: Option<Vec<u8>>)
    ensures
        r is Some == base64_bytes(s@) is Some,
        r matches Some(v) ==> base64_bytes(s@) == Some(v@) && base64_text(v@) == s@,
        r is None ==> s@.len() > 0,
        r matches Some(v) ==> (s@.len() == 0 ==> v@.len() == 0),
{
    match base64_decode_call(s) {
        Ok(v) => Some(v),
        Err(_) => None,
    }
}

} // verus!
