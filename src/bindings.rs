//! The calls into outside code that the library relies on, each with the
//! contract that the outside code's source or documentation gives it.
use vstd::prelude::*;
use base64::Engine;
use quoted_printable::QuotedPrintableError;
use vstd::utf8::{decode_utf8, valid_utf8};

verus! {

/// What `String::from_utf8_lossy` makes of a byte string: invalid sequences
/// become U+FFFD.
pub uninterp spec fn utf8_lossy_of(b: Seq<u8>) -> Seq<char>;

/// Relies on `String::from_utf8_lossy`: valid UTF-8 is decoded as it is, and
/// the result depends on the bytes alone.
#[verifier::external_body]
pub(crate) fn lossy_utf8(b: &[u8]) -> (r: String)
    ensures
        r@ == utf8_lossy_of(b@),
        valid_utf8(b@) ==> r@ == decode_utf8(b@),
{
    String::from_utf8_lossy(b).into_owned()
}


/// Relies on `String::push_str`: appends `t` to `s`.
#[verifier::external_body]
pub(crate) fn append_str(s: &mut String, t: &str)
    ensures
        final(s)@ == old(s)@ + t@,
{
    s.push_str(t)
}


/// A character set for decoding mail, as the `charset` crate gives it.
#[verifier::external_type_specification]
#[verifier::external_body]
pub struct ExCharset(charset::Charset);

/// The character set that `charset::Charset::for_label` finds for a label,
/// if any.
pub uninterp spec fn charset_for_label(label: Seq<u8>) -> Option<charset::Charset>;

/// Relies on `charset::Charset::for_label`: a lookup of the label in a fixed
/// table, so the result depends on the label alone.
#[verifier::external_body]
pub(crate) fn lookup_charset(label: &[u8]) -> (r: Option<charset::Charset>)
    ensures
        r == charset_for_label(label@),
{
    charset::Charset::for_label(label)
}


/// What `Charset::decode` makes of a byte string in a character set.
pub uninterp spec fn charset_decoded(charset: charset::Charset, b: Seq<u8>) -> Seq<char>;

/// Relies on `charset::Charset::decode`: decodes the whole input, with BOM
/// sniffing and malformed sequences replaced by U+FFFD; the text depends on
/// the character set and the bytes alone.
#[verifier::external_body]
pub(crate) fn decode_in_charset(charset: charset::Charset, b: &[u8]) -> (r: String)
    ensures
        r@ == charset_decoded(charset, b@),
{
    charset.decode(b).0.into_owned()
}

/// Bytes read as ASCII: every byte below 0x80 is that character, every other
/// byte is U+FFFD.
pub open spec fn ascii_decoded(b: Seq<u8>) -> Seq<char> {
    Seq::new(b.len(), |i: int| if b[i] < 0x80 { b[i] as char } else { '\u{FFFD}' })
}

/// Relies on `charset::decode_ascii`: ASCII bytes are kept and every other
/// byte is replaced by U+FFFD.
#[verifier::external_body]
pub(crate) fn decode_ascii_bytes(b: &[u8]) -> (r: String)
    ensures
        r@ == ascii_decoded(b@),
{
    charset::decode_ascii(b).into_owned()
}

/// The error of a Base64 decoder of the `base64` crate.
#[verifier::external_type_specification]
#[verifier::external_body]
pub struct ExBase64DecodeError(base64::DecodeError);

/// What Base64 decoding with the standard alphabet, trailing bits allowed,
/// makes of a byte string; `None` where it fails.
pub uninterp spec fn base64_decoded(b: Seq<u8>) -> Option<Seq<u8>>;

/// Relies on `Engine::decode` of the `base64` crate's `GeneralPurpose` engine
/// with the standard alphabet and `with_decode_allow_trailing_bits(true)`: the
/// outcome depends on the input alone.
#[verifier::external_body]
pub(crate) fn decode_base64_bytes(b: &[u8]) -> (r: Result<Vec<u8>, base64::DecodeError>)
    ensures
        r matches Ok(v) ==> base64_decoded(b@) == Some(v@),
        r is Err ==> base64_decoded(b@) is None,
{
    let config = base64::engine::GeneralPurposeConfig::new().with_decode_allow_trailing_bits(true);
    base64::engine::GeneralPurpose::new(&base64::alphabet::STANDARD, config).decode(b)
}

/// The error of the `quoted_printable` crate's decoder.
#[verifier::external_type_specification]
#[verifier::external_body]
pub struct ExQuotedPrintableError(quoted_printable::QuotedPrintableError);

/// What `quoted_printable::decode` in `ParseMode::Robust` makes of a byte
/// string.
pub uninterp spec fn quoted_printable_decoded(b: Seq<u8>) -> Seq<u8>;

/// Relies on `quoted_printable::decode` in `ParseMode::Robust`: every error
/// it can return is raised in `ParseMode::Strict` only, so it always
/// succeeds, and the bytes depend on the input alone.
#[verifier::external_body]
pub(crate) fn decode_quoted_printable_bytes(b: &[u8]) -> (r: Result<Vec<u8>, QuotedPrintableError>)
    ensures
        r is Ok,
        r matches Ok(v) ==> v@ == quoted_printable_decoded(b@),
{
    quoted_printable::decode(b, quoted_printable::ParseMode::Robust)
}

/// The error of `String::from_utf8`.
#[verifier::external_type_specification]
#[verifier::external_body]
pub struct ExFromUtf8Error(std::string::FromUtf8Error);

/// Relies on `String::from_utf8`: it succeeds exactly on valid UTF-8, and then
/// holds the characters that the bytes encode.
#[verifier::external_body]
pub(crate) fn utf8_string(b: Vec<u8>) -> (r: Result<String, std::string::FromUtf8Error>)
    ensures
        r is Ok <==> valid_utf8(b@),
        r matches Ok(s) ==> s@ == decode_utf8(b@),
{
    String::from_utf8(b)
}

} // verus!
