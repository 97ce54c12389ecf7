//! Turns parsed units into text.
use vstd::prelude::*;
use vstd::slice::slice_to_vec;
use vstd::utf8::{decode_utf8, valid_utf8};

use crate::bindings::{
    append_str, ascii_decoded, base64_decoded, charset_decoded, decode_ascii_bytes,
    decode_base64_bytes, decode_in_charset, decode_quoted_printable_bytes, quoted_printable_decoded,
    utf8_string,
};
use crate::parser::{units_view, Encoding, ParsedEncodedWord, UnitView};

verus! {

/// All errors which the evaluator can return.
#[derive(Debug, PartialEq)]
pub enum Error {
    /// Clear text that is not UTF-8.
    DecodeUtf8Error(std::string::FromUtf8Error),
    /// Encoded text that is not Base64.
    DecodeBase64Error(base64::DecodeError),
    /// Encoded text that is not Quoted-Printable.
    DecodeQuotedPrintableError(quoted_printable::QuotedPrintableError),
}

/// Which of the evaluator's errors occurred.
pub enum EvalFailure {
    Utf8,
    Base64,
    QuotedPrintable,
}

impl Error {
    pub open spec fn kind(&self) -> EvalFailure {
        match self {
            Error::DecodeUtf8Error(_) => EvalFailure::Utf8,
            Error::DecodeBase64Error(_) => EvalFailure::Base64,
            Error::DecodeQuotedPrintableError(_) => EvalFailure::QuotedPrintable,
        }
    }
}

/// The encoded text of a Quoted-Printable word with each `_` read as a space.
pub open spec fn underscores_as_spaces(t: Seq<u8>) -> Seq<u8> {
    t.map_values(|b: u8| if b == 0x5f { 0x20u8 } else { b })
}

/// The bytes that an encoded text stands for, if it is well formed.
pub open spec fn transfer_decoded(encoding: Encoding, t: Seq<u8>) -> Option<Seq<u8>> {
    match encoding {
        Encoding::B => base64_decoded(t),
        Encoding::Q => Some(quoted_printable_decoded(underscores_as_spaces(t))),
    }
}

/// The text that bytes stand for in a character set, or in ASCII where there
/// is none.
pub open spec fn charset_text(charset: Option<charset::Charset>, b: Seq<u8>) -> Seq<char> {
    match charset {
        Some(c) => charset_decoded(c, b),
        None => ascii_decoded(b),
    }
}

/// The text of one unit.
pub open spec fn unit_text(u: UnitView) -> Result<Seq<char>, EvalFailure> {
    match u {
        UnitView::ClearText(b) => if valid_utf8(b) {
            Ok(decode_utf8(b))
        } else {
            Err(EvalFailure::Utf8)
        },
        UnitView::EncodedWord(charset, encoding, t) => match transfer_decoded(encoding, t) {
            Some(b) => Ok(charset_text(charset, b)),
            None => Err(EvalFailure::Base64),
        },
    }
}

/// The texts of the units one after the other, or the failure of the first
/// unit that has none.
pub open spec fn evaluated(us: Seq<UnitView>) -> Result<Seq<char>, EvalFailure>
    decreases us.len(),
{
    if us.len() == 0 {
        Ok(seq![])
    } else {
        match evaluated(us.drop_last()) {
            Err(k) => Err(k),
            Ok(text) => match unit_text(us.last()) {
                Err(k) => Err(k),
                Ok(t) => Ok(text + t),
            },
        }
    }
}

/// A failure among the first `i` units is the failure of all of them.
pub proof fn lemma_evaluated_error_stays(us: Seq<UnitView>, i: int)
    requires
        0 <= i <= us.len(),
        evaluated(us.take(i)) is Err,
    ensures
        evaluated(us) == evaluated(us.take(i)),
    decreases us.len() - i,
{
    if i < us.len() {
        assert(us.take(i + 1).drop_last() =~= us.take(i));
        lemma_evaluated_error_stays(us, i + 1);
    } else {
        assert(us.take(i) =~= us);
    }
}

pub open spec fn eval_outcome(r: Result<String, Error>) -> Result<Seq<char>, EvalFailure> {
    match r {
        Ok(s) => Ok(s@),
        Err(e) => Err(e.kind()),
    }
}

fn decode_base64(encoded_bytes: Vec<u8>) -> (r: Result<Vec<u8>, Error>)
    ensures
        r matches Ok(v) ==> transfer_decoded(Encoding::B, encoded_bytes@) == Some(v@),
        r matches Err(e) ==> transfer_decoded(Encoding::B, encoded_bytes@) is None && e.kind()
            == EvalFailure::Base64,
{
    match decode_base64_bytes(encoded_bytes.as_slice()) {
        Ok(decoded_bytes) => Ok(decoded_bytes),
        Err(e) => Err(Error::DecodeBase64Error(e)),
    }
}

fn decode_quoted_printable(encoded_bytes: Vec<u8>) -> (r: Result<Vec<u8>, Error>)
    ensures
        r matches Ok(v) && transfer_decoded(Encoding::Q, encoded_bytes@) == Some(v@),
{
    let mut replaced: Vec<u8> = Vec::new();
    let mut i: usize = 0;
    while i < encoded_bytes.len()
        invariant
            i <= encoded_bytes@.len(),
            replaced@ == underscores_as_spaces(encoded_bytes@.take(i as int)),
        decreases encoded_bytes@.len() - i,
    {
        let b = encoded_bytes[i];
        if b == 0x5f {
            replaced.push(0x20);
        } else {
            replaced.push(b);
        }
        assert(underscores_as_spaces(encoded_bytes@.take(i + 1)) =~= underscores_as_spaces(
            encoded_bytes@.take(i as int),
        ).push(if b == 0x5f { 0x20u8 } else { b }));
        i = i + 1;
    }
    assert(encoded_bytes@.take(i as int) =~= encoded_bytes@);
    match decode_quoted_printable_bytes(replaced.as_slice()) {
        Ok(decoded_bytes) => Ok(decoded_bytes),
        Err(e) => Err(Error::DecodeQuotedPrintableError(e)),
    }
}

fn decode_with_encoding(encoding: Encoding, encoded_bytes: Vec<u8>) -> (r: Result<Vec<u8>, Error>)
    ensures
        r matches Ok(v) ==> transfer_decoded(encoding, encoded_bytes@) == Some(v@),
        r matches Err(e) ==> transfer_decoded(encoding, encoded_bytes@) is None && e.kind()
            == EvalFailure::Base64,
{
    match encoding {
        Encoding::B => decode_base64(encoded_bytes),
        Encoding::Q => decode_quoted_printable(encoded_bytes),
    }
}

fn decode_with_charset(charset: Option<charset::Charset>, decoded_bytes: Vec<u8>) -> (r: String)
    ensures
        r@ == charset_text(charset, decoded_bytes@),
{
    match charset {
        Some(charset) => decode_in_charset(charset, decoded_bytes.as_slice()),
        None => decode_ascii_bytes(decoded_bytes.as_slice()),
    }
}

fn decode_utf8_string(clear_text: Vec<u8>) -> (r: Result<String, Error>)
    ensures
        eval_outcome(r) == unit_text(UnitView::ClearText(clear_text@)),
{
    match utf8_string(clear_text) {
        Ok(s) => Ok(s),
        Err(e) => Err(Error::DecodeUtf8Error(e)),
    }
}

fn decode_parsed_encoded_word(
    charset: Option<charset::Charset>,
    encoding: Encoding,
    encoded_text: Vec<u8>,
) -> (r: Result<String, Error>)
    ensures
        eval_outcome(r) == unit_text(UnitView::EncodedWord(charset, encoding, encoded_text@)),
{
    let decoded_bytes = decode_with_encoding(encoding, encoded_text)?;
    Ok(decode_with_charset(charset, decoded_bytes))
}

fn evaluate_unit(unit: &ParsedEncodedWord) -> (r: Result<String, Error>)
    ensures
        eval_outcome(r) == unit_text(unit@),
{
    match unit {
        ParsedEncodedWord::ClearText(clear_text) => decode_utf8_string(
            slice_to_vec(clear_text.as_slice()),
        ),
        ParsedEncodedWord::EncodedWord { charset, encoding, encoded_text } => {
            decode_parsed_encoded_word(*charset, *encoding, slice_to_vec(encoded_text.as_slice()))
        },
    }
}

/// Decodes every unit, in order, and joins the texts; fails with the error
/// of the first unit that cannot be decoded.
pub fn run(parsed_encoded_words: Vec<ParsedEncodedWord>) -> (r: Result<String, Error>)
    ensures
        eval_outcome(r) == evaluated(units_view(parsed_encoded_words@)),
{
    let ghost us = units_view(parsed_encoded_words@);
    let mut out = String::new();
    let mut i: usize = 0;
    assert(us.take(0) =~= Seq::<UnitView>::empty());
    while i < parsed_encoded_words.len()
        invariant
            i <= parsed_encoded_words@.len(),
            us == units_view(parsed_encoded_words@),
            evaluated(us.take(i as int)) == Ok::<Seq<char>, EvalFailure>(out@),
        decreases parsed_encoded_words@.len() - i,
    {
        assert(us.take(i + 1).drop_last() =~= us.take(i as int));
        match evaluate_unit(&parsed_encoded_words[i]) {
            Ok(text) => {
                append_str(&mut out, text.as_str());
            },
            Err(e) => {
                proof {
                    lemma_evaluated_error_stays(us, i + 1);
                }
                return Err(e);
            },
        }
        i = i + 1;
    }
    assert(us.take(i as int) =~= us);
    Ok(out)
}

} // verus!
