//! Gives each encoded word its transfer encoding and its character set.
use vstd::prelude::*;
use vstd::slice::slice_to_vec;

use crate::bindings::{charset_for_label, lookup_charset};
use crate::lexer::encoded_word::EncodedWord;
use crate::lexer::{tokens_view, Token, TokenView};

verus! {

/// All errors which the parser can return.
#[derive(Debug, Clone, PartialEq, Eq, Structural)]
pub enum Error {
    /// The encoding holds more than one byte.
    ParseEncodingTooBigError,
    /// The encoding is empty.
    ParseEncodingEmptyError,
    /// The encoding is neither `B` nor `Q`, in either case.
    ParseEncodingError(char),
}

/// The transfer encoding of an encoded word.
#[derive(Debug, Clone, Copy, PartialEq, Eq, Hash, Structural)]
pub enum Encoding {
    /// Base64.
    B,
    /// Quoted-Printable, with `_` standing for a space.
    Q,
}

/// The character that a byte stands for in Latin-1.
pub open spec fn byte_char(b: u8) -> char {
    b as char
}

/// What an encoding tag stands for.
pub open spec fn encoding_of(tag: Seq<u8>) -> Result<Encoding, Error> {
    if tag.len() > 1 {
        Err(Error::ParseEncodingTooBigError)
    } else if tag.len() == 0 {
        Err(Error::ParseEncodingEmptyError)
    } else if tag[0] == 0x71 || tag[0] == 0x51 {
        Ok(Encoding::Q)
    } else if tag[0] == 0x62 || tag[0] == 0x42 {
        Ok(Encoding::B)
    } else {
        Err(Error::ParseEncodingError(byte_char(tag[0])))
    }
}

impl Encoding {
    /// Reads an encoding tag: `B` or `Q`, in either case.
    pub fn from_tag(token: &[u8]) -> (r: Result<Encoding, Error>)
        ensures
            r == encoding_of(token@),
    {
        if token.len() > 1 {
            return Err(Error::ParseEncodingTooBigError);
        }
        if token.len() == 0 {
            return Err(Error::ParseEncodingEmptyError);
        }
        let b = token[0];
        if b == 0x71 || b == 0x51 {
            Ok(Encoding::Q)
        } else if b == 0x62 || b == 0x42 {
            Ok(Encoding::B)
        } else {
            Err(Error::ParseEncodingError(b as char))
        }
    }
}


/// A token with its encoding and character set resolved.
#[derive(Debug, Clone, PartialEq, Hash)]
pub enum ParsedEncodedWord {
    ClearText(Vec<u8>),
    EncodedWord {
        /// `None` where the label names no known character set: the text is
        /// then read as ASCII.
        charset: Option<charset::Charset>,
        encoding: Encoding,
        encoded_text: Vec<u8>,
    },
}

/// What a parsed unit holds.
pub enum UnitView {
    ClearText(Seq<u8>),
    EncodedWord(Option<charset::Charset>, Encoding, Seq<u8>),
}

impl View for ParsedEncodedWord {
    type V = UnitView;

    open spec fn view(&self) -> UnitView {
        match self {
            ParsedEncodedWord::ClearText(b) => UnitView::ClearText(b@),
            ParsedEncodedWord::EncodedWord { charset, encoding, encoded_text } => {
                UnitView::EncodedWord(*charset, *encoding, encoded_text@)
            },
        }
    }
}

pub open spec fn units_view(us: Seq<ParsedEncodedWord>) -> Seq<UnitView> {
    us.map_values(|u: ParsedEncodedWord| u@)
}

/// The unit that a token becomes.
pub open spec fn unit_of(t: TokenView) -> Result<UnitView, Error> {
    match t {
        TokenView::ClearText(b) => Ok(UnitView::ClearText(b)),
        TokenView::EncodedWord(c, e, x) => match encoding_of(e) {
            Ok(encoding) => Ok(UnitView::EncodedWord(charset_for_label(c), encoding, x)),
            Err(err) => Err(err),
        },
    }
}

/// The units that the tokens become, or the error of the first token that
/// has none.
pub open spec fn parsed(ts: Seq<TokenView>) -> Result<Seq<UnitView>, Error>
    decreases ts.len(),
{
    if ts.len() == 0 {
        Ok(seq![])
    } else {
        match parsed(ts.drop_last()) {
            Err(err) => Err(err),
            Ok(us) => match unit_of(ts.last()) {
                Err(err) => Err(err),
                Ok(u) => Ok(us.push(u)),
            },
        }
    }
}

/// An error among the first `i` tokens is the error of all of them.
pub proof fn lemma_parsed_error_stays(ts: Seq<TokenView>, i: int)
    requires
        0 <= i <= ts.len(),
        parsed(ts.take(i)) is Err,
    ensures
        parsed(ts) == parsed(ts.take(i)),
    decreases ts.len() - i,
{
    if i < ts.len() {
        assert(ts.take(i + 1).drop_last() =~= ts.take(i));
        lemma_parsed_error_stays(ts, i + 1);
    } else {
        assert(ts.take(i) =~= ts);
    }
}

pub open spec fn parse_outcome(r: Result<Vec<ParsedEncodedWord>, Error>) -> Result<
    Seq<UnitView>,
    Error,
> {
    match r {
        Ok(us) => Ok(units_view(us@)),
        Err(err) => Err(err),
    }
}

impl ParsedEncodedWord {
    /// Resolves the encoding and the character set of an encoded word.
    pub fn convert_encoded_word(encoded_word: EncodedWord) -> (r: Result<Self, Error>)
        ensures
            r matches Ok(u) ==> unit_of(
                TokenView::EncodedWord(
                    encoded_word.charset@,
                    encoded_word.encoding@,
                    encoded_word.encoded_text@,
                ),
            ) == Ok::<UnitView, Error>(u@),
            r matches Err(err) ==> unit_of(
                TokenView::EncodedWord(
                    encoded_word.charset@,
                    encoded_word.encoding@,
                    encoded_word.encoded_text@,
                ),
            ) == Err::<UnitView, Error>(err),
    {
        let encoding = Encoding::from_tag(encoded_word.encoding.as_slice())?;
        let charset = lookup_charset(encoded_word.charset.as_slice());
        Ok(ParsedEncodedWord::EncodedWord {
            charset,
            encoding,
            encoded_text: encoded_word.encoded_text,
        })
    }
}

fn convert_token(token: &Token) -> (r: Result<ParsedEncodedWord, Error>)
    ensures
        r matches Ok(u) ==> unit_of(token@) == Ok::<UnitView, Error>(u@),
        r matches Err(err) ==> unit_of(token@) == Err::<UnitView, Error>(err),
{
    match token {
        Token::ClearText(clear_text) => Ok(
            ParsedEncodedWord::ClearText(slice_to_vec(clear_text.as_slice())),
        ),
        Token::EncodedWord(w) => ParsedEncodedWord::convert_encoded_word(
            EncodedWord::new(
                slice_to_vec(w.charset.as_slice()),
                slice_to_vec(w.encoding.as_slice()),
                slice_to_vec(w.encoded_text.as_slice()),
            ),
        ),
    }
}

/// Resolves every token, in order; fails with the error of the first
/// encoded word whose encoding is not `B` or `Q`.
pub fn run(tokens: Vec<Token>) -> (r: Result<Vec<ParsedEncodedWord>, Error>)
    ensures
        parse_outcome(r) == parsed(tokens_view(tokens@)),
{
    let ghost ts = tokens_view(tokens@);
    let mut units: Vec<ParsedEncodedWord> = Vec::new();
    let mut i: usize = 0;
    assert(ts.take(0) =~= Seq::<TokenView>::empty());
    assert(units_view(units@) =~= Seq::<UnitView>::empty());
    while i < tokens.len()
        invariant
            i <= tokens@.len(),
            ts == tokens_view(tokens@),
            parsed(ts.take(i as int)) == Ok::<Seq<UnitView>, Error>(units_view(units@)),
        decreases tokens@.len() - i,
    {
        assert(ts.take(i + 1).drop_last() =~= ts.take(i as int));
        let ghost before = units@;
        match convert_token(&tokens[i]) {
            Ok(u) => {
                units.push(u);
                assert(units_view(units@) =~= units_view(before).push(u@));
            },
            Err(err) => {
                proof {
                    lemma_parsed_error_stays(ts, i + 1);
                }
                return Err(err);
            },
        }
        i = i + 1;
    }
    assert(ts.take(i as int) =~= ts);
    Ok(units)
}

} // verus!
