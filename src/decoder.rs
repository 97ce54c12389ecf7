use vstd::prelude::*;

use vstd::utf8::{
    decode_utf8, encode_utf8, encode_utf8_decode_utf8, encode_utf8_valid_utf8, valid_utf8,
};

use crate::bindings::{charset_for_label, utf8_lossy_of};
use crate::evaluator::{self, evaluated, unit_text, EvalFailure};
use crate::lexer::encoded_word::{delimited, word_len, MAX_LENGTH};
use crate::lexer::{
    self, all_in_class, holds_no_word, is_word, lemma_lex_clear_text, lemma_lex_single_word,
    lemma_lex_two_words, lemma_lex_word_then_clear_text, lex, lexed, too_long_words,
    word_token, ByteClass, TokenView,
};
use crate::parser::{self, encoding_of, parsed, UnitView};

verus! {

/// The possible errors which can occur while decoding, by the stage that
/// failed.
#[derive(Debug, PartialEq)]
pub enum Error {
    /// An error of the lexer.
    Lexer(lexer::Error),
    /// An error of the parser.
    Parser(parser::Error),
    /// An error of the evaluator.
    Evaluator(evaluator::Error),
}

/// Why decoding failed, in the terms of the stages' own models.
pub enum Failure {
    /// The encoded words that are too long.
    Lexer(Seq<Seq<char>>),
    Parser(parser::Error),
    Evaluator(EvalFailure),
}

/// What decoding `s` yields under `strategy`: its text, or why it fails.
pub open spec fn decoded(s: Seq<u8>, strategy: RecoverStrategy) -> Result<Seq<char>, Failure> {
    match lexed(s, strategy) {
        Err(words) => Err(Failure::Lexer(words)),
        Ok(tokens) => match parsed(tokens) {
            Err(err) => Err(Failure::Parser(err)),
            Ok(units) => match evaluated(units) {
                Err(k) => Err(Failure::Evaluator(k)),
                Ok(text) => Ok(text),
            },
        },
    }
}

/// What decoding yields from the tokens that the lexer found.
pub open spec fn decoded_tokens(ts: Seq<TokenView>, strategy: RecoverStrategy) -> Result<
    Seq<char>,
    Failure,
> {
    if strategy == RecoverStrategy::Abort && too_long_words(ts).len() > 0 {
        Err(Failure::Lexer(too_long_words(ts)))
    } else {
        match parsed(ts) {
            Err(err) => Err(Failure::Parser(err)),
            Ok(units) => match evaluated(units) {
                Err(k) => Err(Failure::Evaluator(k)),
                Ok(text) => Ok(text),
            },
        }
    }
}

/// What decoding a well-formed encoded word yields where it is decoded.
pub open spec fn word_decoded(charset: Seq<u8>, encoding: Seq<u8>, text: Seq<u8>) -> Result<
    Seq<char>,
    Failure,
> {
    match encoding_of(encoding) {
        Err(err) => Err(Failure::Parser(err)),
        Ok(enc) => match unit_text(UnitView::EncodedWord(charset_for_label(charset), enc, text)) {
            Err(k) => Err(Failure::Evaluator(k)),
            Ok(t) => Ok(t),
        },
    }
}

proof fn lemma_decoded_via_tokens(s: Seq<u8>, strategy: RecoverStrategy)
    ensures
        decoded(s, strategy) == decoded_tokens(lex(s, 0, strategy), strategy),
{
}

proof fn lemma_one_token(x: TokenView)
    ensures
        too_long_words(seq![x]) == (match x {
            TokenView::EncodedWord(c, e, t) => if word_len(c, e, t) > MAX_LENGTH {
                seq![utf8_lossy_of(delimited(c, e, t))]
            } else {
                Seq::<Seq<char>>::empty()
            },
            TokenView::ClearText(_) => Seq::<Seq<char>>::empty(),
        }),
        parsed(seq![x]) == (match parser::unit_of(x) {
            Ok(u) => Ok(seq![u]),
            Err(err) => Err::<Seq<UnitView>, parser::Error>(err),
        }),
{
    assert(seq![x].drop_last() =~= Seq::<TokenView>::empty());
    assert(seq![x].last() == x);
    assert(too_long_words(Seq::<TokenView>::empty()) == Seq::<Seq<char>>::empty());
    assert(parsed(Seq::<TokenView>::empty()) == Ok::<Seq<UnitView>, parser::Error>(
        Seq::<UnitView>::empty(),
    ));
    match x {
        TokenView::EncodedWord(c, e, t) => {
            assert(Seq::<Seq<char>>::empty().push(utf8_lossy_of(delimited(c, e, t))) =~= seq![
                utf8_lossy_of(delimited(c, e, t)),
            ]);
        },
        _ => {},
    }
    match parser::unit_of(x) {
        Ok(u) => {
            assert(Seq::<UnitView>::empty().push(u) =~= seq![u]);
        },
        _ => {},
    }
}

proof fn lemma_one_unit(u: UnitView)
    ensures
        evaluated(seq![u]) == (match unit_text(u) {
            Ok(t) => Ok(t),
            Err(k) => Err::<Seq<char>, EvalFailure>(k),
        }),
{
    assert(seq![u].drop_last() =~= Seq::<UnitView>::empty());
    assert(seq![u].last() == u);
    assert(evaluated(Seq::<UnitView>::empty()) == Ok::<Seq<char>, EvalFailure>(
        Seq::<char>::empty(),
    ));
    match unit_text(u) {
        Ok(t) => {
            assert(Seq::<char>::empty() + t =~= t);
        },
        Err(_) => {},
    }
}

proof fn lemma_clear_token(b: Seq<u8>, strategy: RecoverStrategy)
    requires
        valid_utf8(b),
    ensures
        decoded_tokens(seq![TokenView::ClearText(b)], strategy) == Ok::<Seq<char>, Failure>(
            decode_utf8(b),
        ),
{
    lemma_one_token(TokenView::ClearText(b));
    lemma_one_unit(UnitView::ClearText(b));
}

proof fn lemma_two_tokens(x: TokenView, y: TokenView, strategy: RecoverStrategy)
    requires
        decoded_tokens(seq![x], strategy) is Ok,
        decoded_tokens(seq![y], strategy) is Ok,
    ensures
        decoded_tokens(seq![x, y], strategy) == Ok::<Seq<char>, Failure>(
            decoded_tokens(seq![x], strategy)->Ok_0 + decoded_tokens(seq![y], strategy)->Ok_0,
        ),
{
    lemma_one_token(x);
    lemma_one_token(y);
    let xy = seq![x, y];
    assert(xy.drop_last() =~= seq![x]);
    assert(xy.last() == y);
    let ux = parser::unit_of(x)->Ok_0;
    let uy = parser::unit_of(y)->Ok_0;
    lemma_one_unit(ux);
    lemma_one_unit(uy);
    assert(too_long_words(xy).len() == too_long_words(seq![x]).len() + too_long_words(
        seq![y],
    ).len());
    let us = seq![ux].push(uy);
    assert(parsed(xy) == Ok::<Seq<UnitView>, parser::Error>(us));
    assert(us.drop_last() =~= seq![ux]);
    assert(us.last() == uy);
    assert(evaluated(us) == Ok::<Seq<char>, EvalFailure>(
        unit_text(ux)->Ok_0 + unit_text(uy)->Ok_0,
    ));
}

/// A header value that holds no encoded word decodes to itself, under every
/// strategy.
pub proof fn lemma_clear_text_unchanged(s: Seq<char>, strategy: RecoverStrategy)
    requires
        holds_no_word(encode_utf8(s)),
    ensures
        decoded(encode_utf8(s), strategy) == Ok::<Seq<char>, Failure>(s),
{
    let b = encode_utf8(s);
    lemma_lex_clear_text(b, strategy);
    encode_utf8_decode_utf8(s);
    encode_utf8_valid_utf8(s);
    if b.len() > 0 {
        lemma_one_token(TokenView::ClearText(b));
        lemma_one_unit(UnitView::ClearText(b));
    } else {
        assert(too_long_words(Seq::<TokenView>::empty()) == Seq::<Seq<char>>::empty());
        assert(parsed(Seq::<TokenView>::empty()) == Ok::<Seq<UnitView>, parser::Error>(
            Seq::<UnitView>::empty(),
        ));
        assert(evaluated(Seq::<UnitView>::empty()) == Ok::<Seq<char>, EvalFailure>(
            Seq::<char>::empty(),
        ));
        assert(s =~= decode_utf8(b));
    }
}

/// Decoding again a text that decoding gave, and that holds no encoded word,
/// gives the same text.
pub proof fn lemma_decode_idempotent(s: Seq<u8>, strategy: RecoverStrategy, again: RecoverStrategy)
    requires
        decoded(s, strategy) is Ok,
        holds_no_word(encode_utf8(decoded(s, strategy)->Ok_0)),
    ensures
        decoded(encode_utf8(decoded(s, strategy)->Ok_0), again) == decoded(s, strategy),
{
    lemma_clear_text_unchanged(decoded(s, strategy)->Ok_0, again);
}

/// Two encoded words with only linear whitespace between them (spaces,
/// tabs, CR and LF, in any number, or none) decode to their two texts joined
/// with nothing between them.
#[verifier::rlimit(40)]
pub proof fn lemma_adjacent_words_concatenate(
    c1: Seq<u8>,
    e1: Seq<u8>,
    t1: Seq<u8>,
    ws: Seq<u8>,
    c2: Seq<u8>,
    e2: Seq<u8>,
    t2: Seq<u8>,
    strategy: RecoverStrategy,
)
    requires
        is_word(c1, e1, t1),
        is_word(c2, e2, t2),
        all_in_class(ws, ByteClass::Space),
        decoded(delimited(c1, e1, t1), strategy) is Ok,
        decoded(delimited(c2, e2, t2), strategy) is Ok,
    ensures
        decoded(delimited(c1, e1, t1) + ws + delimited(c2, e2, t2), strategy) == Ok::<
            Seq<char>,
            Failure,
        >(
            decoded(delimited(c1, e1, t1), strategy)->Ok_0 + decoded(
                delimited(c2, e2, t2),
                strategy,
            )->Ok_0,
        ),
{
    let w1 = delimited(c1, e1, t1);
    let w2 = delimited(c2, e2, t2);
    let s = w1 + ws + w2;
    lemma_lex_two_words(c1, e1, t1, ws, c2, e2, t2, strategy);
    lemma_lex_single_word(c1, e1, t1, strategy);
    lemma_lex_single_word(c2, e2, t2, strategy);
    lemma_decoded_via_tokens(s, strategy);
    lemma_decoded_via_tokens(w1, strategy);
    lemma_decoded_via_tokens(w2, strategy);
    lemma_two_tokens(word_token(w1, 0, strategy), word_token(w2, 0, strategy), strategy);
}

/// Clear text after an encoded word, whitespace at its start included, is
/// kept as it stands where no encoded word starts in it.
#[verifier::rlimit(40)]
pub proof fn lemma_clear_text_after_word_kept(
    charset: Seq<u8>,
    encoding: Seq<u8>,
    text: Seq<u8>,
    rest: Seq<char>,
    strategy: RecoverStrategy,
)
    requires
        is_word(charset, encoding, text),
        decoded(delimited(charset, encoding, text), strategy) is Ok,
        holds_no_word(encode_utf8(rest)),
    ensures
        decoded(delimited(charset, encoding, text) + encode_utf8(rest), strategy) == Ok::<
            Seq<char>,
            Failure,
        >(decoded(delimited(charset, encoding, text), strategy)->Ok_0 + rest),
{
    let w = delimited(charset, encoding, text);
    let b = encode_utf8(rest);
    let s = w + b;
    lemma_lex_word_then_clear_text(charset, encoding, text, b, strategy);
    lemma_lex_single_word(charset, encoding, text, strategy);
    lemma_decoded_via_tokens(w, strategy);
    encode_utf8_decode_utf8(rest);
    encode_utf8_valid_utf8(rest);
    if b.len() > 0 {
        lemma_decoded_via_tokens(s, strategy);
        lemma_clear_token(b, strategy);
        lemma_two_tokens(word_token(w, 0, strategy), TokenView::ClearText(b), strategy);
    } else {
        assert(rest =~= decode_utf8(b));
        assert(s =~= w);
        assert(decoded(w, strategy)->Ok_0 + rest =~= decoded(w, strategy)->Ok_0);
    }
}

/// An encoded word alone, within the length limit or decoded whatever its
/// length, yields what its encoding and character set make of its text.
pub proof fn lemma_single_word(
    charset: Seq<u8>,
    encoding: Seq<u8>,
    text: Seq<u8>,
    strategy: RecoverStrategy,
)
    requires
        is_word(charset, encoding, text),
        word_len(charset, encoding, text) <= MAX_LENGTH || strategy == RecoverStrategy::Decode,
    ensures
        decoded(delimited(charset, encoding, text), strategy) == word_decoded(
            charset,
            encoding,
            text,
        ),
{
    lemma_lex_single_word(charset, encoding, text, strategy);
    let x = TokenView::EncodedWord(charset, encoding, text);
    lemma_one_token(x);
    match parser::unit_of(x) {
        Ok(u) => {
            lemma_one_unit(u);
        },
        Err(_) => {},
    }
}

/// An encoded word longer than the limit: [`RecoverStrategy::Abort`] fails
/// and names it, [`RecoverStrategy::Skip`] keeps it as it stands, and
/// [`RecoverStrategy::Decode`] decodes it.
pub proof fn lemma_too_long_word(charset: Seq<u8>, encoding: Seq<u8>, text: Seq<u8>)
    requires
        is_word(charset, encoding, text),
        word_len(charset, encoding, text) > MAX_LENGTH,
    ensures
        decoded(delimited(charset, encoding, text), RecoverStrategy::Abort) == Err::<
            Seq<char>,
            Failure,
        >(Failure::Lexer(seq![utf8_lossy_of(delimited(charset, encoding, text))])),
        valid_utf8(delimited(charset, encoding, text)) ==> decoded(
            delimited(charset, encoding, text),
            RecoverStrategy::Skip,
        ) == Ok::<Seq<char>, Failure>(decode_utf8(delimited(charset, encoding, text))),
        decoded(delimited(charset, encoding, text), RecoverStrategy::Decode) == word_decoded(
            charset,
            encoding,
            text,
        ),
{
    let w = delimited(charset, encoding, text);
    lemma_lex_single_word(charset, encoding, text, RecoverStrategy::Abort);
    lemma_one_token(TokenView::EncodedWord(charset, encoding, text));
    lemma_lex_single_word(charset, encoding, text, RecoverStrategy::Skip);
    lemma_one_token(TokenView::ClearText(w));
    lemma_one_unit(UnitView::ClearText(w));
    lemma_single_word(charset, encoding, text, RecoverStrategy::Decode);
}

/// The result of a decoding in the terms of [`decoded`].
pub open spec fn outcome(r: Result<String, Error>) -> Result<Seq<char>, Failure> {
    match r {
        Ok(text) => Ok(text@),
        Err(Error::Lexer(lexer::Error::ParseEncodedWordTooLongError(words))) => Err(
            Failure::Lexer(words@),
        ),
        Err(Error::Parser(err)) => Err(Failure::Parser(err)),
        Err(Error::Evaluator(err)) => Err(Failure::Evaluator(err.kind())),
    }
}

/// Determines which strategy should be used if an encoded word is longer
/// than the RFC allows.
#[derive(Debug, Clone, Copy, PartialEq, Eq, Hash, Structural)]
pub enum RecoverStrategy {
    /// Decode the encoded word although it is too long.
    Decode,
    /// Keep the encoded word as clear text, exactly as it stands in the input.
    Skip,
    /// Fail, naming every encoded word that is too long.
    Abort,
}

/// The decoder builder: it holds the strategy for encoded words that are too
/// long.
#[derive(Debug, Clone, PartialEq, Eq, Structural)]
pub struct Decoder {
    /// Used when an encoded word is longer than 75 bytes, delimiters included.
    pub too_long_encoded_word: RecoverStrategy,
}

impl Decoder {
    /// Equals [`Decoder::default`]: the strategy is [`RecoverStrategy::Abort`].
    pub fn new() -> (r: Self)
        ensures
            r.too_long_encoded_word == RecoverStrategy::Abort,
    {
        Decoder { too_long_encoded_word: RecoverStrategy::Abort }
    }

    /// Sets the strategy for encoded words that are too long.
    pub fn too_long_encoded_word_strategy(self, strategy: RecoverStrategy) -> (r: Self)
        ensures
            r.too_long_encoded_word == strategy,
    {
        let mut d = self;
        d.too_long_encoded_word = strategy;
        d
    }

    /// Decodes the given RFC 2047 MIME message header value.
    pub fn decode(self, encoded_str: &[u8]) -> (r: Result<String, Error>)
        ensures
            outcome(r) == decoded(encoded_str@, self.too_long_encoded_word),
    {
        let text_tokens = match lexer::run(encoded_str, self) {
            Ok(tokens) => tokens,
            Err(err) => return Err(Error::Lexer(err)),
        };
        let parsed_text = match parser::run(text_tokens) {
            Ok(units) => units,
            Err(err) => return Err(Error::Parser(err)),
        };
        match evaluator::run(parsed_text) {
            Ok(text) => Ok(text),
            Err(err) => Err(Error::Evaluator(err)),
        }
    }
}

impl Default for Decoder {
    fn default() -> (r: Self)
        ensures
            r.too_long_encoded_word == RecoverStrategy::Abort,
    {
        Decoder::new()
    }
}

} // verus!
