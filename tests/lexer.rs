use rfc2047_decoder::lexer::encoded_word::EncodedWord;
use rfc2047_decoder::lexer::{run, tokenize, Error, Token, TooLongEncodedWords};
use rfc2047_decoder::Decoder;

#[test]
fn encoded_word() {
    let message = "=?ISO-8859-1?Q?Yeet?=".as_bytes();
    let parsed = tokenize(message, &Decoder::new());
    assert_eq!(parsed, vec![Token::EncodedWord(EncodedWord { charset: "ISO-8859-1".as_bytes().to_vec(), encoding: "Q".as_bytes().to_vec(), encoded_text: "Yeet".as_bytes().to_vec() })]);
}

#[test]
fn test_encoded_word() {
    let message = "=?ISO-8859-1?Q?Yeet?=".as_bytes();
    let parsed = tokenize(message, &Decoder::new());
    assert_eq!(parsed, vec![Token::EncodedWord(EncodedWord { charset: "ISO-8859-1".as_bytes().to_vec(), encoding: "Q".as_bytes().to_vec(), encoded_text: "Yeet".as_bytes().to_vec() })]);
}

#[test]
fn clear_text() {
    let message = "I use Arch by the way".as_bytes();
    let parsed = tokenize(message, &Decoder::new());
    assert_eq!(parsed, vec![Token::ClearText("I use Arch by the way".as_bytes().to_vec())]);
}

#[test]
fn test_clear_text() {
    let message = "I use Arch by the way".as_bytes();
    let parsed = tokenize(message, &Decoder::new());
    assert_eq!(parsed, vec![Token::ClearText("I use Arch by the way".as_bytes().to_vec())]);
}

#[test]
fn encoded_from_1() {
    let message = "=?ISO-8859-1?Q?a?=".as_bytes();
    let parsed = tokenize(message, &Decoder::new());
    assert_eq!(parsed, vec![Token::EncodedWord(EncodedWord { charset: "ISO-8859-1".as_bytes().to_vec(), encoding: "Q".as_bytes().to_vec(), encoded_text: "a".as_bytes().to_vec() })]);
}

#[test]
fn test_encoded_from_1() {
    let message = "=?ISO-8859-1?Q?a?=".as_bytes();
    let parsed = tokenize(message, &Decoder::new());
    assert_eq!(parsed, vec![Token::EncodedWord(EncodedWord { charset: "ISO-8859-1".as_bytes().to_vec(), encoding: "Q".as_bytes().to_vec(), encoded_text: "a".as_bytes().to_vec() })]);
}

#[test]
fn encoded_from_2() {
    let message = "=?ISO-8859-1?Q?a?= b".as_bytes();
    let parsed = tokenize(message, &Decoder::new());
    assert_eq!(parsed, vec![Token::EncodedWord(EncodedWord { charset: "ISO-8859-1".as_bytes().to_vec(), encoding: "Q".as_bytes().to_vec(), encoded_text: "a".as_bytes().to_vec() }), Token::ClearText(" b".as_bytes().to_vec())]);
}

#[test]
fn test_encoded_from_2() {
    let message = "=?ISO-8859-1?Q?a?= b".as_bytes();
    let parsed = tokenize(message, &Decoder::new());
    assert_eq!(parsed, vec![Token::EncodedWord(EncodedWord { charset: "ISO-8859-1".as_bytes().to_vec(), encoding: "Q".as_bytes().to_vec(), encoded_text: "a".as_bytes().to_vec() }), Token::ClearText(" b".as_bytes().to_vec())]);
}

#[test]
fn encoded_from_3() {
    let message = "=?ISO-8859-1?Q?a?= =?ISO-8859-1?Q?b?=".as_bytes();
    let parsed = tokenize(message, &Decoder::new());
    assert_eq!(parsed, vec![Token::EncodedWord(EncodedWord { charset: "ISO-8859-1".as_bytes().to_vec(), encoding: "Q".as_bytes().to_vec(), encoded_text: "a".as_bytes().to_vec() }), Token::EncodedWord(EncodedWord { charset: "ISO-8859-1".as_bytes().to_vec(), encoding: "Q".as_bytes().to_vec(), encoded_text: "b".as_bytes().to_vec() })]);
}

#[test]
fn test_encoded_from_3() {
    let message = "=?ISO-8859-1?Q?a?= =?ISO-8859-1?Q?b?=".as_bytes();
    let parsed = tokenize(message, &Decoder::new());
    assert_eq!(parsed, vec![Token::EncodedWord(EncodedWord { charset: "ISO-8859-1".as_bytes().to_vec(), encoding: "Q".as_bytes().to_vec(), encoded_text: "a".as_bytes().to_vec() }), Token::EncodedWord(EncodedWord { charset: "ISO-8859-1".as_bytes().to_vec(), encoding: "Q".as_bytes().to_vec(), encoded_text: "b".as_bytes().to_vec() })]);
}

#[test]
fn multiple_encoded_words() {
    let message = "=?ISO-8859-1?Q?a?= =?ISO-8859-1?Q?b?= =?ISO-8859-1?Q?c?=".as_bytes();
    let parsed = tokenize(message, &Decoder::new());
    assert_eq!(parsed, vec![Token::EncodedWord(EncodedWord { charset: "ISO-8859-1".as_bytes().to_vec(), encoding: "Q".as_bytes().to_vec(), encoded_text: "a".as_bytes().to_vec() }), Token::EncodedWord(EncodedWord { charset: "ISO-8859-1".as_bytes().to_vec(), encoding: "Q".as_bytes().to_vec(), encoded_text: "b".as_bytes().to_vec() }), Token::EncodedWord(EncodedWord { charset: "ISO-8859-1".as_bytes().to_vec(), encoding: "Q".as_bytes().to_vec(), encoded_text: "c".as_bytes().to_vec() })]);
}

#[test]
fn test_multiple_encoded_words() {
    let message = "=?ISO-8859-1?Q?a?= =?ISO-8859-1?Q?b?= =?ISO-8859-1?Q?c?=".as_bytes();
    let parsed = tokenize(message, &Decoder::new());
    assert_eq!(parsed, vec![Token::EncodedWord(EncodedWord { charset: "ISO-8859-1".as_bytes().to_vec(), encoding: "Q".as_bytes().to_vec(), encoded_text: "a".as_bytes().to_vec() }), Token::EncodedWord(EncodedWord { charset: "ISO-8859-1".as_bytes().to_vec(), encoding: "Q".as_bytes().to_vec(), encoded_text: "b".as_bytes().to_vec() }), Token::EncodedWord(EncodedWord { charset: "ISO-8859-1".as_bytes().to_vec(), encoding: "Q".as_bytes().to_vec(), encoded_text: "c".as_bytes().to_vec() })]);
}

#[test]
fn ignore_mutiple_spaces_between_encoded_words() {
    let message = "=?ISO-8859-1?Q?a?=                               =?ISO-8859-1?Q?b?=".as_bytes();
    let parsed = tokenize(message, &Decoder::new());
    assert_eq!(parsed, vec![Token::EncodedWord(EncodedWord { charset: "ISO-8859-1".as_bytes().to_vec(), encoding: "Q".as_bytes().to_vec(), encoded_text: "a".as_bytes().to_vec() }), Token::EncodedWord(EncodedWord { charset: "ISO-8859-1".as_bytes().to_vec(), encoding: "Q".as_bytes().to_vec(), encoded_text: "b".as_bytes().to_vec() })]);
}

#[test]
fn test_ignore_mutiple_spaces_between_encoded_words() {
    let message = "=?ISO-8859-1?Q?a?=                               =?ISO-8859-1?Q?b?=".as_bytes();
    let parsed = tokenize(message, &Decoder::new());
    assert_eq!(parsed, vec![Token::EncodedWord(EncodedWord { charset: "ISO-8859-1".as_bytes().to_vec(), encoding: "Q".as_bytes().to_vec(), encoded_text: "a".as_bytes().to_vec() }), Token::EncodedWord(EncodedWord { charset: "ISO-8859-1".as_bytes().to_vec(), encoding: "Q".as_bytes().to_vec(), encoded_text: "b".as_bytes().to_vec() })]);
}

#[test]
fn err_on_too_long_encoded_word() {
    let message = "=?ISO-8859-1?Q?aaaaaaaaaaaaaaaaaaaaaaaaaaaaaaaaaaaaaaaaaaaaaaaaaaaaaaaaaaaa?=".as_bytes();
    let parsed = run(message, Decoder::new());
    assert_eq!(
        parsed,
        Err(Error::ParseEncodedWordTooLongError(TooLongEncodedWords::new(vec![EncodedWord {
            charset: "ISO-8859-1".as_bytes().to_vec(),
            encoding: "Q".as_bytes().to_vec(),
            encoded_text: "aaaaaaaaaaaaaaaaaaaaaaaaaaaaaaaaaaaaaaaaaaaaaaaaaaaaaaaaaaaa".as_bytes().to_vec()
        }
        .to_string()])))
    );
}

#[test]
fn encoded_word_has_especials() {
    let message = "=?ISO-8859-1(?Q?a?=".as_bytes();
    let parsed = tokenize(message, &Decoder::new());
    assert_eq!(parsed, vec![Token::ClearText(message.to_vec())]);
}

#[test]
fn test_encoded_word_has_especials() {
    let message = "=?ISO-8859-1(?Q?a?=".as_bytes();
    let parsed = tokenize(message, &Decoder::new());
    assert_eq!(parsed, vec![Token::ClearText(message.to_vec())]);
}
