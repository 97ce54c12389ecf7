use charset::Charset;
use rfc2047_decoder::parser::{self, Encoding, ParsedEncodedWord};
use rfc2047_decoder::{lexer, Decoder, ParserError};

#[test]
fn test_parse1() {
    let message = "=?US-ASCII?Q?Keith_Moore?=".as_bytes();
    let tokens = lexer::run(&message, Decoder::new()).unwrap();
    let parsed = parser::run(tokens).unwrap();

    let expected = vec![ParsedEncodedWord::EncodedWord {
        charset: Charset::for_label("US-ASCII".as_bytes()),
        encoding: Encoding::Q,
        encoded_text: "Keith_Moore".as_bytes().to_vec(),
    }];

    assert_eq!(parsed, expected);
}

#[test]
fn test_parse2() {
    let message = "=?ISO-8859-1?Q?Keld_J=F8rn_Simonsen?=".as_bytes();
    let tokens = lexer::run(&message, Decoder::new()).unwrap();
    let parsed = parser::run(tokens).unwrap();

    let expected = vec![ParsedEncodedWord::EncodedWord {
        charset: Charset::for_label("ISO-8859-1".as_bytes()),
        encoding: Encoding::Q,
        encoded_text: "Keld_J=F8rn_Simonsen".as_bytes().to_vec(),
    }];

    assert_eq!(parsed, expected);
}

#[test]
fn test_parse3() {
    let message = "=?ISO-8859-1?Q?Andr=E9?=".as_bytes();
    let tokens = lexer::run(&message, Decoder::new()).unwrap();
    let parsed = parser::run(tokens).unwrap();

    let expected = vec![ParsedEncodedWord::EncodedWord {
        charset: Charset::for_label("ISO-8859-1".as_bytes()),
        encoding: Encoding::Q,
        encoded_text: "Andr=E9".as_bytes().to_vec(),
    }];

    assert_eq!(parsed, expected);
}

#[test]
fn test_parse4() {
    let message = "=?ISO-8859-1?B?SWYgeW91IGNhbiByZWFkIHRoaXMgeW8=?=".as_bytes();
    let tokens = lexer::run(&message, Decoder::new()).unwrap();
    let parsed = parser::run(tokens).unwrap();

    let expected = vec![ParsedEncodedWord::EncodedWord {
        charset: Charset::for_label("ISO-8859-1".as_bytes()),
        encoding: Encoding::B,
        encoded_text: "SWYgeW91IGNhbiByZWFkIHRoaXMgeW8=".as_bytes().to_vec(),
    }];

    assert_eq!(parsed, expected);
}

#[test]
fn encoding_tags_in_either_case() {
    assert_eq!(Encoding::from_tag(b"q"), Ok(Encoding::Q));
    assert_eq!(Encoding::from_tag(b"Q"), Ok(Encoding::Q));
    assert_eq!(Encoding::from_tag(b"b"), Ok(Encoding::B));
    assert_eq!(Encoding::from_tag(b"B"), Ok(Encoding::B));
}

#[test]
fn encoding_tag_errors() {
    assert_eq!(Encoding::from_tag(b""), Err(ParserError::ParseEncodingEmptyError));
    assert_eq!(Encoding::from_tag(b"QQ"), Err(ParserError::ParseEncodingTooBigError));
    assert_eq!(Encoding::from_tag(b"x"), Err(ParserError::ParseEncodingError('x')));
}

#[test]
fn unknown_charset_label_resolves_to_none() {
    let tokens = lexer::run("=?x-no-such-set?Q?a?=".as_bytes(), Decoder::new()).unwrap();
    let parsed = parser::run(tokens).unwrap();
    assert_eq!(
        parsed,
        vec![ParsedEncodedWord::EncodedWord {
            charset: None,
            encoding: Encoding::Q,
            encoded_text: b"a".to_vec(),
        }]
    );
}

#[test]
fn clear_text_passes_through_parser() {
    let tokens = lexer::run("plain".as_bytes(), Decoder::new()).unwrap();
    let parsed = parser::run(tokens).unwrap();
    assert_eq!(parsed, vec![ParsedEncodedWord::ClearText(b"plain".to_vec())]);
}
