use rfc2047_decoder::{decode, Decoder, Error, LexerError, RecoverStrategy, TooLongEncodedWords};

#[test]
fn decode_encoded_word_single_char() {
    assert_eq!(decode("=?ISO-8859-1?Q?a?=".as_bytes()).unwrap(), "a");
}

#[test]
fn decode_encoded_word_separated_by_whitespace() {
    assert_eq!(decode("=?ISO-8859-1?Q?a?= b".as_bytes()).unwrap(), "a b");
}

#[test]
fn decode_two_encoded_chars() {
    assert_eq!(
        decode("=?ISO-8859-1?Q?a?= =?ISO-8859-1?Q?b?=".as_bytes()).unwrap(),
        "ab"
    );
}

#[test]
fn whitespace_between_two_encoded_words_should_be_ignored() {
    assert_eq!(
        decode("=?ISO-8859-1?Q?a?=  =?ISO-8859-1?Q?b?=".as_bytes()).unwrap(),
        "ab"
    );
}

#[test]
fn whitespace_chars_between_two_encoded_words_should_be_ignored() {
    assert_eq!(
        decode(
            "=?ISO-8859-1?Q?a?=               
                     =?ISO-8859-1?Q?b?="
                .as_bytes()
        )
        .unwrap(),
        "ab"
    );
}

#[test]
fn whitespace_encoded_in_encoded_word() {
    assert_eq!(decode("=?ISO-8859-1?Q?a_b?=".as_bytes()).unwrap(), "a b");
}

#[test]
fn ignore_whitespace_between_two_encoded_words_but_not_the_encoded_whitespace() {
    assert_eq!(
        decode("=?ISO-8859-1?Q?a?= =?ISO-8859-2?Q?_b?=".as_bytes()).unwrap(),
        "a b"
    );
}

#[test]
fn clear_empty() {
    assert_eq!(decode("".as_bytes()).unwrap(), "");
}

#[test]
fn clear_with_spaces() {
    assert_eq!(decode("str with spaces".as_bytes()).unwrap(), "str with spaces");
}

#[test]
fn utf8_qs_empty() {
    assert_eq!(decode("".as_bytes()).unwrap(), "");
}

#[test]
fn utf8_qs_with_str() {
    assert_eq!(decode("=?UTF-8?Q?str?=".as_bytes()).unwrap(), "str");
}

#[test]
fn utf8_qs_with_spaces() {
    assert_eq!(
        decode("=?utf8?q?str_with_spaces?=".as_bytes()).unwrap(),
        "str with spaces"
    );
}

#[test]
fn utf8_qs_with_spec_chars() {
    assert_eq!(
        decode("=?utf8?q?str_with_special_=C3=A7h=C3=A0r=C3=9F?=".as_bytes()).unwrap(),
        "str with special çhàrß"
    );
}

#[test]
fn utf8_qs_double() {
    assert_eq!(
        decode("=?UTF-8?Q?str?=\r\n =?UTF-8?Q?str?=".as_bytes()).unwrap(),
        "strstr"
    );
    assert_eq!(
        decode("=?UTF-8?Q?str?=\n =?UTF-8?Q?str?=".as_bytes()).unwrap(),
        "strstr"
    );
    assert_eq!(decode("=?UTF-8?Q?str?= =?UTF-8?Q?str?=".as_bytes()).unwrap(), "strstr");
    assert_eq!(decode("=?UTF-8?Q?str?==?UTF-8?Q?str?=".as_bytes()).unwrap(), "strstr");
}

#[test]
fn utf8_b64_empty() {
    assert_eq!(decode("=?UTF-8?B??=".as_bytes()).unwrap(), "");
}

#[test]
fn utf8_b64_with_str() {
    assert_eq!(decode("=?UTF-8?B?c3Ry?=".as_bytes()).unwrap(), "str");
}

#[test]
fn utf8_b64_with_spaces() {
    assert_eq!(
        decode("=?utf8?b?c3RyIHdpdGggc3BhY2Vz?=".as_bytes()).unwrap(),
        "str with spaces"
    );
}

#[test]
fn utf8_b64_with_spec_chars() {
    assert_eq!(
        decode("=?utf8?b?c3RyIHdpdGggc3BlY2lhbCDDp2jDoHLDnw==?=".as_bytes()).unwrap(),
        "str with special çhàrß"
    );
}

#[test]
fn utf8_b64_trailing_bit() {
    assert_eq!(
        decode("=?utf-8?B?UG9ydGFsZSBIYWNraW5nVGVhbW==?=".as_bytes()).unwrap(),
        "Portale HackingTeam",
    );
}

const LOREM: &str = "=?utf-8?B?TG9yZW0gaXBzdW0gZG9sb3Igc2l0IGFtZXQsIGNvbnNlY3RldHVyIGFkaXBpc2NpbmcgZWxpdC4gVXQgaW50ZXJkdW0gcXVhbSBldSBmYWNpbGlzaXMgb3JuYXJlLg==?=";

#[test]
fn builder_skip_keeps_decoding_short_words() {
    let decoder = Decoder::new().too_long_encoded_word_strategy(RecoverStrategy::Skip);
    assert_eq!(decoder.decode("=?UTF-8?B?c3Ry?=".as_bytes()).unwrap(), "str");
}

#[test]
fn too_long_word_skipped() {
    let decoder = Decoder::new().too_long_encoded_word_strategy(RecoverStrategy::Skip);
    assert_eq!(decoder.decode(LOREM.as_bytes()).unwrap(), LOREM);
}

#[test]
fn too_long_word_decoded() {
    let decoder = Decoder::new().too_long_encoded_word_strategy(RecoverStrategy::Decode);
    assert_eq!(
        decoder.decode(LOREM.as_bytes()).unwrap(),
        "Lorem ipsum dolor sit amet, consectetur adipiscing elit. Ut interdum quam eu facilisis ornare."
    );
}

#[test]
fn too_long_word_aborts_by_default() {
    assert_eq!(
        Decoder::new().decode(LOREM.as_bytes()),
        Err(Error::Lexer(LexerError::ParseEncodedWordTooLongError(
            TooLongEncodedWords(vec![LOREM.to_string()])
        )))
    );
}
