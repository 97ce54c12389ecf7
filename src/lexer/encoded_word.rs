use vstd::prelude::*;

use crate::bindings::{lossy_utf8, utf8_lossy_of};

verus! {

/// `=`: the first byte of the prefix `=?` and the last byte of the suffix `?=`.
pub const EQUALS_SIGN: u8 = 0x3d;

/// `?`: separates the fields of an encoded word.
pub const QUESTION_MARK: u8 = 0x3f;

/// The largest length of an encoded word, delimiters included.
pub const MAX_LENGTH: usize = 75;

/// The number of delimiter bytes in `=?charset?encoding?encoded-text?=`.
pub const AMOUNT_DELIMITERS: usize = 6;

/// The length of an encoded word with these fields, delimiters included.
pub open spec fn word_len(charset: Seq<u8>, encoding: Seq<u8>, text: Seq<u8>) -> nat {
    charset.len() + encoding.len() + text.len() + 6
}

/// `=?charset?encoding?encoded-text?=`: an encoded word as it stands in a
/// header value.
pub open spec fn delimited(charset: Seq<u8>, encoding: Seq<u8>, text: Seq<u8>) -> Seq<u8> {
    seq![EQUALS_SIGN, QUESTION_MARK] + charset + seq![QUESTION_MARK] + encoding + seq![
        QUESTION_MARK,
    ] + text + seq![QUESTION_MARK, EQUALS_SIGN]
}

/// The three fields of an encoded word, one after the other.
pub open spec fn undelimited(charset: Seq<u8>, encoding: Seq<u8>, text: Seq<u8>) -> Seq<u8> {
    charset + encoding + text
}

/// The three raw fields of an encoded word.
#[derive(Debug, Clone, PartialEq, Eq, Hash)]
pub struct EncodedWord {
    pub charset: Vec<u8>,
    pub encoding: Vec<u8>,
    pub encoded_text: Vec<u8>,
}

fn push_all(v: &mut Vec<u8>, s: &[u8])
    ensures
        final(v)@ == old(v)@ + s@,
{
    let mut i: usize = 0;
    while i < s.len()
        invariant
            i <= s@.len(),
            v@ == old(v)@ + s@.subrange(0, i as int),
        decreases s@.len() - i,
    {
        v.push(s[i]);
        i = i + 1;
        assert(s@.subrange(0, i as int) =~= s@.subrange(0, i - 1) + seq![s@[i - 1]]);
    }
    assert(s@.subrange(0, i as int) =~= s@);
}

impl EncodedWord {
    /// The length of the encoded word, delimiters included.
    pub open spec fn spec_len(&self) -> nat {
        word_len(self.charset@, self.encoding@, self.encoded_text@)
    }

    pub fn new(charset: Vec<u8>, encoding: Vec<u8>, encoded_text: Vec<u8>) -> (r: Self)
        ensures
            r.charset@ == charset@,
            r.encoding@ == encoding@,
            r.encoded_text@ == encoded_text@,
    {
        EncodedWord { charset, encoding, encoded_text }
    }

    /// Builds the word from the fields in the shape `((charset, encoding), encoded_text)`.
    pub fn from_parser(fields: ((Vec<u8>, Vec<u8>), Vec<u8>)) -> (r: Self)
        ensures
            r.charset@ == fields.0.0@,
            r.encoding@ == fields.0.1@,
            r.encoded_text@ == fields.1@,
    {
        let ((charset, encoding), encoded_text) = fields;
        Self::new(charset, encoding, encoded_text)
    }

    /// Returns the number of bytes of the encoded word, delimiters included.
    pub fn len(&self) -> (r: usize)
        requires
            self.spec_len() <= usize::MAX,
        ensures
            r == self.spec_len(),
            r == delimited(self.charset@, self.encoding@, self.encoded_text@).len(),
    {
        self.charset.len() + self.encoding.len() + self.encoded_text.len() + AMOUNT_DELIMITERS
    }

    /// The bytes of the word, with or without its delimiters.
    pub fn get_bytes(&self, with_delimiters: bool) -> (r: Vec<u8>)
        ensures
            with_delimiters ==> r@ == delimited(self.charset@, self.encoding@, self.encoded_text@),
            !with_delimiters ==> r@ == undelimited(
                self.charset@,
                self.encoding@,
                self.encoded_text@,
            ),
    {
        let mut bytes: Vec<u8> = Vec::new();
        if with_delimiters {
            bytes.push(EQUALS_SIGN);
            bytes.push(QUESTION_MARK);
            push_all(&mut bytes, self.charset.as_slice());
            bytes.push(QUESTION_MARK);
            push_all(&mut bytes, self.encoding.as_slice());
            bytes.push(QUESTION_MARK);
            push_all(&mut bytes, self.encoded_text.as_slice());
            bytes.push(QUESTION_MARK);
            bytes.push(EQUALS_SIGN);
            assert(bytes@ =~= delimited(self.charset@, self.encoding@, self.encoded_text@));
        } else {
            push_all(&mut bytes, self.charset.as_slice());
            push_all(&mut bytes, self.encoding.as_slice());
            push_all(&mut bytes, self.encoded_text.as_slice());
            assert(bytes@ =~= undelimited(self.charset@, self.encoding@, self.encoded_text@));
        }
        bytes
    }

    /// The word as text, delimiters included; bytes that are not UTF-8
    /// become U+FFFD.
    pub fn to_string(&self) -> (r: String)
        ensures
            r@ == utf8_lossy_of(delimited(self.charset@, self.encoding@, self.encoded_text@)),
    {
        let bytes = self.get_bytes(true);
        lossy_utf8(bytes.as_slice())
    }
}

} // verus!
