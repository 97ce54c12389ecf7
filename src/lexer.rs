//! Splits a header value into clear text and encoded words.
//!
//! An encoded word is `=?charset?encoding?encoded-text?=`, where charset and
//! encoding are one or more token bytes and the encoded text is zero or more
//! bytes other than `?` and space. Every other byte is clear text. Linear
//! whitespace that stands between two encoded words is dropped.
use vstd::prelude::*;
use vstd::slice::{slice_subrange, slice_to_vec};

pub mod encoded_word;

use crate::bindings::{append_str, utf8_lossy_of};
use crate::decoder::{Decoder, RecoverStrategy};
use self::encoded_word::{
    delimited, word_len, EncodedWord, EQUALS_SIGN, MAX_LENGTH, QUESTION_MARK,
};

verus! {

/// The classes of bytes that the grammar of an encoded word scans runs of.
pub enum ByteClass {
    /// May stand in the charset or the encoding.
    Token,
    /// May stand in the encoded text.
    Text,
    /// Linear whitespace, dropped between two encoded words.
    Space,
}

/// The especials of RFC 2047: `()<>@,;:/[]?.=`.
pub open spec fn is_especial(c: u8) -> bool {
    c == 0x28 || c == 0x29 || c == 0x3c || c == 0x3e || c == 0x40 || c == 0x2c || c == 0x3b
        || c == 0x3a || c == 0x2f || c == 0x5b || c == 0x5d || c == 0x3f || c == 0x2e || c
        == 0x3d
}

pub open spec fn in_class(c: u8, k: ByteClass) -> bool {
    match k {
        ByteClass::Token => c != 0x20 && 0x20 <= c && c != 0x7f && !is_especial(c),
        ByteClass::Text => c != QUESTION_MARK && c != 0x20,
        ByteClass::Space => c == 0x20 || c == 0x09 || c == 0x0d || c == 0x0a,
    }
}

/// The end of the run of bytes of class `k` that starts at `i`.
pub open spec fn run_end(s: Seq<u8>, i: int, k: ByteClass) -> int
    decreases s.len() - i,
{
    if 0 <= i < s.len() && in_class(s[i], k) {
        run_end(s, i + 1, k)
    } else {
        i
    }
}

/// Where the charset of a word that starts at `p` ends.
pub open spec fn charset_end(s: Seq<u8>, p: int) -> int {
    run_end(s, p + 2, ByteClass::Token)
}

/// Where the encoding of a word that starts at `p` ends.
pub open spec fn encoding_end(s: Seq<u8>, p: int) -> int {
    run_end(s, charset_end(s, p) + 1, ByteClass::Token)
}

/// Where the encoded text of a word that starts at `p` ends.
pub open spec fn text_end(s: Seq<u8>, p: int) -> int {
    run_end(s, encoding_end(s, p) + 1, ByteClass::Text)
}

/// An encoded word starts at `p`.
pub open spec fn word_at(s: Seq<u8>, p: int) -> bool {
    let c = charset_end(s, p);
    let e = encoding_end(s, p);
    let t = text_end(s, p);
    &&& 0 <= p
    &&& p + 2 <= s.len()
    &&& s[p] == EQUALS_SIGN
    &&& s[p + 1] == QUESTION_MARK
    &&& p + 2 < c < s.len()
    &&& s[c] == QUESTION_MARK
    &&& c + 1 < e < s.len()
    &&& s[e] == QUESTION_MARK
    &&& t + 2 <= s.len()
    &&& s[t] == QUESTION_MARK
    &&& s[t + 1] == EQUALS_SIGN
}

/// Where the word that starts at `p` ends.
pub open spec fn word_end(s: Seq<u8>, p: int) -> int {
    text_end(s, p) + 2
}

pub open spec fn word_charset(s: Seq<u8>, p: int) -> Seq<u8> {
    s.subrange(p + 2, charset_end(s, p))
}

pub open spec fn word_encoding(s: Seq<u8>, p: int) -> Seq<u8> {
    s.subrange(charset_end(s, p) + 1, encoding_end(s, p))
}

pub open spec fn word_text(s: Seq<u8>, p: int) -> Seq<u8> {
    s.subrange(encoding_end(s, p) + 1, text_end(s, p))
}

/// The first position from `q` on where an encoded word starts, or the end
/// of `s`.
pub open spec fn next_word(s: Seq<u8>, q: int) -> int
    decreases s.len() - q,
{
    if q >= s.len() {
        s.len() as int
    } else if word_at(s, q) {
        q
    } else {
        next_word(s, q + 1)
    }
}

/// What a token holds.
pub enum TokenView {
    ClearText(Seq<u8>),
    EncodedWord(Seq<u8>, Seq<u8>, Seq<u8>),
}

/// The token for the word that starts at `p`: under [`RecoverStrategy::Skip`]
/// a word that is too long is clear text, exactly as it stands.
pub open spec fn word_token(s: Seq<u8>, p: int, strategy: RecoverStrategy) -> TokenView {
    let (c, e, t) = (word_charset(s, p), word_encoding(s, p), word_text(s, p));
    if word_len(c, e, t) > MAX_LENGTH && strategy == RecoverStrategy::Skip {
        TokenView::ClearText(delimited(c, e, t))
    } else {
        TokenView::EncodedWord(c, e, t)
    }
}

/// Where the token after the word that starts at `p` begins: linear
/// whitespace up to a following word is dropped.
pub open spec fn after_word(s: Seq<u8>, p: int) -> int {
    let w = run_end(s, word_end(s, p), ByteClass::Space);
    if word_at(s, w) {
        w
    } else {
        word_end(s, p)
    }
}

pub proof fn lemma_run_end_bounds(s: Seq<u8>, i: int, k: ByteClass)
    requires
        0 <= i,
    ensures
        i <= run_end(s, i, k),
        i <= s.len() ==> run_end(s, i, k) <= s.len(),
        forall|j: int| i <= j < run_end(s, i, k) ==> in_class(#[trigger] s[j], k),
        run_end(s, i, k) < s.len() ==> !in_class(s[run_end(s, i, k)], k),
    decreases s.len() - i,
{
    if 0 <= i < s.len() && in_class(s[i], k) {
        lemma_run_end_bounds(s, i + 1, k);
    }
}

pub proof fn lemma_next_word_bounds(s: Seq<u8>, q: int)
    ensures
        q <= s.len() ==> q <= next_word(s, q) <= s.len(),
        next_word(s, q) < s.len() ==> word_at(s, next_word(s, q)),
        forall|j: int| q <= j < next_word(s, q) ==> !word_at(s, j),
    decreases s.len() - q,
{
    if q < s.len() && !word_at(s, q) {
        lemma_next_word_bounds(s, q + 1);
    }
}

pub proof fn lemma_word_bounds(s: Seq<u8>, p: int)
    requires
        word_at(s, p),
    ensures
        p + 2 < charset_end(s, p),
        charset_end(s, p) + 1 < encoding_end(s, p),
        encoding_end(s, p) + 1 <= text_end(s, p),
        p < word_end(s, p) <= s.len(),
        word_end(s, p) <= after_word(s, p) <= s.len(),
{
    lemma_run_end_bounds(s, encoding_end(s, p) + 1, ByteClass::Text);
    lemma_run_end_bounds(s, word_end(s, p), ByteClass::Space);
}

/// Every byte of `b` is of class `k`.
pub open spec fn all_in_class(b: Seq<u8>, k: ByteClass) -> bool {
    forall|i: int| 0 <= i < b.len() ==> in_class(#[trigger] b[i], k)
}

/// The fields make a well-formed encoded word.
pub open spec fn is_word(charset: Seq<u8>, encoding: Seq<u8>, text: Seq<u8>) -> bool {
    &&& charset.len() > 0
    &&& encoding.len() > 0
    &&& all_in_class(charset, ByteClass::Token)
    &&& all_in_class(encoding, ByteClass::Token)
    &&& all_in_class(text, ByteClass::Text)
}

/// No encoded word starts anywhere in `s`.
pub open spec fn holds_no_word(s: Seq<u8>) -> bool {
    forall|p: int| !word_at(s, p)
}

pub proof fn lemma_run_end_segment(s: Seq<u8>, i: int, j: int, k: ByteClass)
    requires
        0 <= i <= j <= s.len(),
        forall|x: int| i <= x < j ==> in_class(#[trigger] s[x], k),
        j == s.len() || !in_class(s[j], k),
    ensures
        run_end(s, i, k) == j,
    decreases j - i,
{
    if i < j {
        lemma_run_end_segment(s, i + 1, j, k);
    }
}

/// An encoded word at the start of a byte string is found with its fields.
pub proof fn lemma_word_at_start(c: Seq<u8>, e: Seq<u8>, t: Seq<u8>, rest: Seq<u8>)
    requires
        is_word(c, e, t),
    ensures
        word_at(delimited(c, e, t) + rest, 0),
        word_charset(delimited(c, e, t) + rest, 0) == c,
        word_encoding(delimited(c, e, t) + rest, 0) == e,
        word_text(delimited(c, e, t) + rest, 0) == t,
        word_end(delimited(c, e, t) + rest, 0) == delimited(c, e, t).len(),
{
    let s = delimited(c, e, t) + rest;
    let cl = c.len() as int;
    let el = e.len() as int;
    let tl = t.len() as int;
    assert(delimited(c, e, t).len() == cl + el + tl + 6);
    assert(s[0] == EQUALS_SIGN);
    assert(s[1] == QUESTION_MARK);
    assert forall|x: int| 2 <= x < 2 + cl implies in_class(#[trigger] s[x], ByteClass::Token) by {
        assert(s[x] == c[x - 2]);
    }
    assert(s[2 + cl] == QUESTION_MARK);
    lemma_run_end_segment(s, 2, 2 + cl, ByteClass::Token);
    assert forall|x: int| 3 + cl <= x < 3 + cl + el implies in_class(
        #[trigger] s[x],
        ByteClass::Token,
    ) by {
        assert(s[x] == e[x - 3 - cl]);
    }
    assert(s[3 + cl + el] == QUESTION_MARK);
    lemma_run_end_segment(s, 3 + cl, 3 + cl + el, ByteClass::Token);
    assert forall|x: int| 4 + cl + el <= x < 4 + cl + el + tl implies in_class(
        #[trigger] s[x],
        ByteClass::Text,
    ) by {
        assert(s[x] == t[x - 4 - cl - el]);
    }
    assert(s[4 + cl + el + tl] == QUESTION_MARK);
    assert(s[5 + cl + el + tl] == EQUALS_SIGN);
    lemma_run_end_segment(s, 4 + cl + el, 4 + cl + el + tl, ByteClass::Text);
    assert(word_charset(s, 0) =~= c);
    assert(word_encoding(s, 0) =~= e);
    assert(word_text(s, 0) =~= t);
}

pub proof fn lemma_run_end_shift(a: Seq<u8>, b: Seq<u8>, i: int, k: ByteClass)
    requires
        0 <= i,
    ensures
        run_end(a + b, a.len() + i, k) == a.len() + run_end(b, i, k),
    decreases b.len() - i,
{
    if i < b.len() && in_class(b[i], k) {
        lemma_run_end_shift(a, b, i + 1, k);
    }
}

/// Whether a word starts at a position, and which, does not depend on the
/// bytes before it.
pub proof fn lemma_word_shift(a: Seq<u8>, b: Seq<u8>, i: int)
    requires
        0 <= i,
    ensures
        word_at(a + b, a.len() + i) == word_at(b, i),
        word_at(b, i) ==> word_end(a + b, a.len() + i) == a.len() + word_end(b, i),
        word_at(b, i) ==> word_charset(a + b, a.len() + i) == word_charset(b, i),
        word_at(b, i) ==> word_encoding(a + b, a.len() + i) == word_encoding(b, i),
        word_at(b, i) ==> word_text(a + b, a.len() + i) == word_text(b, i),
{
    let s = a + b;
    let n = a.len() as int;
    lemma_run_end_shift(a, b, i + 2, ByteClass::Token);
    lemma_run_end_bounds(b, i + 2, ByteClass::Token);
    let c = charset_end(b, i);
    lemma_run_end_shift(a, b, c + 1, ByteClass::Token);
    lemma_run_end_bounds(b, c + 1, ByteClass::Token);
    let e = encoding_end(b, i);
    lemma_run_end_shift(a, b, e + 1, ByteClass::Text);
    lemma_run_end_bounds(b, e + 1, ByteClass::Text);
    assert(charset_end(s, n + i) == n + c);
    assert(encoding_end(s, n + i) == n + e);
    assert(text_end(s, n + i) == n + text_end(b, i));
    if word_at(b, i) {
        assert(word_charset(s, n + i) =~= word_charset(b, i));
        assert(word_encoding(s, n + i) =~= word_encoding(b, i));
        assert(word_text(s, n + i) =~= word_text(b, i));
    }
}

pub proof fn lemma_next_word_shift(a: Seq<u8>, b: Seq<u8>, i: int)
    requires
        0 <= i,
    ensures
        next_word(a + b, a.len() + i) == a.len() + next_word(b, i),
    decreases b.len() - i,
{
    if i < b.len() {
        lemma_word_shift(a, b, i);
        if !word_at(b, i) {
            lemma_next_word_shift(a, b, i + 1);
        }
    }
}

/// The tokens from a position on do not depend on the bytes before it.
pub proof fn lemma_lex_shift(a: Seq<u8>, b: Seq<u8>, i: int, strategy: RecoverStrategy)
    requires
        0 <= i,
    ensures
        lex(a + b, a.len() + i, strategy) == lex(b, i, strategy),
    decreases b.len() - i,
{
    reveal(lex);
    let s = a + b;
    let n = a.len() as int;
    if i < b.len() {
        lemma_word_shift(a, b, i);
        if word_at(b, i) {
            lemma_word_bounds(b, i);
            let we = word_end(b, i);
            lemma_run_end_shift(a, b, we, ByteClass::Space);
            lemma_run_end_bounds(b, we, ByteClass::Space);
            lemma_word_shift(a, b, run_end(b, we, ByteClass::Space));
            assert(after_word(s, n + i) == n + after_word(b, i));
            assert(word_token(s, n + i, strategy) == word_token(b, i, strategy));
            lemma_lex_shift(a, b, after_word(b, i), strategy);
        } else {
            lemma_next_word_shift(a, b, i + 1);
            lemma_next_word_bounds(b, i + 1);
            let q = next_word(b, i + 1);
            assert(s.subrange(n + i, n + q) =~= b.subrange(i, q));
            lemma_lex_shift(a, b, q, strategy);
        }
    }
}

/// A byte string that holds no encoded word is one token of clear text, if
/// it is not empty.
pub proof fn lemma_lex_clear_text(b: Seq<u8>, strategy: RecoverStrategy)
    requires
        holds_no_word(b),
    ensures
        b.len() == 0 ==> lex(b, 0, strategy) == Seq::<TokenView>::empty(),
        b.len() > 0 ==> lex(b, 0, strategy) == seq![TokenView::ClearText(b)],
{
    reveal(lex);
    if b.len() > 0 {
        lemma_next_word_bounds(b, 1);
        assert(!word_at(b, next_word(b, 1)));
        assert(b.subrange(0, b.len() as int) =~= b);
        assert(lex(b, b.len() as int, strategy) == Seq::<TokenView>::empty());
        assert(lex(b, 0, strategy) =~= seq![TokenView::ClearText(b)]);
    }
}

/// An encoded word alone is one token.
pub proof fn lemma_lex_single_word(c: Seq<u8>, e: Seq<u8>, t: Seq<u8>, strategy: RecoverStrategy)
    requires
        is_word(c, e, t),
    ensures
        lex(delimited(c, e, t), 0, strategy) == seq![
            word_token(delimited(c, e, t), 0, strategy),
        ],
        word_token(delimited(c, e, t), 0, strategy) == (if word_len(c, e, t) > MAX_LENGTH
            && strategy == RecoverStrategy::Skip {
            TokenView::ClearText(delimited(c, e, t))
        } else {
            TokenView::EncodedWord(c, e, t)
        }),
{
    reveal(lex);
    let w = delimited(c, e, t);
    lemma_word_at_start(c, e, t, Seq::empty());
    assert(w + Seq::<u8>::empty() =~= w);
    let n = w.len() as int;
    assert(run_end(w, n, ByteClass::Space) == n);
    assert(!word_at(w, n));
    assert(after_word(w, 0) == n);
    assert(lex(w, n, strategy) == Seq::<TokenView>::empty());
    assert(lex(w, 0, strategy) =~= seq![word_token(w, 0, strategy)]);
}

proof fn lemma_lex_word_step(s: Seq<u8>, strategy: RecoverStrategy)
    requires
        word_at(s, 0),
    ensures
        lex(s, 0, strategy) == seq![word_token(s, 0, strategy)] + lex(
            s,
            after_word(s, 0),
            strategy,
        ),
{
    reveal(lex);
}

proof fn lemma_space_run(a: Seq<u8>, ws: Seq<u8>, b: Seq<u8>)
    requires
        all_in_class(ws, ByteClass::Space),
        b.len() > 0,
        !in_class(b[0], ByteClass::Space),
    ensures
        run_end(a + ws + b, a.len() as int, ByteClass::Space) == a.len() + ws.len(),
{
    let s = a + ws + b;
    let n = a.len() as int;
    let m = n + ws.len();
    assert forall|x: int| n <= x < m implies in_class(#[trigger] s[x], ByteClass::Space) by {
        assert(s[x] == ws[x - n]);
    }
    assert(s[m] == b[0]);
    lemma_run_end_segment(s, n, m, ByteClass::Space);
}

/// What follows an encoded word does not change its token.
proof fn lemma_word_token_prefix(
    c: Seq<u8>,
    e: Seq<u8>,
    t: Seq<u8>,
    rest: Seq<u8>,
    strategy: RecoverStrategy,
)
    requires
        is_word(c, e, t),
    ensures
        word_at(delimited(c, e, t) + rest, 0),
        word_end(delimited(c, e, t) + rest, 0) == delimited(c, e, t).len(),
        word_token(delimited(c, e, t) + rest, 0, strategy) == word_token(
            delimited(c, e, t),
            0,
            strategy,
        ),
{
    lemma_word_at_start(c, e, t, rest);
    lemma_word_at_start(c, e, t, Seq::empty());
    assert(delimited(c, e, t) + Seq::<u8>::empty() =~= delimited(c, e, t));
}

proof fn lemma_spaces_then_word(
    c1: Seq<u8>,
    e1: Seq<u8>,
    t1: Seq<u8>,
    ws: Seq<u8>,
    c2: Seq<u8>,
    e2: Seq<u8>,
    t2: Seq<u8>,
    strategy: RecoverStrategy,
)
    requires
        is_word(c1, e1, t1),
        is_word(c2, e2, t2),
        all_in_class(ws, ByteClass::Space),
    ensures
        word_at(delimited(c1, e1, t1) + ws + delimited(c2, e2, t2), 0),
        after_word(delimited(c1, e1, t1) + ws + delimited(c2, e2, t2), 0) == delimited(
            c1,
            e1,
            t1,
        ).len() + ws.len(),
        word_token(delimited(c1, e1, t1) + ws + delimited(c2, e2, t2), 0, strategy)
            == word_token(delimited(c1, e1, t1), 0, strategy),
{
    let w1 = delimited(c1, e1, t1);
    let w2 = delimited(c2, e2, t2);
    let s = w1 + ws + w2;
    assert(w1 + (ws + w2) =~= s);
    lemma_word_token_prefix(c1, e1, t1, ws + w2, strategy);
    lemma_word_token_prefix(c2, e2, t2, Seq::empty(), strategy);
    assert(w2 + Seq::<u8>::empty() =~= w2);
    assert(w2[0] == EQUALS_SIGN);
    lemma_space_run(w1, ws, w2);
    lemma_word_shift(w1 + ws, w2, 0);
}

/// Two encoded words with only linear whitespace between them are two
/// tokens: the whitespace is dropped.
pub proof fn lemma_lex_two_words(
    c1: Seq<u8>,
    e1: Seq<u8>,
    t1: Seq<u8>,
    ws: Seq<u8>,
    c2: Seq<u8>,
    e2: Seq<u8>,
    t2: Seq<u8>,
    strategy: RecoverStrategy,
)
    requires
        is_word(c1, e1, t1),
        is_word(c2, e2, t2),
        all_in_class(ws, ByteClass::Space),
    ensures
        lex(delimited(c1, e1, t1) + ws + delimited(c2, e2, t2), 0, strategy) == seq![
            word_token(delimited(c1, e1, t1), 0, strategy),
            word_token(delimited(c2, e2, t2), 0, strategy),
        ],
{
    let w1 = delimited(c1, e1, t1);
    let w2 = delimited(c2, e2, t2);
    let s = w1 + ws + w2;
    lemma_spaces_then_word(c1, e1, t1, ws, c2, e2, t2, strategy);
    lemma_lex_word_step(s, strategy);
    lemma_lex_shift(w1 + ws, w2, 0, strategy);
    lemma_lex_single_word(c2, e2, t2, strategy);
    assert(seq![word_token(w1, 0, strategy)] + seq![word_token(w2, 0, strategy)] =~= seq![
        word_token(w1, 0, strategy),
        word_token(w2, 0, strategy),
    ]);
}

/// Clear text that holds no encoded word, after an encoded word, is one
/// token, whitespace at its start included.
#[verifier::rlimit(40)]
pub proof fn lemma_lex_word_then_clear_text(
    c: Seq<u8>,
    e: Seq<u8>,
    t: Seq<u8>,
    b: Seq<u8>,
    strategy: RecoverStrategy,
)
    requires
        is_word(c, e, t),
        holds_no_word(b),
    ensures
        b.len() > 0 ==> lex(delimited(c, e, t) + b, 0, strategy) == seq![
            word_token(delimited(c, e, t), 0, strategy),
            TokenView::ClearText(b),
        ],
{
    let w = delimited(c, e, t);
    let s = w + b;
    let n = w.len() as int;
    lemma_word_at_start(c, e, t, b);
    lemma_word_at_start(c, e, t, Seq::empty());
    assert(w + Seq::<u8>::empty() =~= w);
    let q = run_end(s, n, ByteClass::Space);
    lemma_run_end_bounds(s, n, ByteClass::Space);
    lemma_word_shift(w, b, q - n);
    assert(after_word(s, 0) == n);
    lemma_lex_shift(w, b, 0, strategy);
    lemma_lex_clear_text(b, strategy);
    assert(word_token(s, 0, strategy) == word_token(w, 0, strategy));
    lemma_lex_word_step(s, strategy);
    if b.len() > 0 {
        assert(lex(s, 0, strategy) =~= seq![
            word_token(w, 0, strategy),
            TokenView::ClearText(b),
        ]);
    }
}

/// The tokens of `s` from position `p` on.
#[verifier::opaque]
pub open spec fn lex(s: Seq<u8>, p: int, strategy: RecoverStrategy) -> Seq<TokenView>
    decreases s.len() - p,
{
    if p < 0 || p >= s.len() {
        seq![]
    } else if word_at(s, p) {
        proof {
            lemma_word_bounds(s, p);
        }
        seq![word_token(s, p, strategy)] + lex(s, after_word(s, p), strategy)
    } else {
        proof {
            lemma_next_word_bounds(s, p + 1);
        }
        let q = next_word(s, p + 1);
        seq![TokenView::ClearText(s.subrange(p, q))] + lex(s, q, strategy)
    }
}


/// A piece of a header value.
#[derive(Debug, Clone, PartialEq, Eq, Hash)]
pub enum Token {
    ClearText(Vec<u8>),
    EncodedWord(EncodedWord),
}

impl View for Token {
    type V = TokenView;

    open spec fn view(&self) -> TokenView {
        match self {
            Token::ClearText(b) => TokenView::ClearText(b@),
            Token::EncodedWord(w) => TokenView::EncodedWord(
                w.charset@,
                w.encoding@,
                w.encoded_text@,
            ),
        }
    }
}

/// The number of bytes that a token holds: for an encoded word, delimiters
/// included.
pub open spec fn token_len(t: TokenView) -> nat {
    match t {
        TokenView::ClearText(b) => b.len(),
        TokenView::EncodedWord(c, e, x) => word_len(c, e, x),
    }
}

pub open spec fn tokens_view(ts: Seq<Token>) -> Seq<TokenView> {
    ts.map_values(|t: Token| t@)
}

impl Token {
    /// Returns the number of bytes that the token holds.
    pub fn len(&self) -> (r: usize)
        requires
            token_len(self@) <= usize::MAX,
        ensures
            r == token_len(self@),
    {
        match self {
            Token::ClearText(clear_text) => clear_text.len(),
            Token::EncodedWord(encoded_word) => encoded_word.len(),
        }
    }

    pub fn is_encoded_word(&self) -> (r: bool)
        ensures
            r == (self@ is EncodedWord),
    {
        match self {
            Token::EncodedWord(_) => true,
            Token::ClearText(_) => false,
        }
    }
}

fn in_class_exec(c: u8, k: &ByteClass) -> (r: bool)
    ensures
        r == in_class(c, *k),
{
    match k {
        ByteClass::Token => c != 0x20 && 0x20 <= c && c != 0x7f && !(c == 0x28 || c == 0x29
            || c == 0x3c || c == 0x3e || c == 0x40 || c == 0x2c || c == 0x3b || c == 0x3a || c
            == 0x2f || c == 0x5b || c == 0x5d || c == 0x3f || c == 0x2e || c == 0x3d),
        ByteClass::Text => c != QUESTION_MARK && c != 0x20,
        ByteClass::Space => c == 0x20 || c == 0x09 || c == 0x0d || c == 0x0a,
    }
}

fn scan_run(s: &[u8], i: usize, k: ByteClass) -> (r: usize)
    requires
        i <= s@.len(),
    ensures
        r == run_end(s@, i as int, k),
{
    let mut j = i;
    while j < s.len() && in_class_exec(s[j], &k)
        invariant
            i <= j <= s@.len(),
            run_end(s@, i as int, k) == run_end(s@, j as int, k),
        decreases s@.len() - j,
    {
        j = j + 1;
    }
    j
}

/// The ends of the charset, the encoding and the encoded text of the word
/// that starts at `p`, if one does.
fn find_word(s: &[u8], p: usize) -> (r: Option<(usize, usize, usize)>)
    requires
        p <= s@.len(),
    ensures
        r is Some <==> word_at(s@, p as int),
        r matches Some((c, e, t)) ==> c == charset_end(s@, p as int) && e == encoding_end(
            s@,
            p as int,
        ) && t == text_end(s@, p as int),
{
    if s.len() - p < 2 || s[p] != EQUALS_SIGN || s[p + 1] != QUESTION_MARK {
        return None;
    }
    let c = scan_run(s, p + 2, ByteClass::Token);
    if c == p + 2 || c >= s.len() || s[c] != QUESTION_MARK {
        return None;
    }
    let e = scan_run(s, c + 1, ByteClass::Token);
    if e == c + 1 || e >= s.len() || s[e] != QUESTION_MARK {
        return None;
    }
    let t = scan_run(s, e + 1, ByteClass::Text);
    proof {
        lemma_run_end_bounds(s@, p + 2, ByteClass::Token);
        lemma_run_end_bounds(s@, c + 1, ByteClass::Token);
        lemma_run_end_bounds(s@, e + 1, ByteClass::Text);
    }
    if s.len() - t < 2 || s[t] != QUESTION_MARK || s[t + 1] != EQUALS_SIGN {
        return None;
    }
    Some((c, e, t))
}


/// Splits `encoded_bytes` into clear text and encoded words, with the
/// decoder's strategy for words that are too long applied but no word
/// rejected.
pub fn tokenize(encoded_bytes: &[u8], decoder: &Decoder) -> (r: Vec<Token>)
    ensures
        tokens_view(r@) == lex(encoded_bytes@, 0, decoder.too_long_encoded_word),
{
    let s = encoded_bytes;
    let strategy = decoder.too_long_encoded_word;
    let mut tokens: Vec<Token> = Vec::new();
    let mut p: usize = 0;
    while p < s.len()
        invariant
            p <= s@.len(),
            tokens_view(tokens@) + lex(s@, p as int, strategy) == lex(s@, 0, strategy),
        decreases s@.len() - p,
    {
        let ghost before = tokens@;
        let token;
        let next;
        match find_word(s, p) {
            Some((c, e, t)) => {
                proof {
                    lemma_word_bounds(s@, p as int);
                }
                let word = EncodedWord::new(
                    slice_to_vec(slice_subrange(s, p + 2, c)),
                    slice_to_vec(slice_subrange(s, c + 1, e)),
                    slice_to_vec(slice_subrange(s, e + 1, t)),
                );
                let end = t + 2;
                if word.len() > MAX_LENGTH && strategy == RecoverStrategy::Skip {
                    token = Token::ClearText(word.get_bytes(true));
                } else {
                    token = Token::EncodedWord(word);
                }
                let w = scan_run(s, end, ByteClass::Space);
                proof {
                    lemma_run_end_bounds(s@, end as int, ByteClass::Space);
                }
                if find_word(s, w).is_some() {
                    next = w;
                } else {
                    next = end;
                }
            },
            None => {
                let mut q = p + 1;
                while q < s.len() && find_word(s, q).is_none()
                    invariant
                        p < q <= s@.len(),
                        next_word(s@, p + 1) == next_word(s@, q as int),
                    decreases s@.len() - q,
                {
                    q = q + 1;
                }
                token = Token::ClearText(slice_to_vec(slice_subrange(s, p, q)));
                next = q;
            },
        }
        assert(lex(s@, p as int, strategy) == seq![token@] + lex(s@, next as int, strategy)) by {
            reveal(lex);
        }
        tokens.push(token);
        assert(tokens_view(tokens@) =~= tokens_view(before).push(token@));
        assert(tokens_view(tokens@) + lex(s@, next as int, strategy) =~= tokens_view(before)
            + lex(s@, p as int, strategy));
        p = next;
    }
    assert(lex(s@, p as int, strategy) == Seq::<TokenView>::empty()) by {
        reveal(lex);
    }
    assert(tokens_view(tokens@) =~= tokens_view(tokens@) + lex(s@, p as int, strategy));
    tokens
}


/// The encoded words that were too long, each as it stood in the input.
#[derive(Debug, Clone, PartialEq, Eq, Hash)]
pub struct TooLongEncodedWords(pub Vec<String>);

impl View for TooLongEncodedWords {
    type V = Seq<Seq<char>>;

    open spec fn view(&self) -> Seq<Seq<char>> {
        self.0@.map_values(|w: String| w@)
    }
}

/// The words, separated by `, `.
pub open spec fn joined(words: Seq<Seq<char>>) -> Seq<char>
    decreases words.len(),
{
    if words.len() == 0 {
        seq![]
    } else if words.len() == 1 {
        words[0]
    } else {
        joined(words.drop_last()) + seq![',', ' '] + words.last()
    }
}

impl TooLongEncodedWords {
    pub fn new(encoded_words: Vec<String>) -> (r: Self)
        ensures
            r@ == encoded_words@.map_values(|w: String| w@),
    {
        TooLongEncodedWords(encoded_words)
    }

    /// The words, separated by `, `.
    pub fn to_string(&self) -> (r: String)
        ensures
            r@ == joined(self@),
    {
        let words = &self.0;
        let mut message = String::new();
        let mut i: usize = 0;
        while i < words.len()
            invariant
                i <= words@.len(),
                self@ == words@.map_values(|w: String| w@),
                message@ == joined(self@.take(i as int)),
            decreases words@.len() - i,
        {
            if i > 0 {
                proof {
                    reveal_strlit(", ");
                }
                append_str(&mut message, ", ");
            }
            append_str(&mut message, words[i].as_str());
            assert(self@[i as int] == words@[i as int]@);
            assert(self@.take(i + 1).drop_last() =~= self@.take(i as int));
            assert(i == 0 ==> message@ =~= self@.take(i + 1)[0]);
            i = i + 1;
        }
        assert(self@.take(i as int) =~= self@);
        message
    }
}

/// All errors which the lexer can return.
#[derive(Debug, Clone, PartialEq)]
pub enum Error {
    /// Some encoded words are longer than 75 bytes, delimiters included.
    ParseEncodedWordTooLongError(TooLongEncodedWords),
}

/// The texts of the encoded words among `ts` that are too long, in order.
pub open spec fn too_long_words(ts: Seq<TokenView>) -> Seq<Seq<char>>
    decreases ts.len(),
{
    if ts.len() == 0 {
        seq![]
    } else {
        let rest = too_long_words(ts.drop_last());
        match ts.last() {
            TokenView::EncodedWord(c, e, t) => if word_len(c, e, t) > MAX_LENGTH {
                rest.push(utf8_lossy_of(delimited(c, e, t)))
            } else {
                rest
            },
            TokenView::ClearText(_) => rest,
        }
    }
}

/// What the lexer makes of `s`: its tokens, or under
/// [`RecoverStrategy::Abort`] the encoded words that are too long, if there
/// are any.
pub open spec fn lexed(s: Seq<u8>, strategy: RecoverStrategy) -> Result<
    Seq<TokenView>,
    Seq<Seq<char>>,
> {
    let ts = lex(s, 0, strategy);
    if strategy == RecoverStrategy::Abort && too_long_words(ts).len() > 0 {
        Err(too_long_words(ts))
    } else {
        Ok(ts)
    }
}

/// The lexer's result in the terms of [`lexed`].
pub open spec fn lex_outcome(r: Result<Vec<Token>, Error>) -> Result<
    Seq<TokenView>,
    Seq<Seq<char>>,
> {
    match r {
        Ok(ts) => Ok(tokens_view(ts@)),
        Err(Error::ParseEncodedWordTooLongError(w)) => Err(w@),
    }
}

fn is_too_long(w: &EncodedWord) -> (r: bool)
    ensures
        r == (w.spec_len() > MAX_LENGTH),
{
    if w.charset.len() > MAX_LENGTH || w.encoding.len() > MAX_LENGTH || w.encoded_text.len()
        > MAX_LENGTH {
        true
    } else {
        w.len() > MAX_LENGTH
    }
}

fn get_too_long_encoded_words(tokens: &Vec<Token>, decoder: &Decoder) -> (r: Option<
    TooLongEncodedWords,
>)
    ensures
        decoder.too_long_encoded_word == RecoverStrategy::Abort && too_long_words(
            tokens_view(tokens@),
        ).len() > 0 ==> (r matches Some(w) && w@ == too_long_words(tokens_view(tokens@))),
        !(decoder.too_long_encoded_word == RecoverStrategy::Abort && too_long_words(
            tokens_view(tokens@),
        ).len() > 0) ==> r is None,
{
    let strategy = decoder.too_long_encoded_word;
    let ghost ts = tokens_view(tokens@);
    let mut too_long_encoded_words: Vec<String> = Vec::new();
    let mut i: usize = 0;
    while i < tokens.len()
        invariant
            i <= tokens@.len(),
            ts == tokens_view(tokens@),
            strategy == decoder.too_long_encoded_word,
            strategy == RecoverStrategy::Abort ==> too_long_encoded_words@.map_values(
                |w: String| w@,
            ) == too_long_words(ts.take(i as int)),
            strategy != RecoverStrategy::Abort ==> too_long_encoded_words@.len() == 0,
        decreases tokens@.len() - i,
    {
        let ghost before = too_long_encoded_words@;
        assert(ts.take(i + 1).drop_last() =~= ts.take(i as int));
        if let Token::EncodedWord(encoded_word) = &tokens[i] {
            if is_too_long(encoded_word) && strategy == RecoverStrategy::Abort {
                too_long_encoded_words.push(encoded_word.to_string());
                assert(too_long_encoded_words@.map_values(|w: String| w@) =~= before.map_values(
                    |w: String| w@,
                ).push(too_long_encoded_words@.last()@));
            }
        }
        i = i + 1;
    }
    assert(ts.take(i as int) =~= ts);
    if too_long_encoded_words.len() == 0 {
        None
    } else {
        Some(TooLongEncodedWords::new(too_long_encoded_words))
    }
}

fn validate_tokens(tokens: Vec<Token>, decoder: &Decoder) -> (r: Result<Vec<Token>, Error>)
    ensures
        lex_outcome(r) == (if decoder.too_long_encoded_word == RecoverStrategy::Abort
            && too_long_words(tokens_view(tokens@)).len() > 0 {
            Err(too_long_words(tokens_view(tokens@)))
        } else {
            Ok(tokens_view(tokens@))
        }),
{
    if let Some(too_long_encoded_words) = get_too_long_encoded_words(&tokens, decoder) {
        return Err(Error::ParseEncodedWordTooLongError(too_long_encoded_words));
    }
    Ok(tokens)
}

/// Splits `encoded_bytes` into tokens; under [`RecoverStrategy::Abort`] fails
/// with every encoded word that is too long, if there is one.
pub fn run(encoded_bytes: &[u8], decoder: Decoder) -> (r: Result<Vec<Token>, Error>)
    ensures
        lex_outcome(r) == lexed(encoded_bytes@, decoder.too_long_encoded_word),
{
    let tokens = tokenize(encoded_bytes, &decoder);
    validate_tokens(tokens, &decoder)
}

} // verus!
