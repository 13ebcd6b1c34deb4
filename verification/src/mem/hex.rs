//! Bytes as hexadecimal text.

use crate::text;
use crate::text::{from_chars, join, parse_number, push_byte_hex, to_chars, words, IntError};
use vstd::prelude::*;

verus! {

/// Each byte as two hexadecimal digits.
pub open spec fn hex_pieces(bytes: Seq<u8>) -> Seq<Seq<char>> {
    Seq::new(bytes.len(), |i: int| text::byte_hex(bytes[i]))
}

/// The bytes as two hexadecimal digits each, with spaces between them.
pub open spec fn hex_text(bytes: Seq<u8>) -> Seq<char> {
    text::joined(hex_pieces(bytes), " "@)
}

/// The bytes as two hexadecimal digits each, with nothing between them.
pub open spec fn hex_run(bytes: Seq<u8>) -> Seq<char>
    decreases bytes.len(),
{
    if bytes.len() == 0 {
        Seq::empty()
    } else {
        hex_run(bytes.drop_last()) + text::byte_hex(bytes.last())
    }
}

/// The bytes as two hexadecimal digits each, with spaces between them.
pub fn hex_encode(bytes: &[u8]) -> (r: String)
    ensures
        r@ == hex_text(bytes@),
{
    let mut pieces: Vec<String> = Vec::new();
    let mut i: usize = 0;
    assert(text::texts(pieces@) =~= hex_pieces(bytes@).take(0));
    while i < bytes.len()
        invariant
            i <= bytes@.len(),
            text::texts(pieces@) == hex_pieces(bytes@).take(i as int),
        decreases bytes@.len() - i,
    {
        let mut piece = String::new();
        push_byte_hex(&mut piece, bytes[i]);
        assert(piece@ =~= text::byte_hex(bytes@[i as int]));
        let ghost before = text::texts(pieces@);
        pieces.push(piece);
        assert(text::texts(pieces@) =~= before.push(piece@));
        assert(hex_pieces(bytes@).take(i + 1) =~= hex_pieces(bytes@).take(i as int).push(
            hex_pieces(bytes@)[i as int],
        ));
        i += 1;
    }
    assert(hex_pieces(bytes@).take(bytes@.len() as int) =~= hex_pieces(bytes@));
    join(&pieces, " ")
}

/// The bytes as two hexadecimal digits each, with nothing between them.
pub fn hex_string(bytes: &[u8]) -> (r: String)
    ensures
        r@ == hex_run(bytes@),
{
    let mut r = String::new();
    let mut i: usize = 0;
    assert(r@ =~= hex_run(bytes@.take(0)));
    while i < bytes.len()
        invariant
            i <= bytes@.len(),
            r@ == hex_run(bytes@.take(i as int)),
        decreases bytes@.len() - i,
    {
        push_byte_hex(&mut r, bytes[i]);
        i += 1;
        assert(bytes@.take(i as int).drop_last() =~= bytes@.take(i - 1));
    }
    assert(bytes@.take(bytes@.len() as int) =~= bytes@);
    r
}

/// A word that is no byte in hexadecimal.
#[derive(Clone, Debug)]
pub struct HexError {
    /// The word.
    pub word: String,
    /// Why.
    pub reason: IntError,
}

impl View for HexError {
    type V = (Seq<char>, IntError);

    open spec fn view(&self) -> (Seq<char>, IntError) {
        (self.word@, self.reason)
    }
}

/// What a hex error says.
pub open spec fn hex_message(e: (Seq<char>, IntError)) -> Seq<char> {
    "invalid hex byte '"@ + e.0 + "': "@ + e.1.says()
}

impl HexError {
    /// What the error says.
    pub fn message(&self) -> (r: String)
        ensures
            r@ == hex_message(self@),
    {
        let mut r = "invalid hex byte '".to_string();
        r.append(self.word.as_str());
        r.append("': ");
        r.append(self.reason.message().as_str());
        r
    }
}

/// The bytes that a list of words stands for; the first bad word says what is wrong.
pub open spec fn words_bytes(words: Seq<Seq<char>>) -> Result<Seq<u8>, (Seq<char>, IntError)>
    decreases words.len(),
{
    if words.len() == 0 {
        Ok(Seq::empty())
    } else {
        match words_bytes(words.drop_last()) {
            Err(e) => Err(e),
            Ok(b) => match text::number(words.last(), 16, 255) {
                Err(e) => Err((words.last(), e)),
                Ok(n) => Ok(b.push(n as u8)),
            },
        }
    }
}

/// The bytes that a text stands for.
pub open spec fn text_bytes(s: Seq<char>) -> Result<Seq<u8>, (Seq<char>, IntError)> {
    words_bytes(text::words_of(s))
}

proof fn lemma_bad_word_stays(words: Seq<Seq<char>>, k: int)
    requires
        0 <= k <= words.len(),
        words_bytes(words.take(k)) is Err,
    ensures
        words_bytes(words) == words_bytes(words.take(k)),
    decreases words.len() - k,
{
    if k < words.len() {
        assert(words.take(k + 1).drop_last() =~= words.take(k));
        lemma_bad_word_stays(words, k + 1);
    } else {
        assert(words.take(k) =~= words);
    }
}

/// Reads bytes in hexadecimal, with white space between them.
pub fn hex_decode(hex: &str) -> (r: Result<Vec<u8>, HexError>)
    ensures
        match r {
            Ok(b) => text_bytes(hex@) == Ok::<_, (Seq<char>, IntError)>(b@),
            Err(e) => text_bytes(hex@) == Err::<Seq<u8>, _>(e@),
        },
{
    let chars = to_chars(hex);
    let list = words(chars.as_slice());
    let ghost texts = text::words_of(hex@);
    let mut out: Vec<u8> = Vec::new();
    let mut i: usize = 0;
    assert(out@ =~= Seq::empty());
    while i < list.len()
        invariant
            i <= list@.len(),
            texts == text::views(list@),
            texts == text::words_of(hex@),
            words_bytes(texts.take(i as int)) == Ok::<_, (Seq<char>, IntError)>(out@),
        decreases list@.len() - i,
    {
        proof {
            assert(texts.take(i + 1).drop_last() =~= texts.take(i as int));
            assert(texts.take(i + 1).last() == list@[i as int]@);
        }
        let word = list[i].as_slice();
        match parse_number(word, 16, 255) {
            Ok(n) => out.push(n as u8),
            Err(reason) => {
                proof {
                    lemma_bad_word_stays(texts, i + 1);
                }
                return Err(HexError { word: from_chars(word), reason });
            },
        }
        i += 1;
    }
    assert(texts.take(list@.len() as int) =~= texts);
    Ok(out)
}

// ─── Round trip ─────────────────────────────────────────────────────────────

/// A byte as two digits is a number, and no white space stands in it.
pub proof fn lemma_byte_is_number(b: u8)
    ensures
        text::number(text::byte_hex(b), 16, 255) == Ok::<nat, IntError>(b as nat),
        forall|i: int|
            0 <= i < text::byte_hex(b).len() ==> !text::is_space(#[trigger] text::byte_hex(b)[i]),
{
    let s = text::byte_hex(b);
    let (high, low) = (b as int / 16, b as int % 16);
    reveal_with_fuel(text::digits_value, 3);
    assert(text::digit_value(s[0], 16) == Some(high as nat));
    assert(text::digit_value(s[1], 16) == Some(low as nat));
    assert(s.drop_last().drop_last() =~= Seq::empty());
    assert(s.drop_last().last() == s[0]);
    assert(text::digits_value(s.drop_last(), 16, 255) == Ok::<nat, IntError>(high as nat));
    assert(high * 16 + low == b);
}

/// What is encoded is decoded again, for every sequence of bytes.
pub proof fn hex_round_trip(bytes: Seq<u8>)
    ensures
        text_bytes(hex_text(bytes)) == Ok::<_, (Seq<char>, IntError)>(bytes),
{
    let pieces = hex_pieces(bytes);
    assert forall|i: int| 0 <= i < pieces.len() implies {
        &&& (#[trigger] pieces[i]).len() > 0
        &&& forall|k: int| 0 <= k < pieces[i].len() ==> !text::is_space(#[trigger] pieces[i][k])
    } by {
        lemma_byte_is_number(bytes[i]);
    }
    text::words_of_joined(pieces);
    lemma_pieces_bytes(bytes);
}

proof fn lemma_pieces_bytes(bytes: Seq<u8>)
    ensures
        words_bytes(hex_pieces(bytes)) == Ok::<_, (Seq<char>, IntError)>(bytes),
    decreases bytes.len(),
{
    if bytes.len() == 0 {
        assert(bytes =~= Seq::empty());
    } else {
        let rest = bytes.drop_last();
        lemma_pieces_bytes(rest);
        assert(hex_pieces(bytes).drop_last() =~= hex_pieces(rest));
        lemma_byte_is_number(bytes.last());
        assert(rest.push(bytes.last()) =~= bytes);
    }
}

/// A run of bytes has two digits for each of them, the higher one first, and nothing between.
pub proof fn runs_have_two_digits_a_byte(bytes: Seq<u8>, i: int)
    requires
        0 <= i < bytes.len(),
    ensures
        hex_run(bytes).len() == 2 * bytes.len(),
        hex_run(bytes)[2 * i] == "0123456789abcdef"@[bytes[i] as int / 16],
        hex_run(bytes)[2 * i + 1] == "0123456789abcdef"@[bytes[i] as int % 16],
    decreases bytes.len(),
{
    let rest = bytes.drop_last();
    lemma_run_len(bytes);
    lemma_run_len(rest);
    text::bytes_have_two_digits(bytes.last());
    if i < rest.len() {
        runs_have_two_digits_a_byte(rest, i);
        assert(hex_run(bytes)[2 * i] == hex_run(rest)[2 * i]);
        assert(hex_run(bytes)[2 * i + 1] == hex_run(rest)[2 * i + 1]);
    }
}

proof fn lemma_run_len(bytes: Seq<u8>)
    ensures
        hex_run(bytes).len() == 2 * bytes.len(),
    decreases bytes.len(),
{
    if bytes.len() > 0 {
        lemma_run_len(bytes.drop_last());
    }
}

/// Bytes are shown as two digits each with one space between them.
pub proof fn bytes_are_shown_apart(bytes: Seq<u8>, b: u8)
    ensures
        hex_text(Seq::empty()) == Seq::<char>::empty(),
        hex_text(seq![b]) == seq![
            "0123456789abcdef"@[b as int / 16],
            "0123456789abcdef"@[b as int % 16],
        ],
        bytes.len() > 0 ==> hex_text(bytes.push(b)) == hex_text(bytes) + seq![
            ' ',
            "0123456789abcdef"@[b as int / 16],
            "0123456789abcdef"@[b as int % 16],
        ],
{
    reveal_strlit(" ");
    text::bytes_have_two_digits(b);
    assert(hex_pieces(Seq::empty()) =~= Seq::empty());
    assert(hex_pieces(seq![b]) =~= seq![text::byte_hex(b)]);
    assert(hex_pieces(bytes.push(b)).drop_last() =~= hex_pieces(bytes));
    if bytes.len() > 0 {
        assert(hex_text(bytes.push(b)) =~= hex_text(bytes) + seq![
            ' ',
            "0123456789abcdef"@[b as int / 16],
            "0123456789abcdef"@[b as int % 16],
        ]);
    }
}

} // verus!
