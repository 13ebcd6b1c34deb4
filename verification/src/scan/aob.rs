//! Searching memory for a sequence of bytes with wildcards.
//!
//! A pattern is searched for by its rarest fixed byte first; the rest is compared only where
//! that byte stands. Regions are read in chunks, and the end of each chunk is kept in front
//! of the next one, so that a match across the border is found.

use crate::mem::access;
use crate::mem::access::{AccessError, MemEvent, MemoryAccess};
use crate::process::maps;
use crate::process::maps::{MapRegion, RegionSafety, RegionView};
use crate::scan::buffer;
use crate::scan::engine;
use crate::scan::engine::DEFAULT_CHUNK_SIZE;
use crate::text;
use crate::text::{from_chars, is, parse_number, to_chars, words};
use vstd::prelude::*;
use vstd::slice::slice_subrange;

verus! {

// ─── Patterns ───────────────────────────────────────────────────────────────

/// Why a text is no byte pattern.
#[derive(Clone, Debug)]
pub enum AobError {
    /// The text has no byte at all.
    Empty,
    /// This word is neither a wildcard nor a byte in hexadecimal.
    BadByte(String),
    /// Every byte is a wildcard.
    NoFixedByte,
}

/// An [`AobError`] as a mathematical value.
pub enum AobErrorView {
    /// The text has no byte at all.
    Empty,
    /// This word is neither a wildcard nor a byte in hexadecimal.
    BadByte(Seq<char>),
    /// Every byte is a wildcard.
    NoFixedByte,
}

impl View for AobError {
    type V = AobErrorView;

    open spec fn view(&self) -> AobErrorView {
        match self {
            AobError::Empty => AobErrorView::Empty,
            AobError::BadByte(s) => AobErrorView::BadByte(s@),
            AobError::NoFixedByte => AobErrorView::NoFixedByte,
        }
    }
}

/// What a pattern error says.
pub open spec fn aob_message(e: AobErrorView) -> Seq<char> {
    match e {
        AobErrorView::Empty => "empty AOB pattern"@,
        AobErrorView::BadByte(s) => "invalid byte in AOB pattern: '"@ + s + "'"@,
        AobErrorView::NoFixedByte => "AOB pattern has only wildcards"@,
    }
}

impl AobError {
    /// What the error says.
    pub fn message(&self) -> (r: String)
        ensures
            r@ == aob_message(self@),
    {
        match self {
            AobError::Empty => "empty AOB pattern".to_string(),
            AobError::BadByte(s) => {
                let mut r = "invalid byte in AOB pattern: '".to_string();
                r.append(s.as_str());
                r.append("'");
                r
            },
            AobError::NoFixedByte => "AOB pattern has only wildcards".to_string(),
        }
    }
}

/// What one word of a pattern stands for: a wildcard (`??` or `*`) or a byte.
pub open spec fn word_byte(w: Seq<char>) -> Result<Option<u8>, AobErrorView> {
    if w == "??"@ || w == "*"@ {
        Ok(None)
    } else {
        match text::number(w, 16, 255) {
            Ok(n) => Ok(Some(n as u8)),
            Err(_) => Err(AobErrorView::BadByte(w)),
        }
    }
}

/// What a list of words stands for; the first bad word says what is wrong.
pub open spec fn words_pattern(words: Seq<Seq<char>>) -> Result<Seq<Option<u8>>, AobErrorView>
    decreases words.len(),
{
    if words.len() == 0 {
        Ok(Seq::empty())
    } else {
        match words_pattern(words.drop_last()) {
            Err(e) => Err(e),
            Ok(p) => match word_byte(words.last()) {
                Err(e) => Err(e),
                Ok(b) => Ok(p.push(b)),
            },
        }
    }
}

/// A pattern that can be searched for has a fixed byte.
pub open spec fn has_fixed(p: Seq<Option<u8>>) -> bool {
    exists|i: int| 0 <= i < p.len() && (#[trigger] p[i]) is Some
}

/// The pattern that a text describes.
pub open spec fn text_pattern(s: Seq<char>) -> Result<Seq<Option<u8>>, AobErrorView> {
    match words_pattern(text::words_of(s)) {
        Err(e) => Err(e),
        Ok(p) => if p.len() == 0 {
            Err(AobErrorView::Empty)
        } else if !has_fixed(p) {
            Err(AobErrorView::NoFixedByte)
        } else {
            Ok(p)
        },
    }
}

proof fn lemma_bad_word_stays(words: Seq<Seq<char>>, k: int)
    requires
        0 <= k <= words.len(),
        words_pattern(words.take(k)) is Err,
    ensures
        words_pattern(words) == words_pattern(words.take(k)),
    decreases words.len() - k,
{
    if k < words.len() {
        assert(words.take(k + 1).drop_last() =~= words.take(k));
        lemma_bad_word_stays(words, k + 1);
    } else {
        assert(words.take(k) =~= words);
    }
}

/// Reads a pattern like `48 89 5C 24 ?? 57`.
pub fn parse_aob_pattern(s: &str) -> (r: Result<Vec<Option<u8>>, AobError>)
    ensures
        match r {
            Ok(p) => text_pattern(s@) == Ok::<_, AobErrorView>(p@),
            Err(e) => text_pattern(s@) == Err::<Seq<Option<u8>>, _>(e@),
        },
{
    let chars = to_chars(s);
    let list = words(chars.as_slice());
    let ghost texts = text::words_of(s@);
    let mut pattern: Vec<Option<u8>> = Vec::new();
    let mut fixed = false;
    let mut i: usize = 0;
    assert(pattern@ =~= Seq::empty());
    while i < list.len()
        invariant
            i <= list@.len(),
            texts == text::views(list@),
            texts == text::words_of(s@),
            words_pattern(texts.take(i as int)) == Ok::<_, AobErrorView>(pattern@),
            pattern@.len() == i,
            fixed == has_fixed(pattern@),
        decreases list@.len() - i,
    {
        proof {
            assert(texts.take(i + 1).drop_last() =~= texts.take(i as int));
            assert(texts.take(i + 1).last() == list@[i as int]@);
        }
        let word = list[i].as_slice();
        let ghost before = pattern@;
        if is(word, "??") || is(word, "*") {
            pattern.push(None);
            proof {
                if fixed {
                    let k = choose|k: int| 0 <= k < before.len() && (#[trigger] before[k]) is Some;
                    assert(pattern@[k] is Some);
                } else {
                    assert forall|k: int| 0 <= k < pattern@.len() implies !(
                    #[trigger] pattern@[k] is Some) by {
                        if k < before.len() {
                            assert(pattern@[k] == before[k]);
                        }
                    }
                }
            }
        } else {
            match parse_number(word, 16, 255) {
                Ok(n) => {
                    pattern.push(Some(n as u8));
                    fixed = true;
                    assert(pattern@[i as int] is Some);
                },
                Err(_) => {
                    proof {
                        lemma_bad_word_stays(texts, i + 1);
                    }
                    return Err(AobError::BadByte(from_chars(word)));
                },
            }
        }
        i += 1;
    }
    assert(texts.take(list@.len() as int) =~= texts);
    if pattern.len() == 0 {
        return Err(AobError::Empty);
    }
    if !fixed {
        return Err(AobError::NoFixedByte);
    }
    Ok(pattern)
}

/// A pattern as words: the given two-digit form of each byte, and the given word for each
/// wildcard.
pub open spec fn pattern_words(
    pattern: Seq<Option<u8>>,
    digits: Seq<char>,
    wild: Seq<char>,
) -> Seq<Seq<char>> {
    Seq::new(
        pattern.len(),
        |i: int|
            match pattern[i] {
                Some(b) => seq![digits[b as int / 16], digits[b as int % 16]],
                None => wild,
            },
    )
}

proof fn lemma_byte_word(b: u8, digits: Seq<char>)
    requires
        digits == "0123456789abcdef"@ || digits == "0123456789ABCDEF"@,
    ensures
        word_byte(seq![digits[b as int / 16], digits[b as int % 16]]) == Ok::<_, AobErrorView>(
            Some(b),
        ),
        !text::is_space(digits[b as int / 16]),
        !text::is_space(digits[b as int % 16]),
{
    reveal_strlit("0123456789abcdef");
    reveal_strlit("0123456789ABCDEF");
    reveal_strlit("??");
    reveal_strlit("*");
    let s = seq![digits[b as int / 16], digits[b as int % 16]];
    let (high, low) = (b as int / 16, b as int % 16);
    reveal_with_fuel(text::digits_value, 3);
    assert(text::digit_value(s[0], 16) == Some(high as nat));
    assert(text::digit_value(s[1], 16) == Some(low as nat));
    assert(s.drop_last().drop_last() =~= Seq::empty());
    assert(s.drop_last().last() == s[0]);
    assert(text::digits_value(s.drop_last(), 16, 255) == Ok::<nat, text::IntError>(high as nat));
    assert(high * 16 + low == b);
    assert(s[0] != '?' && s[0] != '*');
    assert(s != "??"@ && s != "*"@) by {
        assert(s[0] != "??"@[0]);
    }
}

proof fn lemma_words_pattern(pattern: Seq<Option<u8>>, digits: Seq<char>, wild: Seq<char>)
    requires
        digits == "0123456789abcdef"@ || digits == "0123456789ABCDEF"@,
        wild == "??"@ || wild == "*"@,
    ensures
        words_pattern(pattern_words(pattern, digits, wild)) == Ok::<_, AobErrorView>(pattern),
    decreases pattern.len(),
{
    if pattern.len() == 0 {
        assert(pattern =~= Seq::empty());
    } else {
        let rest = pattern.drop_last();
        lemma_words_pattern(rest, digits, wild);
        assert(pattern_words(pattern, digits, wild).drop_last() =~= pattern_words(
            rest,
            digits,
            wild,
        ));
        if let Some(b) = pattern.last() {
            lemma_byte_word(b, digits);
        }
        assert(rest.push(pattern.last()) =~= pattern);
    }
}

/// Every pattern with a byte in it is read back from its text: each byte as two hexadecimal
/// digits in either case, each wildcard as `??` or as `*`, with spaces between them.
pub proof fn patterns_are_read_back(pattern: Seq<Option<u8>>, digits: Seq<char>, wild: Seq<char>)
    requires
        exists|i: int| 0 <= i < pattern.len() && (#[trigger] pattern[i]) is Some,
        digits == "0123456789abcdef"@ || digits == "0123456789ABCDEF"@,
        wild == "??"@ || wild == "*"@,
    ensures
        text_pattern(text::joined(pattern_words(pattern, digits, wild), " "@)) == Ok::<
            _,
            AobErrorView,
        >(pattern),
{
    let words = pattern_words(pattern, digits, wild);
    reveal_strlit("??");
    reveal_strlit("*");
    assert forall|i: int| 0 <= i < words.len() implies {
        &&& (#[trigger] words[i]).len() > 0
        &&& forall|k: int| 0 <= k < words[i].len() ==> !text::is_space(#[trigger] words[i][k])
    } by {
        if let Some(b) = pattern[i] {
            lemma_byte_word(b, digits);
        }
    }
    text::words_of_joined(words);
    lemma_words_pattern(pattern, digits, wild);
    assert(has_fixed(pattern));
}

/// A word of a pattern is a wildcard if and only if it is `??` or `*`; every other word is a
/// byte in hexadecimal or an error that names it.
pub proof fn only_two_words_are_wildcards(w: Seq<char>)
    ensures
        word_byte(w) == Ok::<Option<u8>, AobErrorView>(None) <==> w == "??"@ || w == "*"@,
        word_byte(w) matches Ok(Some(b)) ==> text::number(w, 16, 255) == Ok::<nat, text::IntError>(
            b as nat,
        ),
        word_byte(w) matches Err(e) ==> e == AobErrorView::BadByte(w) && text::number(
            w,
            16,
            255,
        ) is Err,
{
}

/// A text without a word, and one of wildcards alone, is no pattern.
pub proof fn patterns_need_a_byte(s: Seq<char>)
    ensures
        text::words_of(s).len() == 0 ==> text_pattern(s) == Err::<Seq<Option<u8>>, _>(
            AobErrorView::Empty,
        ),
        text::words_of(s).len() > 0 && (forall|i: int|
            0 <= i < text::words_of(s).len() ==> (#[trigger] text::words_of(s)[i] == "??"@
                || text::words_of(s)[i] == "*"@)) ==> text_pattern(s) == Err::<
            Seq<Option<u8>>,
            _,
        >(AobErrorView::NoFixedByte),
{
    let words = text::words_of(s);
    if words.len() > 0 && forall|i: int|
        0 <= i < words.len() ==> (#[trigger] words[i] == "??"@ || words[i] == "*"@) {
        lemma_all_wild(words);
    }
}

proof fn lemma_all_wild(words: Seq<Seq<char>>)
    requires
        forall|i: int|
            0 <= i < words.len() ==> (#[trigger] words[i] == "??"@ || words[i] == "*"@),
    ensures
        words_pattern(words) == Ok::<_, AobErrorView>(
            Seq::new(words.len(), |i: int| None::<u8>),
        ),
    decreases words.len(),
{
    if words.len() == 0 {
        assert(Seq::new(words.len(), |i: int| None::<u8>) =~= Seq::empty());
    } else {
        let rest = words.drop_last();
        assert forall|i: int| 0 <= i < rest.len() implies (#[trigger] rest[i] == "??"@ || rest[i]
            == "*"@) by {
            assert(rest[i] == words[i]);
        }
        lemma_all_wild(rest);
        assert(words[words.len() - 1] == words.last());
        assert(Seq::new(rest.len(), |i: int| None::<u8>).push(None) =~= Seq::new(
            words.len(),
            |i: int| None::<u8>,
        ));
    }
}

// ─── Search ─────────────────────────────────────────────────────────────────

/// How rare a byte is in memory, from 0 (everywhere) to 3.
pub open spec fn rarity(b: u8) -> u8 {
    if b == 0 || b == 0xff {
        0
    } else if b <= 0x0f || b >= 0xf0 {
        1
    } else if 0x20 <= b <= 0x7e {
        2
    } else {
        3
    }
}

/// How rare a byte is in memory, from 0 (everywhere) to 3.
pub fn byte_rarity(b: u8) -> (r: u8)
    ensures
        r == rarity(b),
{
    if b == 0 || b == 0xff {
        0
    } else if b <= 0x0f || b >= 0xf0 {
        1
    } else if 0x20 <= b && b <= 0x7e {
        2
    } else {
        3
    }
}

/// Index of a fixed byte of the pattern than which none is rarer.
pub fn pick_anchor(pattern: &[Option<u8>]) -> (r: usize)
    requires
        has_fixed(pattern@),
    ensures
        r < pattern@.len(),
        pattern@[r as int] is Some,
        forall|i: int|
            0 <= i < pattern@.len() ==> ((#[trigger] pattern@[i]) matches Some(b) ==> rarity(b)
                <= rarity(pattern@[r as int]->0)),
{
    let mut best: usize = pattern.len();
    let mut best_rarity: u8 = 0;
    let mut i: usize = 0;
    while i < pattern.len()
        invariant
            i <= pattern@.len(),
            best <= pattern@.len(),
            best < pattern@.len() ==> pattern@[best as int] is Some && best_rarity == rarity(
                pattern@[best as int]->0,
            ),
            best == pattern@.len() ==> forall|k: int|
                0 <= k < i ==> (#[trigger] pattern@[k]) is None,
            best < pattern@.len() ==> forall|k: int|
                0 <= k < i ==> ((#[trigger] pattern@[k]) matches Some(b) ==> rarity(b)
                    <= best_rarity),
        decreases pattern@.len() - i,
    {
        if let Some(b) = pattern[i] {
            let score: u8 = byte_rarity(b);
            if best == pattern.len() || score > best_rarity {
                best = i;
                best_rarity = score;
            }
        }
        i += 1;
    }
    best
}

/// The pattern matches at offset `o`: each of its bytes is a wildcard or the one that stands
/// there.
pub open spec fn matches_at(data: Seq<u8>, pattern: Seq<Option<u8>>, o: int) -> bool {
    &&& 0 <= o
    &&& o + pattern.len() <= data.len()
    &&& forall|i: int|
        0 <= i < pattern.len() ==> ((#[trigger] pattern[i]) matches Some(b) ==> data[o + i] == b)
}

/// Every offset at which the pattern matches.
pub open spec fn matches(data: Seq<u8>, pattern: Seq<Option<u8>>) -> Seq<int> {
    buffer::offsets(|o: int| matches_at(data, pattern, o), data.len() + 1)
}

fn test_at(data: &[u8], pattern: &[Option<u8>], anchor: usize, o: usize) -> (r: bool)
    requires
        anchor < pattern@.len(),
        o + pattern@.len() <= data@.len(),
    ensures
        r == matches_at(data@, pattern@, o as int),
{
    assert(o + pattern.len() <= data.len());
    if let Some(b) = pattern[anchor] {
        if data[o + anchor] != b {
            assert(!matches_at(data@, pattern@, o as int)) by {
                assert(pattern@[anchor as int] is Some);
            }
            return false;
        }
    }
    let mut i: usize = 0;
    while i < pattern.len()
        invariant
            i <= pattern@.len(),
            o + pattern@.len() <= data.len(),
            data.len() == data@.len(),
            forall|k: int|
                0 <= k < i ==> ((#[trigger] pattern@[k]) matches Some(b) ==> data@[o + k] == b),
        decreases pattern@.len() - i,
    {
        if let Some(b) = pattern[i] {
            if data[o + i] != b {
                assert(!matches_at(data@, pattern@, o as int)) by {
                    assert(pattern@[i as int] is Some);
                }
                return false;
            }
        }
        i += 1;
    }
    true
}

/// The offsets of `data` at which the pattern matches.
pub fn find_matches(data: &[u8], pattern: &[Option<u8>], anchor: usize) -> (r: Vec<usize>)
    requires
        anchor < pattern@.len(),
    ensures
        buffer::ints(r@) == matches(data@, pattern@),
        forall|k: int| 0 <= k < r@.len() ==> r@[k] + pattern@.len() <= data@.len(),
{
    let ghost good = |o: int| matches_at(data@, pattern@, o);
    let mut r: Vec<usize> = Vec::new();
    let n: usize = data.len();
    let w: usize = pattern.len();
    let mut o: usize = 0;
    assert(buffer::ints(r@) =~= buffer::offsets(good, 0));
    while o < n && w <= n - o
        invariant
            o <= n,
            n == data@.len(),
            w == pattern@.len(),
            anchor < w,
            good == (|o: int| matches_at(data@, pattern@, o)),
            buffer::ints(r@) == buffer::offsets(good, o as nat),
            forall|k: int| 0 <= k < r@.len() ==> r@[k] + w <= n,
        decreases n - o,
    {
        let ghost before = buffer::ints(r@);
        if test_at(data, pattern, anchor, o) {
            r.push(o);
            assert(buffer::ints(r@) =~= before.push(o as int));
        }
        o += 1;
    }
    proof {
        buffer::lemma_nothing_between(good, o as nat, (n + 1) as nat);
    }
    r
}

// ─── Regions ────────────────────────────────────────────────────────────────

/// What a list of reads gave, one after the other.
pub open spec fn read_bytes(events: Seq<MemEvent>) -> Seq<u8>
    decreases events.len(),
{
    if events.len() == 0 {
        Seq::empty()
    } else {
        read_bytes(events.drop_last()) + match events.last()->Read_outcome {
            Ok((n, buffer)) => buffer.take(n as int),
            Err(_) => Seq::empty(),
        }
    }
}

/// The addresses that offsets into a region stand for.
pub open spec fn addresses(start: u64, at: Seq<int>) -> Seq<u64> {
    Seq::new(at.len(), |i: int| (start + at[i]) as u64)
}

/// Where the pattern matches in what was read of a region.
pub open spec fn region_matches(
    events: Seq<MemEvent>,
    region: RegionView,
    pattern: Seq<Option<u8>>,
) -> Seq<u64> {
    addresses(region.start, matches(read_bytes(events), pattern))
}

/// A pattern matches the same bytes wherever they stand.
proof fn lemma_same_bytes_match(
    a: Seq<u8>,
    i: int,
    b: Seq<u8>,
    j: int,
    pattern: Seq<Option<u8>>,
)
    requires
        0 <= i && i + pattern.len() <= a.len(),
        0 <= j && j + pattern.len() <= b.len(),
        a.subrange(i, i + pattern.len()) == b.subrange(j, j + pattern.len()),
    ensures
        matches_at(a, pattern, i) == matches_at(b, pattern, j),
{
    let (x, y) = (a.subrange(i, i + pattern.len()), b.subrange(j, j + pattern.len()));
    if matches_at(a, pattern, i) {
        assert forall|k: int| 0 <= k < pattern.len() implies ((#[trigger] pattern[k]) matches Some(
            v,
        ) ==> b[j + k] == v) by {
            assert(x[k] == a[i + k] && y[k] == b[j + k]);
        }
    }
    if matches_at(b, pattern, j) {
        assert forall|k: int| 0 <= k < pattern.len() implies ((#[trigger] pattern[k]) matches Some(
            v,
        ) ==> a[i + k] == v) by {
            assert(x[k] == a[i + k] && y[k] == b[j + k]);
        }
    }
}

/// A window over the end of the data finds what is new.
proof fn lemma_window(
    data: Seq<u8>,
    more: Seq<u8>,
    pattern: Seq<Option<u8>>,
    keep: int,
)
    requires
        pattern.len() > 0,
        keep == if data.len() < pattern.len() - 1 {
            data.len() as int
        } else {
            pattern.len() - 1
        },
    ensures
        matches(data + more, pattern) == matches(data, pattern) + buffer::shifted(
            matches(data.skip(data.len() - keep) + more, pattern),
            data.len() - keep,
        ),
{
    let whole = data + more;
    let from = (data.len() - keep) as nat;
    let window = data.skip(from as int) + more;
    let f = |o: int| matches_at(data, pattern, o);
    let g = |o: int| matches_at(whole, pattern, o);
    let late = |p: int| g(from + p);
    let h = |p: int| matches_at(window, pattern, p);
    assert(whole.len() == data.len() + more.len());
    assert forall|o: int| from <= o < data.len() + 1 implies !#[trigger] f(o) by {}
    buffer::lemma_nothing_between(f, from, data.len() + 1);
    assert forall|o: int| 0 <= o < from implies #[trigger] f(o) == g(o) by {
        let w = pattern.len() as int;
        assert(data.subrange(o, o + w) =~= whole.subrange(o, o + w));
        lemma_same_bytes_match(data, o, whole, o, pattern);
    }
    buffer::lemma_offsets_agree(f, g, from);
    buffer::lemma_offsets_split(g, from, (window.len() + 1) as nat);
    assert forall|p: int| 0 <= p < window.len() + 1 implies #[trigger] late(p) == h(p) by {
        let w = pattern.len() as int;
        if p + w <= window.len() {
            assert(window.subrange(p, p + w) =~= whole.subrange(from + p, from + p + w));
            lemma_same_bytes_match(window, p, whole, from + p, pattern);
        }
    }
    buffer::lemma_offsets_agree(late, h, (window.len() + 1) as nat);
    assert(from + (window.len() + 1) == whole.len() + 1);
}

/// Adds the addresses of hits in a window that lies `from` bytes into a region.
fn push_addresses(out: &mut Vec<u64>, start: u64, from: u64, hits: &Vec<usize>)
    requires
        forall|j: int| 0 <= j < hits@.len() ==> start + from + #[trigger] hits@[j] <= u64::MAX,
    ensures
        final(out)@ == old(out)@ + addresses(
            start,
            buffer::shifted(buffer::ints(hits@), from as int),
        ),
{
    let ghost before = out@;
    let ghost new = addresses(start, buffer::shifted(buffer::ints(hits@), from as int));
    let mut k: usize = 0;
    assert(before + new.take(0) =~= before);
    while k < hits.len()
        invariant
            k <= hits@.len(),
            new == addresses(start, buffer::shifted(buffer::ints(hits@), from as int)),
            forall|j: int| 0 <= j < hits@.len() ==> start + from + #[trigger] hits@[j] <= u64::MAX,
            out@ == before + new.take(k as int),
        decreases hits@.len() - k,
    {
        let hit: usize = hits[k];
        out.push(start + from + hit as u64);
        assert(out@ =~= before + new.take(k + 1));
        k += 1;
    }
    assert(new.take(hits@.len() as int) =~= new);
}

/// Reads a region chunk by chunk and adds the addresses at which the pattern matches.
#[verifier::spinoff_prover]
#[verifier::rlimit(40)]
pub fn scan_region_for_aob<M: MemoryAccess>(
    mem: &mut M,
    pid: u32,
    region: &MapRegion,
    pattern: &[Option<u8>],
    anchor: usize,
    out: &mut Vec<u64>,
)
    requires
        anchor < pattern@.len(),
    ensures
        access::follows(*final(mem), *old(mem)),
        engine::reads_region(access::since(final(mem).trace(), old(mem).trace()), pid, region@),
        final(out)@ == old(out)@ + region_matches(
            access::since(final(mem).trace(), old(mem).trace()),
            region@,
            pattern@,
        ),
{
    let ghost before = mem.trace();
    let ghost sofar = out@;
    let ghost mut events: Seq<MemEvent> = Seq::empty();
    let size: u64 = if region.start <= region.end { region.end - region.start } else { 0 };
    let mut offset: u64 = 0;
    let mut open = true;
    let mut window: Vec<u8> = Vec::new();
    proof {
        assert(before + events =~= before);
        let none = |o: int| matches_at(read_bytes(events), pattern@, o);
        buffer::lemma_nothing_between(none, 0, 1);
        assert(sofar + region_matches(events, region@, pattern@) =~= sofar);
        assert(window@ =~= read_bytes(events).skip(0));
    }
    while open && offset < size
        invariant
            anchor < pattern@.len(),
            pattern@.len() == pattern.len(),
            size == region@.span(),
            size > 0 ==> region.start + size <= u64::MAX,
            offset <= size,
            mem.trace() == before + events,
            mem.answers() == old(mem).answers(),
            old(mem).sound() ==> mem.sound(),
            forall|j: int|
                0 <= j < events.len() ==> {
                    &&& #[trigger] events[j] is Read
                    &&& events[j]->Read_pid == pid
                    &&& events[j]->Read_address == region.start + j * DEFAULT_CHUNK_SIZE
                    &&& events[j]->wanted == engine::chunk_len(size as nat, j)
                    &&& access::fills(events[j])
                    &&& j * DEFAULT_CHUNK_SIZE < size
                },
            forall|j: int| 0 <= j < events.len() - 1 ==> engine::full(#[trigger] events[j]),
            open ==> (forall|j: int|
                0 <= j < events.len() ==> engine::full(#[trigger] events[j])),
            open ==> offset == events.len() * DEFAULT_CHUNK_SIZE || offset == size,
            open ==> events.len() * DEFAULT_CHUNK_SIZE >= offset,
            !open ==> events.len() > 0 && !engine::full(events.last()),
            open ==> read_bytes(events).len() == offset,
            open ==> window@.len() == (if offset < pattern@.len() - 1 {
                offset as int
            } else {
                pattern@.len() - 1
            }),
            open ==> window@ == read_bytes(events).skip(offset - window@.len()),
            out@ == sofar + region_matches(events, region@, pattern@),
        decreases (if open { 1int } else { 0int }), size - offset,
    {
        let read_len: usize = if size - offset < DEFAULT_CHUNK_SIZE as u64 {
            (size - offset) as usize
        } else {
            DEFAULT_CHUNK_SIZE
        };
        let address: u64 = region.start + offset;
        let mut chunk: Vec<u8> = vec![0u8; read_len];
        let result = mem.read(pid, address, chunk.as_mut_slice());
        let ghost event = mem.trace().last();
        let ghost earlier = events;
        let ghost data = read_bytes(earlier);
        proof {
            events = events.push(event);
            assert(mem.trace() =~= before + events);
            assert(events.drop_last() =~= earlier);
        }
        match result {
            Err(_) => {
                open = false;
                assert(read_bytes(events) =~= data);
            },
            Ok(n) => {
                let keep: usize = window.len();
                let ghost kept = window@;
                let piece = slice_subrange(chunk.as_slice(), 0, n);
                let ghost more = chunk@.take(n as int);
                assert(piece@ =~= more);
                window.extend_from_slice(piece);
                assert(window@ =~= kept + more);
                let hits = find_matches(window.as_slice(), pattern, anchor);
                let from: u64 = offset - keep as u64;
                let ghost old_at = matches(data, pattern@);
                let ghost new_at = buffer::shifted(matches(window@, pattern@), from as int);
                proof {
                    lemma_window(data, more, pattern@, keep as int);
                    assert(read_bytes(events) =~= data + more);
                }
                push_addresses(out, region.start, from, &hits);
                proof {
                    assert(addresses(region.start, old_at + new_at) =~= addresses(
                        region.start,
                        old_at,
                    ) + addresses(region.start, new_at));
                    assert(out@ =~= sofar + region_matches(events, region@, pattern@));
                }
                if n < read_len {
                    open = false;
                } else {
                    offset += n as u64;
                    let total: usize = window.len();
                    let tail: usize = if total < pattern.len() - 1 {
                        total
                    } else {
                        pattern.len() - 1
                    };
                    let rest = window.split_off(total - tail);
                    window = rest;
                    assert(window@ =~= (data + more).skip(offset - tail));
                }
            },
        }
    }
    assert(access::since(mem.trace(), before) =~= events);
}

/// The regions that a byte search reads: the safe ones, and the read-only ones where asked
/// for, as far as they can be read.
pub open spec fn aob_target(r: RegionView, include_readonly: bool) -> bool {
    &&& r.permissions.read
    &&& r.safety == RegionSafety::Safe || (include_readonly && r.safety
        == RegionSafety::ReadOnly)
}

/// The regions that a byte search reads.
pub open spec fn aob_targets(regions: Seq<RegionView>, include_readonly: bool) -> Seq<RegionView> {
    regions.filter(|r: RegionView| aob_target(r, include_readonly))
}

/// Where the pattern matches in what was read of each region.
pub open spec fn all_matches(
    parts: Seq<Seq<MemEvent>>,
    targets: Seq<RegionView>,
    pattern: Seq<Option<u8>>,
) -> Seq<u64>
    decreases parts.len(),
{
    if parts.len() == 0 {
        Seq::empty()
    } else {
        all_matches(parts.drop_last(), targets, pattern) + region_matches(
            parts.last(),
            targets[parts.len() - 1],
            pattern,
        )
    }
}

/// The regions were read one after the other, and this is where the pattern matches.
pub open spec fn aob_gave(
    events: Seq<MemEvent>,
    pid: u32,
    targets: Seq<RegionView>,
    pattern: Seq<Option<u8>>,
    found: Seq<u64>,
) -> bool {
    exists|parts: Seq<Seq<MemEvent>>| #[trigger]
        engine::reads_regions(parts, pid, targets) && events == engine::chained(parts) && found
            == all_matches(parts, targets, pattern)
}

/// What a byte search did and found.
pub open spec fn aob_scan_ran(
    events: Seq<MemEvent>,
    pid: u32,
    pattern: Seq<Option<u8>>,
    include_readonly: bool,
    result: Result<Seq<u64>, Seq<char>>,
) -> bool {
    &&& events.len() > 0
    &&& events[0] is Maps
    &&& events[0]->Maps_pid == pid
    &&& match events[0]->Maps_outcome {
        Err(e) => events.len() == 1 && result == Err::<Seq<u64>, _>(e),
        Ok(regions) => {
            &&& result matches Ok(found)
            &&& aob_gave(
                events.skip(1),
                pid,
                aob_targets(regions, include_readonly),
                pattern,
                found,
            )
        },
    }
}

/// What a byte search came to.
pub open spec fn addresses_outcome(r: Result<Vec<u64>, AccessError>) -> Result<
    Seq<u64>,
    Seq<char>,
> {
    match r {
        Ok(v) => Ok(v@),
        Err(e) => Err(e@),
    }
}

proof fn lemma_all_matches_local(
    parts: Seq<Seq<MemEvent>>,
    a: Seq<RegionView>,
    b: Seq<RegionView>,
    pattern: Seq<Option<u8>>,
)
    requires
        parts.len() <= a.len() <= b.len(),
        forall|i: int| 0 <= i < parts.len() ==> a[i] == b[i],
    ensures
        all_matches(parts, a, pattern) == all_matches(parts, b, pattern),
    decreases parts.len(),
{
    if parts.len() > 0 {
        lemma_all_matches_local(parts.drop_last(), a, b, pattern);
    }
}

/// Searches the safe regions of a process, and the read-only ones where asked for, for a
/// pattern. Returns the addresses at which it matches.
pub fn aob_scan<M: MemoryAccess>(
    mem: &mut M,
    pid: u32,
    pattern: &[Option<u8>],
    include_readonly: bool,
) -> (r: Result<Vec<u64>, AccessError>)
    requires
        has_fixed(pattern@),
    ensures
        access::follows(*final(mem), *old(mem)),
        aob_scan_ran(
            access::since(final(mem).trace(), old(mem).trace()),
            pid,
            pattern@,
            include_readonly,
            addresses_outcome(r),
        ),
{
    let ghost start = mem.trace();
    let result = mem.read_maps(pid);
    let ghost maps_event = mem.trace().last();
    let regions = match result {
        Ok(regions) => regions,
        Err(e) => {
            assert(access::since(mem.trace(), start) =~= seq![maps_event]);
            return Err(e);
        },
    };
    let anchor: usize = pick_anchor(pattern);
    let ghost all = maps::region_views(regions@);
    let ghost good = |r: RegionView| aob_target(r, include_readonly);
    let ghost before = mem.trace();
    let ghost mut events: Seq<MemEvent> = Seq::empty();
    let ghost mut parts: Seq<Seq<MemEvent>> = Seq::empty();
    let mut found: Vec<u64> = Vec::new();
    let mut i: usize = 0;
    proof {
        assert(all.take(0).filter(good) =~= Seq::empty()) by {
            reveal(Seq::filter);
        }
        assert(before + events =~= before);
        assert(found@ =~= all_matches(parts, all.take(0).filter(good), pattern@));
    }
    while i < regions.len()
        invariant
            i <= regions@.len(),
            all == maps::region_views(regions@),
            good == (|r: RegionView| aob_target(r, include_readonly)),
            anchor < pattern@.len(),
            mem.trace() == before + events,
            mem.answers() == old(mem).answers(),
            old(mem).sound() ==> mem.sound(),
            events == engine::chained(parts),
            engine::reads_regions(parts, pid, all.take(i as int).filter(good)),
            found@ == all_matches(parts, all.take(i as int).filter(good), pattern@),
        decreases regions@.len() - i,
    {
        let region = &regions[i];
        let ghost old_targets = all.take(i as int).filter(good);
        let ghost targets = all.take(i + 1).filter(good);
        proof {
            assert(all.take(i + 1) =~= all.take(i as int).push(all[i as int]));
            assert(all[i as int] == region@);
            engine::lemma_filter_push(all.take(i as int), all[i as int], good);
        }
        if region.permissions.read && (region.safety == RegionSafety::Safe || (include_readonly
            && region.safety == RegionSafety::ReadOnly)) {
            let ghost middle = mem.trace();
            scan_region_for_aob(mem, pid, region, pattern, anchor, &mut found);
            proof {
                let new = access::since(mem.trace(), middle);
                let earlier = parts;
                access::trace_splits(mem.trace(), middle);
                assert((before + events) + new =~= before + (events + new));
                events = events + new;
                parts = parts.push(new);
                assert(parts.drop_last() =~= earlier);
                lemma_all_matches_local(earlier, old_targets, targets, pattern@);
            }
        }
        i += 1;
    }
    let r: Result<Vec<u64>, AccessError> = Ok(found);
    proof {
        assert(all.take(regions@.len() as int) =~= all);
        let since = access::since(mem.trace(), start);
        assert(before =~= start + seq![maps_event]);
        assert(mem.trace() =~= start + (seq![maps_event] + events));
        access::trace_grows(start, seq![maps_event] + events);
        assert(since.skip(1) =~= events);
        assert(engine::reads_regions(parts, pid, aob_targets(all, include_readonly)));
        assert(aob_gave(
            since.skip(1),
            pid,
            aob_targets(all, include_readonly),
            pattern@,
            found@,
        ));
    }
    r
}

/// The list holds every address at which the pattern matches in what was read of the regions,
/// and no other.
pub open spec fn exactly_the_matches(
    parts: Seq<Seq<MemEvent>>,
    targets: Seq<RegionView>,
    pattern: Seq<Option<u8>>,
    found: Seq<u64>,
) -> bool {
    &&& forall|i: int, o: int|
        0 <= i < parts.len() && 0 <= o && #[trigger] matches_at(read_bytes(parts[i]), pattern, o)
            ==> found.contains((targets[i].start + o) as u64)
    &&& forall|k: int|
        0 <= k < found.len() ==> matched_somewhere(#[trigger] found[k], parts, targets, pattern)
}

/// The pattern matches at the address, in what was read of one of the regions.
pub open spec fn matched_somewhere(
    address: u64,
    parts: Seq<Seq<MemEvent>>,
    targets: Seq<RegionView>,
    pattern: Seq<Option<u8>>,
) -> bool {
    exists|i: int, o: int|
        0 <= i < parts.len() && 0 <= o && #[trigger] matches_at(
            read_bytes(parts[i]),
            pattern,
            o,
        ) && address == (targets[i].start + o) as u64
}

proof fn lemma_all_matches_exact(
    parts: Seq<Seq<MemEvent>>,
    targets: Seq<RegionView>,
    pattern: Seq<Option<u8>>,
)
    requires
        parts.len() <= targets.len(),
    ensures
        exactly_the_matches(parts, targets, pattern, all_matches(parts, targets, pattern)),
    decreases parts.len(),
{
    if parts.len() > 0 {
        let rest = parts.drop_last();
        let n = parts.len() - 1;
        let data = read_bytes(parts[n]);
        let at = matches(data, pattern);
        let before = all_matches(rest, targets, pattern);
        let new = region_matches(parts[n], targets[n], pattern);
        let all = all_matches(parts, targets, pattern);
        lemma_all_matches_exact(rest, targets, pattern);
        let good = |o: int| matches_at(data, pattern, o);
        buffer::offsets_are_exact(good, data.len() + 1);
        assert forall|i: int, o: int|
            0 <= i < parts.len() && 0 <= o && #[trigger] matches_at(
                read_bytes(parts[i]),
                pattern,
                o,
            ) implies all.contains((targets[i].start + o) as u64) by {
            let address = (targets[i].start + o) as u64;
            if i < n {
                assert(matches_at(read_bytes(rest[i]), pattern, o));
                let k = choose|k: int| 0 <= k < before.len() && before[k] == address;
                assert(all[k] == address);
            } else {
                assert(good(o));
                let k = choose|k: int| 0 <= k < at.len() && at[k] == o;
                assert(new[k] == address);
                assert(all[before.len() + k] == address);
            }
        }
        assert forall|k: int| 0 <= k < all.len() implies matched_somewhere(
            #[trigger] all[k],
            parts,
            targets,
            pattern,
        ) by {
            if k < before.len() {
                assert(all[k] == before[k]);
                let (i, o) = choose|i: int, o: int|
                    0 <= i < rest.len() && 0 <= o && #[trigger] matches_at(
                        read_bytes(rest[i]),
                        pattern,
                        o,
                    ) && before[k] == (targets[i].start + o) as u64;
                assert(matches_at(read_bytes(parts[i]), pattern, o));
            } else {
                let o = at[k - before.len()];
                assert(all[k] == new[k - before.len()]);
                assert(good(o));
                assert(matches_at(read_bytes(parts[n]), pattern, o));
            }
        }
    }
}

/// A byte search misses no match and makes none up, also where a match lies across the border
/// of two reads.
pub proof fn byte_searches_find_every_match(
    events: Seq<MemEvent>,
    pid: u32,
    pattern: Seq<Option<u8>>,
    include_readonly: bool,
    found: Seq<u64>,
)
    requires
        aob_scan_ran(events, pid, pattern, include_readonly, Ok(found)),
    ensures
        exists|parts: Seq<Seq<MemEvent>>| #[trigger]
            engine::reads_regions(
                parts,
                pid,
                aob_targets(events[0]->Maps_outcome->Ok_0, include_readonly),
            ) && events.skip(1) == engine::chained(parts) && exactly_the_matches(
                parts,
                aob_targets(events[0]->Maps_outcome->Ok_0, include_readonly),
                pattern,
                found,
            ),
{
    let targets = aob_targets(events[0]->Maps_outcome->Ok_0, include_readonly);
    let parts = choose|parts: Seq<Seq<MemEvent>>| #[trigger]
        engine::reads_regions(parts, pid, targets) && events.skip(1) == engine::chained(parts)
            && found == all_matches(parts, targets, pattern);
    lemma_all_matches_exact(parts, targets, pattern);
    assert(engine::reads_regions(parts, pid, targets));
}

/// A byte search touches nothing but safe regions and, where asked for, read-only ones.
pub proof fn byte_searches_stay_in_their_regions(
    events: Seq<MemEvent>,
    pid: u32,
    pattern: Seq<Option<u8>>,
    include_readonly: bool,
    result: Result<Seq<u64>, Seq<char>>,
    regions: Seq<RegionView>,
)
    requires
        aob_scan_ran(events, pid, pattern, include_readonly, result),
        events[0]->Maps_outcome == Ok::<_, Seq<char>>(regions),
    ensures
        forall|k: int|
            1 <= k < events.len() ==> engine::inside(
                #[trigger] events[k],
                aob_targets(regions, include_readonly),
            ),
        forall|i: int|
            0 <= i < aob_targets(regions, include_readonly).len() ==> {
                let r = #[trigger] aob_targets(regions, include_readonly)[i];
                r.safety == RegionSafety::Safe || (include_readonly && r.safety
                    == RegionSafety::ReadOnly)
            },
{
    let targets = aob_targets(regions, include_readonly);
    let rest = events.skip(1);
    let found = result->Ok_0;
    let parts = choose|parts: Seq<Seq<MemEvent>>| #[trigger]
        engine::reads_regions(parts, pid, targets) && rest == engine::chained(parts) && found
            == all_matches(parts, targets, pattern);
    engine::region_reads_stay_inside(parts, pid, targets);
    assert forall|k: int| 1 <= k < events.len() implies engine::inside(
        #[trigger] events[k],
        targets,
    ) by {
        assert(rest[k - 1] == events[k]);
    }
    engine::lemma_filter_all(regions, |r: RegionView| aob_target(r, include_readonly));
}

// ─── Searches byte by byte ──────────────────────────────────────────────────

/// A read is for the byte at the address.
pub open spec fn is_for(e: MemEvent, address: int) -> bool {
    &&& e is Read
    &&& e->Read_outcome matches Ok((n, buffer))
    &&& e->Read_address <= address < e->Read_address + n
}

/// The byte that a read gave at the address.
pub open spec fn given(e: MemEvent, address: int) -> u8 {
    e->Read_outcome->Ok_0.1[address - e->Read_address]
}

/// One of the reads gave the byte at the address.
pub open spec fn byte_read(events: Seq<MemEvent>, address: int, b: u8) -> bool {
    exists|k: int|
        0 <= k < events.len() && #[trigger] is_for(events[k], address) && given(events[k], address)
            == b
}

/// Each read that is for the address gave the byte.
pub open spec fn byte_stands(events: Seq<MemEvent>, address: int, b: u8) -> bool {
    forall|k: int|
        0 <= k < events.len() && #[trigger] is_for(events[k], address) ==> given(
            events[k],
            address,
        ) == b
}

/// What was read of a region is, byte by byte, what its reads gave.
proof fn lemma_read_bytes(events: Seq<MemEvent>, pid: u32, region: RegionView, m: int)
    requires
        engine::reads_region(events, pid, region),
        0 <= m <= events.len(),
    ensures
        m < events.len() ==> read_bytes(events.take(m)).len() == m * DEFAULT_CHUNK_SIZE,
        read_bytes(events.take(m)).len() <= region.span(),
        forall|x: int|
            0 <= x < read_bytes(events.take(m)).len() ==> {
                let e = events[x / DEFAULT_CHUNK_SIZE as int];
                &&& 0 <= x / DEFAULT_CHUNK_SIZE as int
                &&& x / (DEFAULT_CHUNK_SIZE as int) < m
                &&& is_for(e, region.start + x)
                &&& #[trigger] read_bytes(events.take(m))[x] == given(e, region.start + x)
            },
        m == events.len() && (m > 0 ==> engine::full(events[m - 1])) ==> read_bytes(
            events.take(m),
        ).len() == region.span(),
    decreases m,
{
    let c = DEFAULT_CHUNK_SIZE as int;
    if m > 0 {
        let j = m - 1;
        let e = events[j];
        lemma_read_bytes(events, pid, region, j);
        assert(events.take(m).drop_last() =~= events.take(j));
        assert(events.take(m).last() == e);
        let before = read_bytes(events.take(j));
        let after = read_bytes(events.take(m));
        assert(before.len() == j * c);
        assert(e is Read);
        if m < events.len() {
            assert(engine::full(e));
            assert(events[m] is Read);
            assert(m * c < region.span());
            assert(m * c == j * c + c);
        }
        if let Ok((n, buffer)) = e->Read_outcome {
            assert(buffer.take(n as int).len() == n);
            assert(after.len() == j * c + n);
            assert(n <= c);
            assert forall|x: int| 0 <= x < after.len() implies {
                let f = events[x / c];
                &&& 0 <= x / c
                &&& x / c < m
                &&& is_for(f, region.start + x)
                &&& #[trigger] after[x] == given(f, region.start + x)
            } by {
                if x < before.len() {
                    assert(after[x] == before[x]);
                } else {
                    assert(x / c == j) by {
                        assert(j * c <= x < j * c + c);
                        vstd::arithmetic::div_mod::lemma_fundamental_div_mod_converse(
                            x,
                            c,
                            j,
                            x - j * c,
                        );
                    }
                    assert(after[x] == buffer.take(n as int)[x - j * c]);
                }
            }
        } else {
            assert(after =~= before);
        }
    } else {
        assert(events.take(0) =~= Seq::empty());
    }
}

/// A search that reads everything it asks for finds every place in a safe region, and in a
/// read-only one where that is asked for, at which all fixed bytes of the pattern stand; and
/// wherever it finds the pattern, its fixed bytes were read there.
pub proof fn byte_searches_find_the_bytes(
    events: Seq<MemEvent>,
    pid: u32,
    pattern: Seq<Option<u8>>,
    include_readonly: bool,
    found: Seq<u64>,
    regions: Seq<RegionView>,
    i: int,
    address: u64,
)
    requires
        aob_scan_ran(events, pid, pattern, include_readonly, Ok(found)),
        events[0]->Maps_outcome == Ok::<_, Seq<char>>(regions),
    ensures
        ({
            &&& forall|k: int|
                1 <= k < events.len() ==> ((#[trigger] events[k])->Read_outcome matches Ok(
                    (n, buffer),
                ) && n == events[k]->wanted)
            &&& 0 <= i < regions.len()
            &&& regions[i].permissions.read
            &&& regions[i].safety == RegionSafety::Safe || (include_readonly && regions[i].safety
                == RegionSafety::ReadOnly)
            &&& regions[i].start <= address
            &&& address + pattern.len() <= regions[i].end
            &&& forall|x: int|
                0 <= x < pattern.len() && (#[trigger] pattern[x]) is Some ==> byte_stands(
                    events,
                    address + x,
                    pattern[x]->0,
                )
        }) ==> found.contains(address),
        found.contains(address) ==> forall|x: int|
            0 <= x < pattern.len() && (#[trigger] pattern[x]) is Some ==> byte_read(
                events,
                address + x,
                pattern[x]->0,
            ),
{
    let targets = aob_targets(regions, include_readonly);
    let rest = events.skip(1);
    byte_searches_find_every_match(events, pid, pattern, include_readonly, found);
    let parts = choose|parts: Seq<Seq<MemEvent>>| #[trigger]
        engine::reads_regions(parts, pid, targets) && rest == engine::chained(parts)
            && exactly_the_matches(parts, targets, pattern, found);
    if ({
        &&& forall|k: int|
            1 <= k < events.len() ==> ((#[trigger] events[k])->Read_outcome matches Ok((n, buffer))
                && n == events[k]->wanted)
        &&& 0 <= i < regions.len()
        &&& regions[i].permissions.read
        &&& regions[i].safety == RegionSafety::Safe || (include_readonly && regions[i].safety
            == RegionSafety::ReadOnly)
        &&& regions[i].start <= address
        &&& address + pattern.len() <= regions[i].end
        &&& forall|x: int|
            0 <= x < pattern.len() && (#[trigger] pattern[x]) is Some ==> byte_stands(
                events,
                address + x,
                pattern[x]->0,
            )
    }) {
        engine::lemma_filter_has(regions, |r: RegionView| aob_target(r, include_readonly), i);
        let t = choose|t: int| 0 <= t < targets.len() && targets[t] == regions[i];
        lemma_found_where_it_stands(events, pid, pattern, parts, targets, t, address);
        assert(found.contains((targets[t].start + (address - targets[t].start)) as u64));
    }
    if found.contains(address) {
        let m = choose|m: int| 0 <= m < found.len() && found[m] == address;
        assert(matched_somewhere(found[m], parts, targets, pattern));
        let (t, o) = choose|t: int, o: int|
            0 <= t < parts.len() && 0 <= o && #[trigger] matches_at(
                read_bytes(parts[t]),
                pattern,
                o,
            ) && address == (targets[t].start + o) as u64;
        let whole = parts[t].take(parts[t].len() as int);
        assert(whole =~= parts[t]);
        assert(engine::reads_region(parts[t], pid, targets[t]));
        lemma_read_bytes(parts[t], pid, targets[t], parts[t].len() as int);
        assert(address == targets[t].start + o);
        assert forall|x: int| 0 <= x < pattern.len() && (#[trigger] pattern[x]) is Some implies byte_read(
            events,
            address + x,
            pattern[x]->0,
        ) by {
            let data = read_bytes(parts[t]);
            let e = parts[t][(o + x) / DEFAULT_CHUNK_SIZE as int];
            assert(data[o + x] == given(e, targets[t].start + (o + x)));
            let k = engine::lemma_chained_has(parts, t, (o + x) / DEFAULT_CHUNK_SIZE as int);
            assert(events[k + 1] == rest[k]);
            assert(is_for(events[k + 1], address + x));
        }
    }
}

proof fn lemma_found_where_it_stands(
    events: Seq<MemEvent>,
    pid: u32,
    pattern: Seq<Option<u8>>,
    parts: Seq<Seq<MemEvent>>,
    targets: Seq<RegionView>,
    t: int,
    address: u64,
)
    requires
        events.len() > 0,
        engine::reads_regions(parts, pid, targets),
        events.skip(1) == engine::chained(parts),
        0 <= t < targets.len(),
        forall|k: int|
            1 <= k < events.len() ==> ((#[trigger] events[k])->Read_outcome matches Ok((n, buffer))
                && n == events[k]->wanted),
        targets[t].start <= address,
        address + pattern.len() <= targets[t].end,
        forall|x: int|
            0 <= x < pattern.len() && (#[trigger] pattern[x]) is Some ==> byte_stands(
                events,
                address + x,
                pattern[x]->0,
            ),
    ensures
        matches_at(read_bytes(parts[t]), pattern, address - targets[t].start),
{
    let rest = events.skip(1);
    let region = targets[t];
    let part = parts[t];
    let o = address - region.start;
    let data = read_bytes(part);
    assert(engine::reads_region(part, pid, region));
    assert forall|j: int| 0 <= j < part.len() implies engine::full(#[trigger] part[j]) by {
        let k = engine::lemma_chained_has(parts, t, j);
        assert(events[k + 1] == rest[k]);
        assert(part[j] is Read);
    }
    assert(part.take(part.len() as int) =~= part);
    lemma_read_bytes(part, pid, region, part.len() as int);
    assert(data.len() == region.span());
    assert forall|x: int| 0 <= x < pattern.len() implies ((#[trigger] pattern[x]) matches Some(b)
        ==> data[o + x] == b) by {
        if pattern[x] is Some {
            let j = (o + x) / DEFAULT_CHUNK_SIZE as int;
            let e = part[j];
            assert(data[o + x] == given(e, region.start + (o + x)));
            let k = engine::lemma_chained_has(parts, t, j);
            assert(events[k + 1] == rest[k]);
            assert(byte_stands(events, address + x, pattern[x]->0));
            assert(is_for(events[k + 1], address + x));
        }
    }
}

/// Zeros and all ones are the most common bytes, then small and large ones, then printable
/// characters; every other byte is rarer.
pub proof fn common_bytes_are_the_least_rare(a: u8, b: u8)
    ensures
        (a == 0 || a == 255) && !(b == 0 || b == 255) ==> rarity(a) < rarity(b),
        (a < 16 || a >= 240) && 16 <= b < 240 ==> rarity(a) < rarity(b),
        32 <= a <= 126 && (16 <= b < 32 || 127 <= b < 240) ==> rarity(a) < rarity(b),
        rarity(a) <= 3,
{
}

} // verus!
