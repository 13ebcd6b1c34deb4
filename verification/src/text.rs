//! Text primitives over character sequences: case folding, searching, splitting, trimming,
//! and numerals.

use vstd::prelude::*;

verus! {

/// `String::push` appends one character to the end of the string.
pub assume_specification[ String::push ](s: &mut String, c: char)
    ensures
        final(s)@ == old(s)@.push(c),
;

// ─── Conversion ─────────────────────────────────────────────────────────────

/// The characters of a string slice, in order.
pub fn to_chars(s: &str) -> (r: Vec<char>)
    ensures
        r@ == s@,
{
    let mut r: Vec<char> = Vec::new();
    for c in it: s.chars()
        invariant
            it.seq() == s@,
            r@ == s@.take(it.index()),
    {
        r.push(c);
    }
    r
}

/// The string that the characters spell.
pub fn from_chars(cs: &[char]) -> (r: String)
    ensures
        r@ == cs@,
{
    let mut r = String::new();
    let mut i: usize = 0;
    while i < cs.len()
        invariant
            i <= cs@.len(),
            r@ == cs@.take(i as int),
        decreases cs@.len() - i,
    {
        r.push(cs[i]);
        i += 1;
        assert(cs@.take(i as int) =~= cs@.take(i - 1).push(cs@[i - 1]));
    }
    assert(cs@.take(cs@.len() as int) =~= cs@);
    r
}

/// The part of `s` from `from` up to, not including, `to`.
pub fn part(s: &[char], from: usize, to: usize) -> (r: Vec<char>)
    requires
        from <= to <= s@.len(),
    ensures
        r@ == s@.subrange(from as int, to as int),
{
    let mut r: Vec<char> = Vec::new();
    let mut i: usize = from;
    while i < to
        invariant
            from <= i <= to <= s@.len(),
            r@ == s@.subrange(from as int, i as int),
        decreases to - i,
    {
        r.push(s[i]);
        i += 1;
        assert(s@.subrange(from as int, i as int) =~= s@.subrange(from as int, i - 1).push(s@[i - 1]));
    }
    r
}

// ─── Case ───────────────────────────────────────────────────────────────────

/// ASCII lower case of one character.
pub open spec fn lower(c: char) -> char {
    if 'A' <= c && c <= 'Z' {
        (c as u8 + 32) as char
    } else {
        c
    }
}

/// ASCII lower case of every character.
pub open spec fn lower_all(s: Seq<char>) -> Seq<char> {
    Seq::new(s.len(), |i: int| lower(s[i]))
}

/// Lower-cases the ASCII letters and keeps every other character.
pub fn to_lower(s: &[char]) -> (r: Vec<char>)
    ensures
        r@ == lower_all(s@),
{
    let mut r: Vec<char> = Vec::new();
    let mut i: usize = 0;
    while i < s.len()
        invariant
            i <= s@.len(),
            r@ == lower_all(s@).take(i as int),
        decreases s@.len() - i,
    {
        let c = s[i];
        let l = if 'A' <= c && c <= 'Z' {
            (c as u8 + 32) as char
        } else {
            c
        };
        r.push(l);
        i += 1;
        assert(lower_all(s@).take(i as int) =~= lower_all(s@).take(i - 1).push(lower(s@[i - 1])));
    }
    assert(lower_all(s@).take(s@.len() as int) =~= lower_all(s@));
    r
}

// ─── Searching ──────────────────────────────────────────────────────────────

/// `needle` occurs in `s` at position `at`.
pub open spec fn occurs_at(s: Seq<char>, needle: Seq<char>, at: int) -> bool {
    0 <= at && at + needle.len() <= s.len() && s.subrange(at, at + needle.len()) == needle
}

/// `needle` occurs somewhere in `s`.
pub open spec fn occurs(s: Seq<char>, needle: Seq<char>) -> bool {
    exists|at: int| occurs_at(s, needle, at)
}

/// Whether `needle` occurs in `s` at position `at`.
pub fn has_at(s: &[char], needle: &[char], at: usize) -> (r: bool)
    ensures
        r == occurs_at(s@, needle@, at as int),
{
    if needle.len() > s.len() || at > s.len() - needle.len() {
        return false;
    }
    let mut i: usize = 0;
    while i < needle.len()
        invariant
            i <= needle@.len(),
            at + needle@.len() <= s.len(),
            forall|k: int| 0 <= k < i ==> s@[at + k] == needle@[k],
        decreases needle@.len() - i,
    {
        if s[at + i] != needle[i] {
            assert(s@.subrange(at as int, at + needle@.len())[i as int] != needle@[i as int]);
            return false;
        }
        i += 1;
    }
    assert(s@.subrange(at as int, at + needle@.len()) =~= needle@);
    true
}

/// Whether `needle` occurs anywhere in `s`.
pub fn contains(s: &[char], needle: &[char]) -> (r: bool)
    ensures
        r == occurs(s@, needle@),
{
    if needle.len() > s.len() {
        assert(forall|at: int| !occurs_at(s@, needle@, at));
        return false;
    }
    let last = s.len() - needle.len();
    let mut at: usize = 0;
    loop
        invariant
            at <= last,
            last + needle@.len() == s@.len(),
            forall|k: int| 0 <= k < at ==> !occurs_at(s@, needle@, k),
        decreases last - at,
    {
        if has_at(s, needle, at) {
            assert(occurs_at(s@, needle@, at as int));
            return true;
        }
        if at == last {
            assert(forall|k: int| !occurs_at(s@, needle@, k));
            return false;
        }
        at += 1;
    }
}

/// Whether the text `word` occurs anywhere in `s`.
pub fn mentions(s: &[char], word: &str) -> (r: bool)
    ensures
        r == occurs(s@, word@),
{
    let needle = to_chars(word);
    contains(s, needle.as_slice())
}

/// Whether `s` begins with the text `word`.
pub fn begins(s: &[char], word: &str) -> (r: bool)
    ensures
        r == word@.is_prefix_of(s@),
{
    let needle = to_chars(word);
    let r = has_at(s, needle.as_slice(), 0);
    proof {
        if needle@.len() <= s@.len() {
            assert(s@.subrange(0, needle@.len() as int) =~= s@.take(needle@.len() as int));
        }
    }
    r
}

/// Whether `s` ends with the text `word`.
pub fn ends(s: &[char], word: &str) -> (r: bool)
    ensures
        r == word@.is_suffix_of(s@),
{
    let needle = to_chars(word);
    if needle.len() > s.len() {
        return false;
    }
    has_at(s, needle.as_slice(), s.len() - needle.len())
}

/// Whether `s` is exactly the text `word`.
pub fn is(s: &[char], word: &str) -> (r: bool)
    ensures
        r == (s@ == word@),
{
    let needle = to_chars(word);
    if needle.len() != s.len() {
        return false;
    }
    let r = has_at(s, needle.as_slice(), 0);
    assert(s@.subrange(0, s@.len() as int) =~= s@);
    r
}

/// Whether two texts are the same.
pub fn same_text(a: &str, b: &str) -> (r: bool)
    ensures
        r == (a@ == b@),
{
    let a = to_chars(a);
    is(a.as_slice(), b)
}

/// Position of the first `c` in `s`, or the length of `s` where there is none.
pub open spec fn first(s: Seq<char>, c: char) -> int
    decreases s.len(),
{
    if s.len() == 0 || s[0] == c {
        0
    } else {
        1 + first(s.drop_first(), c)
    }
}

proof fn lemma_first(s: Seq<char>, c: char, k: int)
    requires
        0 <= k <= s.len(),
        forall|j: int| 0 <= j < k ==> s[j] != c,
        k == s.len() || s[k] == c,
    ensures
        first(s, c) == k,
    decreases s.len(),
{
    if k > 0 {
        assert(forall|j: int| 0 <= j < k - 1 ==> s.drop_first()[j] == s[j + 1]);
        lemma_first(s.drop_first(), c, k - 1);
    }
}

/// Position of the first `c` in `s`, or the length of `s` where there is none.
pub fn find(s: &[char], c: char) -> (r: usize)
    ensures
        r == first(s@, c),
        r <= s@.len(),
        r < s@.len() ==> s@[r as int] == c,
{
    let mut i: usize = 0;
    while i < s.len() && s[i] != c
        invariant
            i <= s@.len(),
            forall|j: int| 0 <= j < i ==> s@[j] != c,
        decreases s@.len() - i,
    {
        i += 1;
    }
    proof {
        lemma_first(s@, c, i as int);
    }
    i
}

/// A text occurs in another one exactly where that is something, then the text, then something.
pub proof fn occurs_means_inside(s: Seq<char>, needle: Seq<char>)
    ensures
        occurs(s, needle) <==> exists|before: Seq<char>, after: Seq<char>|
            s == #[trigger] (before + needle + after),
{
    if occurs(s, needle) {
        let at = choose|at: int| occurs_at(s, needle, at);
        let before = s.take(at);
        let after = s.skip(at + needle.len());
        assert(s =~= before + needle + after) by {
            assert forall|i: int| 0 <= i < s.len() implies s[i] == (before + needle + after)[i] by {
                if at <= i < at + needle.len() {
                    assert(s.subrange(at, at + needle.len())[i - at] == s[i]);
                }
            }
        }
    }
    if exists|before: Seq<char>, after: Seq<char>| s == #[trigger] (before + needle + after) {
        let (before, after) = choose|before: Seq<char>, after: Seq<char>|
            s == #[trigger] (before + needle + after);
        let at = before.len() as int;
        assert(s.subrange(at, at + needle.len()) =~= needle);
        assert(occurs_at(s, needle, at));
    }
}

/// The first of a character parts a text: it does not stand before, and it stands there.
pub proof fn first_is_the_first(s: Seq<char>, c: char)
    ensures
        0 <= first(s, c) <= s.len(),
        first(s, c) < s.len() ==> s[first(s, c)] == c,
        !s.take(first(s, c)).contains(c),
        first(s, c) == s.len() <==> !s.contains(c),
    decreases s.len(),
{
    if s.len() > 0 && s[0] != c {
        let rest = s.drop_first();
        let k = first(s, c);
        first_is_the_first(rest, c);
        assert forall|i: int| 0 <= i < k implies s.take(k)[i] != c by {
            if i > 0 {
                assert(rest.take(k - 1)[i - 1] == s[i]);
                assert(rest.take(k - 1).contains(rest.take(k - 1)[i - 1]));
            }
        }
        if s.contains(c) {
            let i = choose|i: int| 0 <= i < s.len() && s[i] == c;
            assert(rest[i - 1] == c);
        }
        if rest.contains(c) {
            let i = choose|i: int| 0 <= i < rest.len() && rest[i] == c;
            assert(s[i + 1] == c);
        }
    } else if s.len() > 0 {
        assert(s.contains(s[0]));
    }
}

/// Lower case turns each of the 26 capital letters into its small one, in its place, and keeps
/// every other character.
pub proof fn lower_case_is_by_letter(s: Seq<char>, i: int, k: int)
    requires
        0 <= i < s.len(),
        0 <= k < 26,
    ensures
        lower_all(s).len() == s.len(),
        s[i] == "ABCDEFGHIJKLMNOPQRSTUVWXYZ"@[k] ==> lower_all(s)[i]
            == "abcdefghijklmnopqrstuvwxyz"@[k],
        !"ABCDEFGHIJKLMNOPQRSTUVWXYZ"@.contains(s[i]) ==> lower_all(s)[i] == s[i],
{
    reveal_strlit("ABCDEFGHIJKLMNOPQRSTUVWXYZ");
    reveal_strlit("abcdefghijklmnopqrstuvwxyz");
    let all = "ABCDEFGHIJKLMNOPQRSTUVWXYZ"@;
    if 'A' <= s[i] && s[i] <= 'Z' {
        assert(all[s[i] as int - 65] == s[i]);
        assert(all.contains(s[i]));
    }
}

// ─── Splitting ──────────────────────────────────────────────────────────────

/// What parts one piece of a text from the next.
#[derive(Clone, Copy, Debug)]
pub enum Separator {
    /// One character.
    One(char),
    /// Either of two characters.
    Either(char, char),
    /// Any white space.
    Space,
}

/// The characters with the Unicode property `White_Space`.
pub open spec fn is_space(c: char) -> bool {
    ||| '\u{9}' <= c && c <= '\u{d}'
    ||| c == ' '
    ||| c == '\u{85}'
    ||| c == '\u{a0}'
    ||| c == '\u{1680}'
    ||| '\u{2000}' <= c && c <= '\u{200a}'
    ||| c == '\u{2028}'
    ||| c == '\u{2029}'
    ||| c == '\u{202f}'
    ||| c == '\u{205f}'
    ||| c == '\u{3000}'
}

/// Whether `c` has the Unicode property `White_Space`.
pub fn space(c: char) -> (r: bool)
    ensures
        r == is_space(c),
{
    ('\u{9}' <= c && c <= '\u{d}') || c == ' ' || c == '\u{85}' || c == '\u{a0}' || c == '\u{1680}'
        || ('\u{2000}' <= c && c <= '\u{200a}') || c == '\u{2028}' || c == '\u{2029}' || c
        == '\u{202f}' || c == '\u{205f}' || c == '\u{3000}'
}

impl Separator {
    /// `c` is a separator.
    pub open spec fn parts(self, c: char) -> bool {
        match self {
            Separator::One(a) => c == a,
            Separator::Either(a, b) => c == a || c == b,
            Separator::Space => is_space(c),
        }
    }

    /// Whether `c` is a separator.
    pub fn hits(self, c: char) -> (r: bool)
        ensures
            r == self.parts(c),
    {
        match self {
            Separator::One(a) => c == a,
            Separator::Either(a, b) => c == a || c == b,
            Separator::Space => space(c),
        }
    }
}

/// An optional text as a mathematical value.
pub open spec fn optional(s: Option<String>) -> Option<Seq<char>> {
    match s {
        Some(t) => Some(t@),
        None => None,
    }
}

/// The texts that a list of character vectors holds.
pub open spec fn views(v: Seq<Vec<char>>) -> Seq<Seq<char>> {
    Seq::new(v.len(), |i: int| v[i]@)
}

/// The pieces of `s`, at most `limit` of them: a separator opens a new, empty piece while
/// the limit allows one more; any other character extends the last piece.
pub open spec fn split_n(s: Seq<char>, sep: Separator, limit: nat) -> Seq<Seq<char>>
    decreases s.len(),
{
    if s.len() == 0 {
        seq![Seq::<char>::empty()]
    } else {
        let before = split_n(s.drop_last(), sep, limit);
        if sep.parts(s.last()) && before.len() < limit {
            before.push(Seq::<char>::empty())
        } else {
            before.drop_last().push(before.last().push(s.last()))
        }
    }
}

/// The pieces of `s` between separators.
pub open spec fn split(s: Seq<char>, sep: Separator) -> Seq<Seq<char>> {
    split_n(s, sep, s.len() + 1)
}

proof fn lemma_split_len(s: Seq<char>, sep: Separator, limit: nat)
    ensures
        1 <= split_n(s, sep, limit).len() <= s.len() + 1,
        limit >= 1 ==> split_n(s, sep, limit).len() <= limit,
    decreases s.len(),
{
    if s.len() > 0 {
        lemma_split_len(s.drop_last(), sep, limit);
    }
}

/// Splitting gives at least one piece.
pub proof fn split_is_never_empty(s: Seq<char>, sep: Separator)
    ensures
        split(s, sep).len() >= 1,
{
    lemma_split_len(s, sep, s.len() + 1);
}

/// Splits `s` into at most `limit` pieces; the last piece keeps its separators.
pub fn split_at_most(s: &[char], sep: Separator, limit: usize) -> (r: Vec<Vec<char>>)
    requires
        limit >= 1,
    ensures
        views(r@) == split_n(s@, sep, limit as nat),
        1 <= r@.len() <= limit,
{
    let mut pieces: Vec<Vec<char>> = Vec::new();
    let mut piece: Vec<char> = Vec::new();
    let mut i: usize = 0;
    assert(views(pieces@).push(piece@) =~= split_n(s@.take(0), sep, limit as nat));
    while i < s.len()
        invariant
            i <= s@.len(),
            limit >= 1,
            pieces@.len() < limit,
            views(pieces@).push(piece@) == split_n(s@.take(i as int), sep, limit as nat),
        decreases s@.len() - i,
    {
        let c = s[i];
        let ghost sofar = views(pieces@).push(piece@);
        proof {
            let t = s@.take(i + 1);
            assert(t.drop_last() =~= s@.take(i as int));
            assert(t.last() == c);
            assert(sofar.len() == pieces@.len() + 1);
            assert(sofar.last() == piece@);
            assert(sofar.drop_last() =~= views(pieces@));
        }
        if sep.hits(c) && pieces.len() + 1 < limit {
            pieces.push(piece);
            assert(views(pieces@) =~= sofar);
            piece = Vec::new();
            assert(piece@ =~= Seq::<char>::empty());
        } else {
            piece.push(c);
        }
        i += 1;
    }
    assert(s@.take(s@.len() as int) =~= s@);
    let ghost whole = views(pieces@).push(piece@);
    pieces.push(piece);
    assert(views(pieces@) =~= whole);
    pieces
}

proof fn lemma_split_unlimited(s: Seq<char>, sep: Separator, a: nat, b: nat)
    requires
        a > s.len(),
        b > s.len(),
    ensures
        split_n(s, sep, a) == split_n(s, sep, b),
    decreases s.len(),
{
    if s.len() > 0 {
        lemma_split_unlimited(s.drop_last(), sep, a, b);
        lemma_split_len(s.drop_last(), sep, a);
    }
}

/// Splits `s` at every separator.
pub fn split_all(s: &[char], sep: Separator) -> (r: Vec<Vec<char>>)
    ensures
        views(r@) == split(s@, sep),
        1 <= r@.len(),
{
    let mut pieces: Vec<Vec<char>> = Vec::new();
    let mut piece: Vec<char> = Vec::new();
    let mut i: usize = 0;
    let ghost limit = (s@.len() + 1) as nat;
    assert(views(pieces@).push(piece@) =~= split_n(s@.take(0), sep, limit));
    while i < s.len()
        invariant
            i <= s@.len(),
            limit == s@.len() + 1,
            views(pieces@).push(piece@) == split_n(s@.take(i as int), sep, limit),
        decreases s@.len() - i,
    {
        let c = s[i];
        let ghost sofar = views(pieces@).push(piece@);
        proof {
            let t = s@.take(i + 1);
            assert(t.drop_last() =~= s@.take(i as int));
            assert(t.last() == c);
            assert(sofar.last() == piece@);
            assert(sofar.drop_last() =~= views(pieces@));
            lemma_split_len(s@.take(i as int), sep, limit);
        }
        if sep.hits(c) {
            pieces.push(piece);
            assert(views(pieces@) =~= sofar);
            piece = Vec::new();
            assert(piece@ =~= Seq::<char>::empty());
        } else {
            piece.push(c);
        }
        i += 1;
    }
    assert(s@.take(s@.len() as int) =~= s@);
    let ghost whole = views(pieces@).push(piece@);
    pieces.push(piece);
    assert(views(pieces@) =~= whole);
    pieces
}

/// The pieces that are not empty, in order.
pub open spec fn not_empty(pieces: Seq<Seq<char>>) -> Seq<Seq<char>>
    decreases pieces.len(),
{
    if pieces.len() == 0 {
        Seq::empty()
    } else {
        let before = not_empty(pieces.drop_last());
        if pieces.last().len() > 0 {
            before.push(pieces.last())
        } else {
            before
        }
    }
}

/// The words of `s`: its longest runs of characters other than white space.
pub open spec fn words_of(s: Seq<char>) -> Seq<Seq<char>> {
    not_empty(split(s, Separator::Space))
}

/// A copy of the list of pieces with the empty ones left out.
pub fn drop_empty(pieces: Vec<Vec<char>>) -> (r: Vec<Vec<char>>)
    ensures
        views(r@) == not_empty(views(pieces@)),
{
    let mut r: Vec<Vec<char>> = Vec::new();
    let mut i: usize = 0;
    assert(views(r@) =~= not_empty(views(pieces@).take(0)));
    while i < pieces.len()
        invariant
            i <= pieces@.len(),
            views(r@) == not_empty(views(pieces@).take(i as int)),
        decreases pieces@.len() - i,
    {
        proof {
            let t = views(pieces@).take(i + 1);
            assert(t.drop_last() =~= views(pieces@).take(i as int));
            assert(t.last() == pieces@[i as int]@);
        }
        if pieces[i].len() > 0 {
            let ghost before = views(r@);
            let piece = part(pieces[i].as_slice(), 0, pieces[i].len());
            assert(piece@ =~= pieces@[i as int]@);
            r.push(piece);
            assert(views(r@) =~= before.push(pieces@[i as int]@));
        }
        i += 1;
    }
    assert(views(pieces@).take(pieces@.len() as int) =~= views(pieces@));
    r
}

/// The words of `s`.
pub fn words(s: &[char]) -> (r: Vec<Vec<char>>)
    ensures
        views(r@) == words_of(s@),
{
    drop_empty(split_all(s, Separator::Space))
}

/// `line` without one carriage return at its end.
pub open spec fn strip_cr(line: Seq<char>) -> Seq<char> {
    if line.len() > 0 && line.last() == '\r' {
        line.drop_last()
    } else {
        line
    }
}

/// The lines of `s`: what each line feed ends, less a carriage return before it, and what
/// follows the last line feed where that is not empty.
pub open spec fn lines_of(s: Seq<char>) -> Seq<Seq<char>> {
    let pieces = split(s, Separator::One('\n'));
    let ended = Seq::new((pieces.len() - 1) as nat, |i: int| strip_cr(pieces[i]));
    if pieces.last().len() == 0 {
        ended
    } else {
        ended.push(pieces.last())
    }
}

/// The lines of `s`.
pub fn lines(s: &[char]) -> (r: Vec<Vec<char>>)
    ensures
        views(r@) == lines_of(s@),
{
    let pieces = split_all(s, Separator::One('\n'));
    let mut r: Vec<Vec<char>> = Vec::new();
    let last = pieces.len() - 1;
    let ghost texts = split(s@, Separator::One('\n'));
    let ghost ended = Seq::new((texts.len() - 1) as nat, |i: int| strip_cr(texts[i]));
    let mut i: usize = 0;
    while i < last
        invariant
            i <= last,
            last == pieces@.len() - 1,
            texts == views(pieces@),
            ended == Seq::new((texts.len() - 1) as nat, |i: int| strip_cr(texts[i])),
            views(r@) == ended.take(i as int),
        decreases last - i,
    {
        let n = pieces[i].len();
        let ghost before = views(r@);
        assert(texts[i as int] == pieces@[i as int]@);
        let line = if n > 0 && pieces[i][n - 1] == '\r' {
            part(pieces[i].as_slice(), 0, n - 1)
        } else {
            part(pieces[i].as_slice(), 0, n)
        };
        assert(line@ =~= strip_cr(texts[i as int]));
        r.push(line);
        assert(views(r@) =~= before.push(ended[i as int]));
        i += 1;
        assert(ended.take(i as int) =~= ended.take(i - 1).push(ended[i - 1]));
    }
    assert(ended.take(last as int) =~= ended);
    assert(texts.last() == pieces@[last as int]@);
    if pieces[last].len() > 0 {
        let line = part(pieces[last].as_slice(), 0, pieces[last].len());
        assert(line@ =~= texts.last());
        let ghost before = views(r@);
        r.push(line);
        assert(views(r@) =~= before.push(texts.last()));
    }
    r
}

/// The texts that a list of strings holds.
pub open spec fn texts(v: Seq<String>) -> Seq<Seq<char>> {
    Seq::new(v.len(), |i: int| v[i]@)
}

/// The pieces in order, with `sep` between each two.
pub open spec fn joined(pieces: Seq<Seq<char>>, sep: Seq<char>) -> Seq<char>
    decreases pieces.len(),
{
    if pieces.len() == 0 {
        Seq::empty()
    } else if pieces.len() == 1 {
        pieces[0]
    } else {
        joined(pieces.drop_last(), sep) + sep + pieces.last()
    }
}

/// The strings in order, with `sep` between each two.
pub fn join(pieces: &Vec<String>, sep: &str) -> (r: String)
    ensures
        r@ == joined(texts(pieces@), sep@),
{
    let mut r = String::new();
    let mut i: usize = 0;
    assert(r@ =~= joined(texts(pieces@).take(0), sep@));
    while i < pieces.len()
        invariant
            i <= pieces@.len(),
            r@ == joined(texts(pieces@).take(i as int), sep@),
        decreases pieces@.len() - i,
    {
        let ghost before = r@;
        if i > 0 {
            r.append(sep);
        }
        r.append(pieces[i].as_str());
        i += 1;
        proof {
            let t = texts(pieces@).take(i as int);
            assert(t.drop_last() =~= texts(pieces@).take(i - 1));
            assert(t.last() == pieces@[i - 1]@);
            assert(r@ =~= joined(t, sep@));
        }
    }
    assert(texts(pieces@).take(pieces@.len() as int) =~= texts(pieces@));
    r
}

/// Characters that are no separators extend the last piece.
proof fn lemma_split_extend(s: Seq<char>, t: Seq<char>, sep: Separator, limit: nat)
    requires
        forall|i: int| 0 <= i < t.len() ==> !sep.parts(#[trigger] t[i]),
    ensures
        split_n(s + t, sep, limit) == split_n(s, sep, limit).drop_last().push(
            split_n(s, sep, limit).last() + t,
        ),
    decreases t.len(),
{
    lemma_split_len(s, sep, limit);
    let before = split_n(s, sep, limit);
    if t.len() == 0 {
        assert(s + t =~= s);
        assert(before.last() + t =~= before.last());
        assert(before.drop_last().push(before.last()) =~= before);
    } else {
        lemma_split_extend(s, t.drop_last(), sep, limit);
        assert((s + t).drop_last() =~= s + t.drop_last());
        assert((s + t).last() == t.last());
        let middle = split_n(s + t.drop_last(), sep, limit);
        assert(middle.last() == before.last() + t.drop_last());
        assert(middle.drop_last() =~= before.drop_last());
        assert((before.last() + t.drop_last()).push(t.last()) =~= before.last() + t);
    }
}

proof fn lemma_split_joined(pieces: Seq<Seq<char>>, limit: nat)
    requires
        pieces.len() > 0,
        limit >= pieces.len(),
        forall|i: int, k: int|
            0 <= i < pieces.len() && 0 <= k < pieces[i].len() ==> !is_space(
                #[trigger] pieces[i][k],
            ),
    ensures
        split_n(joined(pieces, " "@), Separator::Space, limit) == pieces,
    decreases pieces.len(),
{
    reveal_strlit(" ");
    let sep = Separator::Space;
    let last = pieces.last();
    assert forall|k: int| 0 <= k < last.len() implies !sep.parts(#[trigger] last[k]) by {
        assert(!is_space(pieces[pieces.len() - 1][k]));
    }
    let none = Seq::<char>::empty();
    if pieces.len() == 1 {
        lemma_split_extend(none, last, sep, limit);
        assert(none + last =~= joined(pieces, " "@));
        assert(split_n(none, sep, limit) =~= seq![none]);
        assert(seq![none].drop_last().push(none + last) =~= pieces);
    } else {
        let rest = pieces.drop_last();
        assert forall|i: int, k: int|
            0 <= i < rest.len() && 0 <= k < rest[i].len() implies !is_space(
            #[trigger] rest[i][k],
        ) by {
            assert(rest[i] == pieces[i]);
            assert(!is_space(pieces[i][k]));
        }
        lemma_split_joined(rest, limit);
        let s = joined(rest, " "@);
        let t = s + " "@;
        assert(t.drop_last() =~= s);
        assert(t.last() == ' ');
        assert(split_n(t, sep, limit) == rest.push(none));
        lemma_split_extend(t, last, sep, limit);
        assert(none + last =~= last);
        assert(rest.push(none).drop_last() =~= rest);
        assert(rest.push(last) =~= pieces);
    }
}

proof fn lemma_not_empty_keeps(pieces: Seq<Seq<char>>)
    requires
        forall|i: int| 0 <= i < pieces.len() ==> (#[trigger] pieces[i]).len() > 0,
    ensures
        not_empty(pieces) == pieces,
    decreases pieces.len(),
{
    if pieces.len() > 0 {
        let rest = pieces.drop_last();
        assert forall|i: int| 0 <= i < rest.len() implies (#[trigger] rest[i]).len() > 0 by {
            assert(rest[i] == pieces[i]);
        }
        lemma_not_empty_keeps(rest);
        assert(pieces[pieces.len() - 1].len() > 0);
        assert(rest.push(pieces.last()) =~= pieces);
    } else {
        assert(not_empty(pieces) =~= pieces);
    }
}

/// Words with single spaces between them are the words of the text that they make.
pub proof fn words_of_joined(pieces: Seq<Seq<char>>)
    requires
        forall|i: int|
            0 <= i < pieces.len() ==> {
                &&& (#[trigger] pieces[i]).len() > 0
                &&& forall|k: int| 0 <= k < pieces[i].len() ==> !is_space(#[trigger] pieces[i][k])
            },
    ensures
        words_of(joined(pieces, " "@)) == pieces,
{
    let s = joined(pieces, " "@);
    if pieces.len() == 0 {
        assert(split(s, Separator::Space) =~= seq![Seq::<char>::empty()]);
        reveal_with_fuel(not_empty, 2);
        assert(not_empty(seq![Seq::<char>::empty()]) =~= pieces);
    } else {
        let limit = (s.len() + 1 + pieces.len()) as nat;
        assert forall|i: int, k: int|
            0 <= i < pieces.len() && 0 <= k < pieces[i].len() implies !is_space(
            #[trigger] pieces[i][k],
        ) by {
            assert(pieces[i].len() > 0);
        }
        lemma_split_joined(pieces, limit);
        lemma_split_unlimited(s, Separator::Space, limit, s.len() + 1);
        lemma_not_empty_keeps(pieces);
    }
}

/// What follows the last separator of `s`; all of `s` where it has none.
pub open spec fn after_last(s: Seq<char>, sep: Separator) -> Seq<char>
    decreases s.len(),
{
    if s.len() == 0 || sep.parts(s.last()) {
        Seq::empty()
    } else {
        after_last(s.drop_last(), sep).push(s.last())
    }
}

proof fn lemma_after_last(s: Seq<char>, sep: Separator, k: int)
    requires
        0 <= k <= s.len(),
        forall|j: int| k <= j < s.len() ==> !sep.parts(s[j]),
        k == 0 || sep.parts(s[k - 1]),
    ensures
        after_last(s, sep) == s.skip(k),
    decreases s.len(),
{
    if k == s.len() {
        assert(s.skip(k) =~= Seq::<char>::empty());
    } else {
        lemma_after_last(s.drop_last(), sep, k);
        assert(s.skip(k) =~= s.drop_last().skip(k).push(s.last()));
    }
}

/// What follows the last separator of `s`; all of `s` where it has none.
pub fn last_piece(s: &[char], sep: Separator) -> (r: Vec<char>)
    ensures
        r@ == after_last(s@, sep),
{
    let mut k: usize = s.len();
    while k > 0 && !sep.hits(s[k - 1])
        invariant
            k <= s@.len(),
            forall|j: int| k <= j < s@.len() ==> !sep.parts(s@[j]),
        decreases k,
    {
        k -= 1;
    }
    proof {
        lemma_after_last(s@, sep, k as int);
    }
    part(s, k, s.len())
}

// ─── Trimming ───────────────────────────────────────────────────────────────

/// `s` without the white space at its start.
pub open spec fn trim_start(s: Seq<char>) -> Seq<char>
    decreases s.len(),
{
    if s.len() > 0 && is_space(s[0]) {
        trim_start(s.drop_first())
    } else {
        s
    }
}

/// `s` without the white space at its end.
pub open spec fn trim_end(s: Seq<char>) -> Seq<char>
    decreases s.len(),
{
    if s.len() > 0 && is_space(s.last()) {
        trim_end(s.drop_last())
    } else {
        s
    }
}

/// `s` without the white space at its two ends.
pub open spec fn trimmed(s: Seq<char>) -> Seq<char> {
    trim_end(trim_start(s))
}

proof fn lemma_trim_start(s: Seq<char>, k: int)
    requires
        0 <= k <= s.len(),
        forall|j: int| 0 <= j < k ==> is_space(s[j]),
        k == s.len() || !is_space(s[k]),
    ensures
        trim_start(s) == s.skip(k),
    decreases s.len(),
{
    if k > 0 {
        assert(forall|j: int| 0 <= j < s.len() - 1 ==> s.drop_first()[j] == s[j + 1]);
        lemma_trim_start(s.drop_first(), k - 1);
        assert(s.drop_first().skip(k - 1) =~= s.skip(k));
    } else {
        assert(s.skip(0) =~= s);
    }
}

proof fn lemma_trim_end(s: Seq<char>, k: int)
    requires
        0 <= k <= s.len(),
        forall|j: int| k <= j < s.len() ==> is_space(s[j]),
        k == 0 || !is_space(s[k - 1]),
    ensures
        trim_end(s) == s.take(k),
    decreases s.len(),
{
    if k < s.len() {
        lemma_trim_end(s.drop_last(), k);
        assert(s.drop_last().take(k) =~= s.take(k));
    } else {
        assert(s.take(k) =~= s);
    }
}

/// `s` without the white space at its two ends.
pub fn trim(s: &[char]) -> (r: Vec<char>)
    ensures
        r@ == trimmed(s@),
{
    let mut from: usize = 0;
    while from < s.len() && space(s[from])
        invariant
            from <= s@.len(),
            forall|j: int| 0 <= j < from ==> is_space(s@[j]),
        decreases s@.len() - from,
    {
        from += 1;
    }
    let mut to: usize = s.len();
    while to > from && space(s[to - 1])
        invariant
            from <= to <= s@.len(),
            forall|j: int| to <= j < s@.len() ==> is_space(s@[j]),
        decreases to,
    {
        to -= 1;
    }
    proof {
        lemma_trim_start(s@, from as int);
        let rest = s@.skip(from as int);
        assert forall|j: int| to - from <= j < rest.len() implies is_space(rest[j]) by {
            assert(rest[j] == s@[j + from]);
        }
        lemma_trim_end(rest, to - from);
        assert(rest.take(to - from) =~= s@.subrange(from as int, to as int));
    }
    part(s, from, to)
}

// ─── Numerals ───────────────────────────────────────────────────────────────

/// The digit for `d`, in lower case from ten on.
pub open spec fn digit(d: int) -> char {
    if d < 10 {
        (48 + d) as char
    } else {
        (87 + d) as char
    }
}

/// The numeral of `n` in base `radix`, with no leading zero.
pub open spec fn numeral(n: nat, radix: nat) -> Seq<char>
    decreases n,
{
    if radix < 2 || n < radix {
        seq![digit(n as int)]
    } else {
        proof {
            assert(n / radix < n) by (nonlinear_arith)
                requires
                    radix >= 2,
                    n >= radix,
            ;
        }
        numeral(n / radix, radix).push(digit((n % radix) as int))
    }
}

fn digit_char(d: u8) -> (r: char)
    requires
        d < 36,
    ensures
        r == digit(d as int),
{
    if d < 10 {
        (48 + d) as char
    } else {
        (87 + d) as char
    }
}

/// Appends the numeral of `n` in base `radix`.
pub fn push_numeral(out: &mut String, n: u64, radix: u64)
    requires
        2 <= radix <= 36,
    ensures
        final(out)@ == old(out)@ + numeral(n as nat, radix as nat),
    decreases n,
{
    if n < radix {
        out.push(digit_char(n as u8));
        assert(out@ =~= old(out)@ + seq![digit(n as int)]);
    } else {
        assert(n / radix < n) by (nonlinear_arith)
            requires
                radix >= 2,
                n >= radix,
        ;
        push_numeral(out, n / radix, radix);
        out.push(digit_char((n % radix) as u8));
        assert(out@ =~= old(out)@ + numeral(n as nat, radix as nat));
    }
}

/// Appends `0x` and the hexadecimal numeral of `n`.
pub fn push_address(out: &mut String, n: u64)
    ensures
        final(out)@ == old(out)@ + address(n),
{
    out.append("0x");
    push_numeral(out, n, 16);
    assert(out@ =~= old(out)@ + address(n));
}

/// `0x` and the hexadecimal numeral of `n`.
pub open spec fn address(n: u64) -> Seq<char> {
    "0x"@ + numeral(n as nat, 16)
}

/// `0x` and the hexadecimal numeral of `n`.
pub fn address_text(n: u64) -> (r: String)
    ensures
        r@ == address(n),
{
    let mut r = String::new();
    push_address(&mut r, n);
    assert(r@ =~= address(n));
    r
}

/// The decimal numeral of `n`.
pub open spec fn decimal(n: nat) -> Seq<char> {
    numeral(n, 10)
}

/// Appends the decimal numeral of `n`.
pub fn push_decimal(out: &mut String, n: u64)
    ensures
        final(out)@ == old(out)@ + decimal(n as nat),
{
    push_numeral(out, n, 10);
}

/// The decimal numeral of an integer, with a sign where it is negative.
pub open spec fn signed_decimal(n: int) -> Seq<char> {
    if n < 0 {
        "-"@ + decimal((-n) as nat)
    } else {
        decimal(n as nat)
    }
}

/// Appends the decimal numeral of an integer.
pub fn push_signed_decimal(out: &mut String, n: i32)
    ensures
        final(out)@ == old(out)@ + signed_decimal(n as int),
{
    let wide: i64 = n as i64;
    if wide < 0 {
        out.append("-");
        push_decimal(out, (-wide) as u64);
        assert(out@ =~= old(out)@ + signed_decimal(n as int));
    } else {
        push_decimal(out, wide as u64);
    }
}

/// The last `width` hexadecimal digits of `n`, with zeros before them where it has fewer.
pub open spec fn padded_hex(n: nat, width: nat) -> Seq<char>
    decreases width,
{
    if width == 0 {
        Seq::empty()
    } else {
        padded_hex(n / 16, (width - 1) as nat).push(digit((n % 16) as int))
    }
}

/// Appends the last `width` hexadecimal digits of `n`.
pub fn push_padded_hex(out: &mut String, n: u64, width: usize)
    ensures
        final(out)@ == old(out)@ + padded_hex(n as nat, width as nat),
    decreases width,
{
    if width == 0 {
        assert(out@ =~= old(out)@ + Seq::empty());
    } else {
        push_padded_hex(out, n / 16, width - 1);
        out.push(digit_char((n % 16) as u8));
        assert(out@ =~= old(out)@ + padded_hex(n as nat, width as nat));
    }
}

/// The two hexadecimal digits of a byte.
pub open spec fn byte_hex(b: u8) -> Seq<char> {
    seq![digit(b as int / 16), digit(b as int % 16)]
}

/// Appends the two hexadecimal digits of a byte.
pub fn push_byte_hex(out: &mut String, b: u8)
    ensures
        final(out)@ == old(out)@ + byte_hex(b),
{
    out.push(digit_char(b / 16));
    out.push(digit_char(b % 16));
    assert(out@ =~= old(out)@ + byte_hex(b));
}

/// Why a text is not a number.
#[derive(Clone, Copy, Debug, PartialEq, Eq, Structural)]
pub enum IntError {
    /// The text is empty.
    Empty,
    /// A character is not a digit of the base.
    InvalidDigit,
    /// The number is too large.
    Overflow,
}

impl IntError {
    /// What the error says.
    pub open spec fn says(self) -> Seq<char> {
        match self {
            IntError::Empty => "cannot parse integer from empty string"@,
            IntError::InvalidDigit => "invalid digit found in string"@,
            IntError::Overflow => "number too large to fit in target type"@,
        }
    }

    /// What the error says.
    pub fn message(self) -> (r: String)
        ensures
            r@ == self.says(),
    {
        match self {
            IntError::Empty => "cannot parse integer from empty string".to_string(),
            IntError::InvalidDigit => "invalid digit found in string".to_string(),
            IntError::Overflow => "number too large to fit in target type".to_string(),
        }
    }
}

/// The value of a digit, in either case.
pub open spec fn digit_value(c: char, radix: nat) -> Option<nat> {
    let d = if '0' <= c && c <= '9' {
        (c as int - 48) as nat
    } else if 'a' <= c && c <= 'z' {
        (c as int - 87) as nat
    } else if 'A' <= c && c <= 'Z' {
        (c as int - 55) as nat
    } else {
        radix
    };
    if d < radix {
        Some(d)
    } else {
        None
    }
}

/// The number that a row of digits spells, if it is at most `max`. The first digit that
/// spoils it says why.
pub open spec fn digits_value(s: Seq<char>, radix: nat, max: nat) -> Result<nat, IntError>
    decreases s.len(),
{
    if s.len() == 0 {
        Ok(0)
    } else {
        match digits_value(s.drop_last(), radix, max) {
            Err(e) => Err(e),
            Ok(v) => match digit_value(s.last(), radix) {
                None => Err(IntError::InvalidDigit),
                Some(d) => if v * radix + d > max {
                    Err(IntError::Overflow)
                } else {
                    Ok(v * radix + d)
                },
            },
        }
    }
}

/// The number that `s` spells in base `radix`, if it is at most `max`: digits, with an
/// optional `+` before them.
pub open spec fn number(s: Seq<char>, radix: nat, max: nat) -> Result<nat, IntError> {
    if s.len() == 0 {
        Err(IntError::Empty)
    } else if s.len() == 1 && (s[0] == '+' || s[0] == '-') {
        Err(IntError::InvalidDigit)
    } else if s[0] == '+' {
        digits_value(s.skip(1), radix, max)
    } else {
        digits_value(s, radix, max)
    }
}

fn value_of_digit(c: char, radix: u64) -> (r: Option<u64>)
    requires
        2 <= radix <= 36,
    ensures
        match r {
            Some(d) => digit_value(c, radix as nat) == Some(d as nat) && d < radix,
            None => digit_value(c, radix as nat) is None,
        },
{
    let d: u64 = if '0' <= c && c <= '9' {
        c as u64 - 48
    } else if 'a' <= c && c <= 'z' {
        c as u64 - 87
    } else if 'A' <= c && c <= 'Z' {
        c as u64 - 55
    } else {
        radix
    };
    if d < radix {
        Some(d)
    } else {
        None
    }
}

proof fn lemma_digits_error_stays(s: Seq<char>, radix: nat, max: nat, k: int)
    requires
        0 <= k <= s.len(),
        digits_value(s.take(k), radix, max) is Err,
    ensures
        digits_value(s, radix, max) == digits_value(s.take(k), radix, max),
    decreases s.len() - k,
{
    if k < s.len() {
        assert(s.take(k + 1).drop_last() =~= s.take(k));
        lemma_digits_error_stays(s, radix, max, k + 1);
    } else {
        assert(s.take(k) =~= s);
    }
}

/// The number that `s` spells in base `radix`, if it is at most `max`.
pub fn parse_number(s: &[char], radix: u64, max: u64) -> (r: Result<u64, IntError>)
    requires
        2 <= radix <= 36,
    ensures
        match r {
            Ok(v) => number(s@, radix as nat, max as nat) == Ok::<nat, IntError>(v as nat) && v <= max,
            Err(e) => number(s@, radix as nat, max as nat) == Err::<nat, IntError>(e),
        },
{
    if s.len() == 0 {
        return Err(IntError::Empty);
    }
    if s.len() == 1 && (s[0] == '+' || s[0] == '-') {
        return Err(IntError::InvalidDigit);
    }
    let start: usize = if s[0] == '+' { 1 } else { 0 };
    let ghost body = s@.skip(start as int);
    assert(s@.skip(0) =~= s@);
    let mut v: u64 = 0;
    let mut i: usize = start;
    while i < s.len()
        invariant
            2 <= radix <= 36,
            start <= i <= s@.len(),
            body == s@.skip(start as int),
            number(s@, radix as nat, max as nat) == digits_value(body, radix as nat, max as nat),
            v <= max,
            digits_value(body.take(i - start), radix as nat, max as nat) == Ok::<nat, IntError>(v as nat),
        decreases s@.len() - i,
    {
        proof {
            let t = body.take(i - start + 1);
            assert(t.drop_last() =~= body.take(i - start));
            assert(t.last() == s@[i as int]);
        }
        match value_of_digit(s[i], radix) {
            None => {
                proof {
                    lemma_digits_error_stays(body, radix as nat, max as nat, i - start + 1);
                }
                return Err(IntError::InvalidDigit);
            },
            Some(d) => {
                assert(v as u128 * radix as u128 <= 0xffff_ffff_ffff_ffff * 36) by (nonlinear_arith)
                    requires
                        v <= 0xffff_ffff_ffff_ffff,
                        radix <= 36,
                ;
                let wide: u128 = v as u128 * radix as u128 + d as u128;
                if wide > max as u128 {
                    proof {
                        lemma_digits_error_stays(body, radix as nat, max as nat, i - start + 1);
                    }
                    return Err(IntError::Overflow);
                }
                v = wide as u64;
            },
        }
        i += 1;
    }
    assert(body.take(s@.len() - start) =~= body);
    Ok(v)
}

proof fn lemma_numeral(n: nat, radix: nat, max: nat)
    requires
        2 <= radix <= 36,
        n <= max,
    ensures
        numeral(n, radix).len() > 0,
        digits_value(numeral(n, radix), radix, max) == Ok::<nat, IntError>(n),
        forall|i: int|
            0 <= i < numeral(n, radix).len() ==> (#[trigger] numeral(n, radix)[i]) != '+'
                && numeral(n, radix)[i] != '-',
    decreases n,
{
    let s = numeral(n, radix);
    if n < radix {
        assert(s.drop_last() =~= Seq::empty());
        assert(digits_value(s.drop_last(), radix, max) == Ok::<nat, IntError>(0));
        assert(digit_value(s.last(), radix) == Some(n));
        assert(0 * radix == 0);
    } else {
        let (q, d) = (n / radix, n % radix);
        assert(q < n && q * radix + d == n && d < radix) by (nonlinear_arith)
            requires
                radix >= 2,
                n >= radix,
                q == n / radix,
                d == n % radix,
        ;
        lemma_numeral(q, radix, max);
        assert(s.drop_last() =~= numeral(q, radix));
        assert(digit_value(s.last(), radix) == Some(d));
        assert forall|i: int| 0 <= i < s.len() implies (#[trigger] s[i]) != '+' && s[i] != '-' by {
            if i < s.len() - 1 {
                assert(s[i] == numeral(q, radix)[i]);
            }
        }
    }
}

/// A number that was written out is read back as it was.
pub proof fn numerals_are_read_back(n: nat, radix: nat, max: nat)
    requires
        2 <= radix <= 36,
        n <= max,
    ensures
        number(numeral(n, radix), radix, max) == Ok::<nat, IntError>(n),
{
    lemma_numeral(n, radix, max);
    assert(numeral(n, radix)[0] != '+' && numeral(n, radix)[0] != '-');
}

/// Digits are the usual ones, in lower case from ten on, and are read in either case; no other
/// character is one.
pub proof fn digits_are_the_usual_ones(d: int, c: char, radix: nat)
    requires
        0 <= d < 36,
        radix <= 36,
    ensures
        digit(d) == "0123456789abcdefghijklmnopqrstuvwxyz"@[d],
        d < radix ==> digit_value("0123456789abcdefghijklmnopqrstuvwxyz"@[d], radix) == Some(
            d as nat,
        ),
        d < radix ==> digit_value("0123456789ABCDEFGHIJKLMNOPQRSTUVWXYZ"@[d], radix) == Some(
            d as nat,
        ),
        digit_value(c, radix) matches Some(v) ==> v < radix && (c
            == "0123456789abcdefghijklmnopqrstuvwxyz"@[v as int] || c
            == "0123456789ABCDEFGHIJKLMNOPQRSTUVWXYZ"@[v as int]),
{
    reveal_strlit("0123456789abcdefghijklmnopqrstuvwxyz");
    reveal_strlit("0123456789ABCDEFGHIJKLMNOPQRSTUVWXYZ");
}

/// A byte is shown as its two hexadecimal digits, the higher one first.
pub proof fn bytes_have_two_digits(b: u8)
    ensures
        byte_hex(b) == seq![
            "0123456789abcdef"@[b as int / 16],
            "0123456789abcdef"@[b as int % 16],
        ],
{
    reveal_strlit("0123456789abcdef");
    assert(byte_hex(b) =~= seq![
        "0123456789abcdef"@[b as int / 16],
        "0123456789abcdef"@[b as int % 16],
    ]);
}

/// Different addresses are written differently.
pub proof fn addresses_are_told_apart(a: u64, b: u64)
    requires
        a != b,
    ensures
        address(a) != address(b),
{
    reveal_strlit("0x");
    numerals_are_read_back(a as nat, 16, u64::MAX as nat);
    numerals_are_read_back(b as nat, 16, u64::MAX as nat);
    assert(address(a).skip(2) =~= numeral(a as nat, 16));
    assert(address(b).skip(2) =~= numeral(b as nat, 16));
}

proof fn lemma_whole_piece(s: Seq<char>, c: char, limit: nat)
    requires
        !s.contains(c),
    ensures
        split_n(s, Separator::One(c), limit) == seq![s],
    decreases s.len(),
{
    if s.len() > 0 {
        let t = s.drop_last();
        assert forall|i: int| 0 <= i < t.len() implies t[i] != c by {
            assert(s.contains(s[i]));
        }
        lemma_whole_piece(t, c, limit);
        assert(s.contains(s.last()));
        assert(t.push(s.last()) =~= s);
        assert(split_n(s, Separator::One(c), limit) =~= seq![s]);
    } else {
        assert(s =~= Seq::empty());
    }
}

proof fn lemma_first_piece(s: Seq<char>, c: char, rest: Seq<char>, limit: nat)
    requires
        !s.contains(c),
        limit >= 2,
    ensures
        split_n(s.push(c) + rest, Separator::One(c), limit).len() >= 2,
        split_n(s.push(c) + rest, Separator::One(c), limit)[0] == s,
    decreases rest.len(),
{
    let whole = s.push(c) + rest;
    if rest.len() == 0 {
        lemma_whole_piece(s, c, limit);
        assert(whole.drop_last() =~= s);
        assert(whole.last() == c);
    } else {
        lemma_first_piece(s, c, rest.drop_last(), limit);
        assert(whole.drop_last() =~= s.push(c) + rest.drop_last());
    }
}

/// The first piece of a text is what stands before its first separator, whatever follows.
pub proof fn first_piece_stands_alone(s: Seq<char>, c: char, rest: Seq<char>)
    requires
        !s.contains(c),
    ensures
        split(s.push(c) + rest, Separator::One(c))[0] == s,
        split(s, Separator::One(c))[0] == s,
{
    lemma_first_piece(s, c, rest, (s.len() + 1 + rest.len() + 1) as nat);
    lemma_whole_piece(s, c, (s.len() + 1) as nat);
}

proof fn lemma_split_at_separator(a: Seq<char>, c: char, b: Seq<char>, limit: nat)
    requires
        limit > a.len() + 1 + b.len(),
    ensures
        split_n(a.push(c) + b, Separator::One(c), limit) == split_n(a, Separator::One(c), limit)
            + split_n(b, Separator::One(c), limit),
    decreases b.len(),
{
    let sep = Separator::One(c);
    let whole = a.push(c) + b;
    let (x, y) = (split_n(a, sep, limit), split_n(b, sep, limit));
    lemma_split_len(a, sep, limit);
    lemma_split_len(b, sep, limit);
    if b.len() == 0 {
        assert(whole.drop_last() =~= a);
        assert(whole.last() == c);
        assert(split_n(whole, sep, limit) =~= x + y);
    } else {
        let rest = b.drop_last();
        lemma_split_at_separator(a, c, rest, limit);
        lemma_split_len(rest, sep, limit);
        assert(whole.drop_last() =~= a.push(c) + rest);
        assert(whole.last() == b.last());
        let z = split_n(rest, sep, limit);
        assert((x + z).last() == z.last());
        assert((x + z).drop_last() =~= x + z.drop_last());
        assert(split_n(whole, sep, limit) =~= x + y);
    }
}

proof fn lemma_last_piece_ends(s: Seq<char>, sep: Separator, limit: nat)
    ensures
        split_n(s, sep, limit).last().len() > 0 ==> s.len() > 0 && split_n(
            s,
            sep,
            limit,
        ).last().last() == s.last(),
{
    lemma_split_len(s, sep, limit);
}

proof fn lemma_not_empty_adds(a: Seq<Seq<char>>, b: Seq<Seq<char>>)
    ensures
        not_empty(a + b) == not_empty(a) + not_empty(b),
    decreases b.len(),
{
    if b.len() == 0 {
        assert(a + b =~= a);
        assert(not_empty(a) + not_empty(b) =~= not_empty(a));
    } else {
        lemma_not_empty_adds(a, b.drop_last());
        assert((a + b).drop_last() =~= a + b.drop_last());
        assert((a + b).last() == b.last());
        assert(not_empty(a + b) =~= not_empty(a) + not_empty(b));
    }
}

/// The lines of two texts with a line feed between them are those of the first and those of
/// the second, empty ones aside. The first text is to end in no carriage return, which the line
/// feed would take with it.
pub proof fn lines_of_joined(a: Seq<char>, b: Seq<char>)
    requires
        a.len() > 0 ==> a.last() != '\r',
    ensures
        not_empty(lines_of(a.push('\n') + b)) == not_empty(lines_of(a)) + not_empty(lines_of(b)),
{
    let sep = Separator::One('\n');
    let whole = a.push('\n') + b;
    let limit = (whole.len() + 1) as nat;
    let (x, y) = (split(a, sep), split(b, sep));
    lemma_split_at_separator(a, '\n', b, limit);
    lemma_split_unlimited(a, sep, limit, (a.len() + 1) as nat);
    lemma_split_unlimited(b, sep, limit, (b.len() + 1) as nat);
    split_is_never_empty(a, sep);
    split_is_never_empty(b, sep);
    lemma_last_piece_ends(a, sep, (a.len() + 1) as nat);
    let pieces = split(whole, sep);
    assert(pieces == x + y);
    let one = Seq::new((x.len() - 1) as nat, |i: int| strip_cr(x[i]));
    let two = Seq::new((y.len() - 1) as nat, |i: int| strip_cr(y[i]));
    let ended = Seq::new((pieces.len() - 1) as nat, |i: int| strip_cr(pieces[i]));
    assert(strip_cr(x.last()) == x.last());
    assert(ended =~= one.push(x.last()) + two);
    assert(pieces.last() == y.last());
    lemma_not_empty_adds(one.push(x.last()), two);
    assert(one.push(x.last()).drop_last() =~= one);
    assert(two.push(y.last()).drop_last() =~= two);
    assert(ended.push(y.last()).drop_last() =~= ended);
    assert(not_empty(lines_of(a)) == not_empty(one.push(x.last())));
    assert(not_empty(lines_of(b)) == not_empty(two.push(y.last())));
    assert(not_empty(lines_of(whole)) == not_empty(ended.push(y.last())));
    assert(not_empty(ended.push(y.last())) =~= not_empty(one.push(x.last())) + not_empty(
        two.push(y.last()),
    ));
}

// ─── How texts come apart ───────────────────────────────────────────────────

/// What follows the last separator of a text is what was put behind it, and all of the text
/// where it has none.
pub proof fn last_piece_follows_the_separator(
    before: Seq<char>,
    c: char,
    after: Seq<char>,
    sep: Separator,
)
    requires
        sep.parts(c),
        forall|i: int| 0 <= i < after.len() ==> !sep.parts(#[trigger] after[i]),
    ensures
        after_last(before.push(c) + after, sep) == after,
        after_last(after, sep) == after,
{
    let whole = before.push(c) + after;
    let k = before.len() + 1;
    assert forall|j: int| k <= j < whole.len() implies !sep.parts(whole[j]) by {
        assert(whole[j] == after[j - k]);
    }
    lemma_after_last(whole, sep, k as int);
    lemma_after_last(after, sep, 0);
    assert(whole.skip(k as int) =~= after);
    assert(after.skip(0) =~= after);
}

/// Trimming takes away the white space around a text, whatever it is, and nothing else.
pub proof fn trimming_takes_the_space_around(before: Seq<char>, s: Seq<char>, after: Seq<char>)
    requires
        forall|i: int| 0 <= i < before.len() ==> is_space(#[trigger] before[i]),
        forall|i: int| 0 <= i < after.len() ==> is_space(#[trigger] after[i]),
        s.len() > 0,
        !is_space(s[0]),
        !is_space(s.last()),
    ensures
        trimmed(before + s + after) == s,
{
    let whole = before + s + after;
    let k = before.len() as int;
    assert forall|j: int| 0 <= j < k implies is_space(whole[j]) by {
        assert(whole[j] == before[j]);
    }
    assert(whole[k] == s[0]);
    lemma_trim_start(whole, k);
    let rest = whole.skip(k);
    assert(rest =~= s + after);
    let m = s.len() as int;
    assert forall|j: int| m <= j < rest.len() implies is_space(rest[j]) by {
        assert(rest[j] == after[j - m]);
    }
    assert(rest[m - 1] == s.last());
    lemma_trim_end(rest, m);
    assert(rest.take(m) =~= s);
}

/// The white space of ASCII parts words; letters, digits and punctuation do not.
pub proof fn space_is_white(c: char)
    ensures
        c == ' ' || c == '\t' || c == '\n' || c == '\r' ==> is_space(c),
        '!' <= c && c <= '~' ==> !is_space(c),
{
}

/// Of nothing but white space, trimming leaves nothing.
pub proof fn white_space_is_all_trimmed(s: Seq<char>)
    requires
        forall|i: int| 0 <= i < s.len() ==> is_space(#[trigger] s[i]),
    ensures
        trimmed(s).len() == 0,
{
    lemma_trim_start(s, s.len() as int);
}

/// A text that begins with a piece and a separator splits into that piece and what the rest
/// splits into, with one piece less to go.
pub proof fn pieces_come_off_one_by_one(s: Seq<char>, c: char, rest: Seq<char>, limit: nat)
    requires
        !s.contains(c),
        limit >= 2,
    ensures
        split_n(s.push(c) + rest, Separator::One(c), limit) == seq![s] + split_n(
            rest,
            Separator::One(c),
            (limit - 1) as nat,
        ),
    decreases rest.len(),
{
    let sep = Separator::One(c);
    let whole = s.push(c) + rest;
    let left = (limit - 1) as nat;
    lemma_split_len(rest, sep, left);
    if rest.len() == 0 {
        assert(whole.drop_last() =~= s);
        lemma_whole_piece(s, c, limit);
        assert(split_n(whole, sep, limit) =~= seq![s] + split_n(rest, sep, left));
    } else {
        let t = rest.drop_last();
        pieces_come_off_one_by_one(s, c, t, limit);
        lemma_split_len(t, sep, left);
        assert(whole.drop_last() =~= s.push(c) + t);
        assert(whole.last() == rest.last());
        let before = split_n(s.push(c) + t, sep, limit);
        let inner = split_n(t, sep, left);
        assert(before.drop_last() =~= seq![s] + inner.drop_last());
        assert(split_n(whole, sep, limit) =~= seq![s] + split_n(rest, sep, left));
    }
}

/// The last piece that a limit allows keeps its separators, and a text without one is a single
/// piece.
pub proof fn the_last_piece_is_whole(s: Seq<char>, c: char, limit: nat)
    ensures
        split_n(s, Separator::One(c), 1) == seq![s],
        !s.contains(c) ==> split_n(s, Separator::One(c), limit) == seq![s],
    decreases s.len(),
{
    if s.len() > 0 {
        the_last_piece_is_whole(s.drop_last(), c, limit);
        assert(s.drop_last().push(s.last()) =~= s);
        assert(split_n(s, Separator::One(c), 1) =~= seq![s]);
    } else {
        assert(s =~= Seq::empty());
    }
    if !s.contains(c) {
        lemma_whole_piece(s, c, limit);
    }
}

/// The numeral of a number has neither spaces nor signs in it.
pub proof fn numerals_are_digits(n: nat, radix: nat, c: char)
    requires
        2 <= radix <= 36,
        c == ' ' || c == '-' || c == '+' || c == '\0' || c == '\n',
    ensures
        !numeral(n, radix).contains(c),
        numeral(n, radix).len() > 0,
        forall|i: int| 0 <= i < numeral(n, radix).len() ==> !is_space(#[trigger] numeral(n, radix)[i]),
{
    lemma_numeral_chars(n, radix);
    let s = numeral(n, radix);
    assert forall|i: int| 0 <= i < s.len() implies s[i] != c by {
        assert(exists|d: int| 0 <= d < 36 && s[i] == #[trigger] digit(d));
    }
}

proof fn lemma_numeral_chars(n: nat, radix: nat)
    requires
        2 <= radix <= 36,
    ensures
        numeral(n, radix).len() > 0,
        forall|i: int|
            0 <= i < numeral(n, radix).len() ==> exists|d: int|
                0 <= d < 36 && #[trigger] numeral(n, radix)[i] == #[trigger] digit(d),
    decreases n,
{
    let s = numeral(n, radix);
    if n < radix {
        assert(s[0] == digit(n as int));
    } else {
        assert(n / radix < n) by (nonlinear_arith)
            requires
                radix >= 2,
                n >= radix,
        ;
        lemma_numeral_chars(n / radix, radix);
        let rest = numeral(n / radix, radix);
        let d = (n % radix) as int;
        assert(0 <= d < radix) by (nonlinear_arith)
            requires
                d == n % radix,
                radix >= 2,
        ;
        assert forall|i: int| 0 <= i < s.len() implies exists|d: int|
            0 <= d < 36 && #[trigger] s[i] == #[trigger] digit(d) by {
            if i < rest.len() {
                assert(s[i] == rest[i]);
            } else {
                assert(s[i] == digit(d));
            }
        }
    }
}

/// A negative number is shown as its amount behind a minus sign, and no other number has one.
pub proof fn signs_are_shown(n: int)
    requires
        -0x8000_0000 <= n <= 0x7fff_ffff,
    ensures
        n < 0 <==> signed_decimal(n)[0] == '-',
        n < 0 ==> number(signed_decimal(n).skip(1), 10, 0xffff_ffff) == Ok::<nat, IntError>(
            (-n) as nat,
        ),
        n >= 0 ==> number(signed_decimal(n), 10, 0xffff_ffff) == Ok::<nat, IntError>(n as nat),
{
    reveal_strlit("-");
    if n < 0 {
        numerals_are_read_back((-n) as nat, 10, 0xffff_ffff);
        assert(signed_decimal(n).skip(1) =~= decimal((-n) as nat));
    } else {
        numerals_are_read_back(n as nat, 10, 0xffff_ffff);
        numerals_are_digits(n as nat, 10, '-');
        assert(decimal(n as nat).contains(decimal(n as nat)[0]));
    }
}

/// A number that is larger than the largest one is refused when it is read.
pub proof fn large_numbers_are_refused(n: nat, radix: nat, max: nat)
    requires
        2 <= radix <= 36,
        n > max,
    ensures
        number(numeral(n, radix), radix, max) == Err::<nat, IntError>(IntError::Overflow),
{
    lemma_large_numeral(n, radix, max);
    lemma_numeral(n, radix, n);
    assert(numeral(n, radix)[0] != '+' && numeral(n, radix)[0] != '-');
}

proof fn lemma_large_numeral(n: nat, radix: nat, max: nat)
    requires
        2 <= radix <= 36,
        n > max,
    ensures
        digits_value(numeral(n, radix), radix, max) == Err::<nat, IntError>(IntError::Overflow),
    decreases n,
{
    let s = numeral(n, radix);
    if n < radix {
        assert(s.drop_last() =~= Seq::empty());
        assert(digits_value(s.drop_last(), radix, max) == Ok::<nat, IntError>(0));
        assert(digit_value(s.last(), radix) == Some(n));
        assert(0 * radix == 0);
    } else {
        let (q, d) = (n / radix, n % radix);
        assert(q < n && q * radix + d == n && d < radix) by (nonlinear_arith)
            requires
                radix >= 2,
                n >= radix,
                q == n / radix,
                d == n % radix,
        ;
        assert(s.drop_last() =~= numeral(q, radix));
        assert(digit_value(s.last(), radix) == Some(d));
        if q > max {
            lemma_large_numeral(q, radix, max);
        } else {
            lemma_numeral(q, radix, max);
        }
    }
}

/// What is read as a number consists of digits, but for a plus sign before them, and is no
/// larger than the largest one.
pub proof fn numbers_are_made_of_digits(s: Seq<char>, radix: nat, max: nat, i: int)
    requires
        number(s, radix, max) is Ok,
        0 <= i < s.len(),
    ensures
        digit_value(s[i], radix) is Some || (i == 0 && s[i] == '+' && s.len() > 1),
        number(s, radix, max)->Ok_0 <= max,
{
    if s[0] == '+' {
        lemma_all_digits(s.skip(1), radix, max);
        if i > 0 {
            assert(s.skip(1)[i - 1] == s[i]);
        }
    } else {
        lemma_all_digits(s, radix, max);
    }
}

proof fn lemma_all_digits(s: Seq<char>, radix: nat, max: nat)
    requires
        digits_value(s, radix, max) is Ok,
    ensures
        forall|i: int| 0 <= i < s.len() ==> digit_value(#[trigger] s[i], radix) is Some,
        digits_value(s, radix, max)->Ok_0 <= max,
    decreases s.len(),
{
    if s.len() > 0 {
        let rest = s.drop_last();
        lemma_all_digits(rest, radix, max);
        assert forall|i: int| 0 <= i < s.len() implies digit_value(
            #[trigger] s[i],
            radix,
        ) is Some by {
            if i < rest.len() {
                assert(s[i] == rest[i]);
            }
        }
    }
}

/// A line ends at a line feed, and a carriage return before it is no part of the line.
pub proof fn lines_end_at_line_feeds(a: Seq<char>, rest: Seq<char>)
    requires
        !a.contains('\n'),
        a.len() > 0 ==> a.last() != '\r',
    ensures
        lines_of(a.push('\n') + rest) == seq![a] + lines_of(rest),
        lines_of(a.push('\r').push('\n') + rest) == seq![a] + lines_of(rest),
{
    let crlf = a.push('\r');
    assert(!crlf.contains('\n')) by {
        assert forall|i: int| 0 <= i < crlf.len() implies crlf[i] != '\n' by {
            if i < a.len() {
                assert(a.contains(a[i]));
            }
        }
    }
    lemma_first_line(a, rest);
    lemma_first_line(crlf, rest);
    assert(strip_cr(a) == a);
    assert(crlf.drop_last() =~= a);
    assert(strip_cr(crlf) == a);
}

proof fn lemma_first_line(a: Seq<char>, rest: Seq<char>)
    requires
        !a.contains('\n'),
    ensures
        lines_of(a.push('\n') + rest) == seq![strip_cr(a)] + lines_of(rest),
{
    let sep = Separator::One('\n');
    let whole = a.push('\n') + rest;
    let limit = (whole.len() + 1) as nat;
    pieces_come_off_one_by_one(a, '\n', rest, limit);
    lemma_split_unlimited(rest, sep, (limit - 1) as nat, (rest.len() + 1) as nat);
    split_is_never_empty(rest, sep);
    let y = split(rest, sep);
    let pieces = split(whole, sep);
    assert(pieces == seq![a] + y);
    let ended = Seq::new((pieces.len() - 1) as nat, |i: int| strip_cr(pieces[i]));
    let late = Seq::new((y.len() - 1) as nat, |i: int| strip_cr(y[i]));
    assert(pieces.last() == y.last());
    assert(ended =~= seq![strip_cr(a)] + late);
    assert(ended.push(y.last()) =~= seq![strip_cr(a)] + late.push(y.last()));
}

} // verus!
