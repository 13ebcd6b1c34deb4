//! Candidate addresses and the value types that they may hold.
//!
//! A [`Candidate`] is an address that matched a scan, together with the interpretations of
//! its bytes that are still possible ([`TypeFlags`]). A scan looks for every plausible type
//! at once, and filter passes narrow the flags down. [`ValueType`] names one type for writes
//! and freezes, and [`encode_value_patterns`] gives the byte patterns that a number can have.

use crate::bytes;
use crate::bytes::to_array;
use crate::number;
use crate::number::Double;
use crate::text;
use crate::text::{address_text, join};
use vstd::prelude::*;

verus! {

/// Which interpretations of an address's bytes are still possible.
#[derive(Clone, Copy, Debug, PartialEq, Eq, Hash, Structural)]
pub struct TypeFlags {
    /// Signed, four bytes.
    pub int32: bool,
    /// Unsigned, four bytes.
    pub uint32: bool,
    /// Single precision.
    pub float32: bool,
    /// Signed, eight bytes.
    pub int64: bool,
    /// Unsigned, eight bytes.
    pub uint64: bool,
    /// Double precision.
    pub float64: bool,
}

/// `name` alone where `set` holds, nothing otherwise.
pub open spec fn named(set: bool, name: Seq<char>) -> Seq<Seq<char>> {
    if set {
        seq![name]
    } else {
        Seq::empty()
    }
}

fn push_named(names: &mut Vec<String>, set: bool, name: &str)
    ensures
        text::texts(final(names)@) == text::texts(old(names)@) + named(set, name@),
{
    if set {
        names.push(name.to_string());
    }
    assert(text::texts(names@) =~= text::texts(old(names)@) + named(set, name@));
}

impl TypeFlags {
    /// No flag.
    pub open spec fn none() -> TypeFlags {
        TypeFlags { int32: false, uint32: false, float32: false, int64: false, uint64: false, float64: false }
    }

    /// Every flag.
    pub open spec fn every() -> TypeFlags {
        TypeFlags { int32: true, uint32: true, float32: true, int64: true, uint64: true, float64: true }
    }

    /// The flags that are in either.
    pub open spec fn or(self, other: TypeFlags) -> TypeFlags {
        TypeFlags {
            int32: self.int32 || other.int32,
            uint32: self.uint32 || other.uint32,
            float32: self.float32 || other.float32,
            int64: self.int64 || other.int64,
            uint64: self.uint64 || other.uint64,
            float64: self.float64 || other.float64,
        }
    }

    /// The flags that are in both.
    pub open spec fn and(self, other: TypeFlags) -> TypeFlags {
        TypeFlags {
            int32: self.int32 && other.int32,
            uint32: self.uint32 && other.uint32,
            float32: self.float32 && other.float32,
            int64: self.int64 && other.int64,
            uint64: self.uint64 && other.uint64,
            float64: self.float64 && other.float64,
        }
    }

    /// At least one flag is in both.
    pub open spec fn meets(self, other: TypeFlags) -> bool {
        self.and(other) != TypeFlags::none()
    }

    /// One of the eight-byte types is possible.
    pub open spec fn wide(self) -> bool {
        self.int64 || self.uint64 || self.float64
    }

    /// The names of the flags that are set, in a fixed order.
    pub open spec fn names(self) -> Seq<Seq<char>> {
        named(self.int32, "i32"@) + named(self.uint32, "u32"@) + named(self.float32, "f32"@) + named(
            self.int64,
            "i64"@,
        ) + named(self.uint64, "u64"@) + named(self.float64, "f64"@)
    }

    /// No flag.
    pub fn empty() -> (r: TypeFlags)
        ensures
            r == TypeFlags::none(),
    {
        TypeFlags { int32: false, uint32: false, float32: false, int64: false, uint64: false, float64: false }
    }

    /// Every flag.
    pub fn all() -> (r: TypeFlags)
        ensures
            r == TypeFlags::every(),
    {
        TypeFlags { int32: true, uint32: true, float32: true, int64: true, uint64: true, float64: true }
    }

    /// The flag of signed four-byte numbers.
    pub fn int32() -> (r: TypeFlags)
        ensures
            r == ValueType::I32.flag(),
    {
        TypeFlags { int32: true, ..TypeFlags::empty() }
    }

    /// The flag of unsigned four-byte numbers.
    pub fn uint32() -> (r: TypeFlags)
        ensures
            r == ValueType::U32.flag(),
    {
        TypeFlags { uint32: true, ..TypeFlags::empty() }
    }

    /// The flag of single-precision numbers.
    pub fn float32() -> (r: TypeFlags)
        ensures
            r == ValueType::F32.flag(),
    {
        TypeFlags { float32: true, ..TypeFlags::empty() }
    }

    /// The flag of signed eight-byte numbers.
    pub fn int64() -> (r: TypeFlags)
        ensures
            r == ValueType::I64.flag(),
    {
        TypeFlags { int64: true, ..TypeFlags::empty() }
    }

    /// The flag of unsigned eight-byte numbers.
    pub fn uint64() -> (r: TypeFlags)
        ensures
            r == ValueType::U64.flag(),
    {
        TypeFlags { uint64: true, ..TypeFlags::empty() }
    }

    /// The flag of double-precision numbers.
    pub fn float64() -> (r: TypeFlags)
        ensures
            r == ValueType::F64.flag(),
    {
        TypeFlags { float64: true, ..TypeFlags::empty() }
    }

    /// The flags that are in either.
    pub fn union(self, other: TypeFlags) -> (r: TypeFlags)
        ensures
            r == self.or(other),
    {
        TypeFlags {
            int32: self.int32 || other.int32,
            uint32: self.uint32 || other.uint32,
            float32: self.float32 || other.float32,
            int64: self.int64 || other.int64,
            uint64: self.uint64 || other.uint64,
            float64: self.float64 || other.float64,
        }
    }

    /// The flags that are in both.
    pub fn intersection(self, other: TypeFlags) -> (r: TypeFlags)
        ensures
            r == self.and(other),
    {
        TypeFlags {
            int32: self.int32 && other.int32,
            uint32: self.uint32 && other.uint32,
            float32: self.float32 && other.float32,
            int64: self.int64 && other.int64,
            uint64: self.uint64 && other.uint64,
            float64: self.float64 && other.float64,
        }
    }

    /// Whether no flag is set.
    pub fn is_empty(self) -> (r: bool)
        ensures
            r == (self == TypeFlags::none()),
    {
        self == TypeFlags::empty()
    }

    /// Whether at least one flag is in both.
    pub fn intersects(self, other: TypeFlags) -> (r: bool)
        ensures
            r == self.meets(other),
    {
        !self.intersection(other).is_empty()
    }

    /// Whether every flag of `other` is set.
    pub fn contains(self, other: TypeFlags) -> (r: bool)
        ensures
            r == (self.and(other) == other),
    {
        self.intersection(other) == other
    }

    /// The names of the flags that are set.
    pub fn name_list(self) -> (r: Vec<String>)
        ensures
            text::texts(r@) == self.names(),
    {
        let mut names: Vec<String> = Vec::new();
        assert(text::texts(names@) =~= Seq::empty());
        push_named(&mut names, self.int32, "i32");
        push_named(&mut names, self.uint32, "u32");
        push_named(&mut names, self.float32, "f32");
        push_named(&mut names, self.int64, "i64");
        push_named(&mut names, self.uint64, "u64");
        push_named(&mut names, self.float64, "f64");
        assert(Seq::<Seq<char>>::empty() + named(self.int32, "i32"@) =~= named(self.int32, "i32"@));
        names
    }

    /// The names of the flags that are set, with `|` between them.
    pub fn to_text(self) -> (r: String)
        ensures
            r@ == text::joined(self.names(), "|"@),
    {
        join(&self.name_list(), "|")
    }
}

/// One value type, for scans and writes.
#[derive(Clone, Copy, Debug, PartialEq, Eq, Hash, Structural)]
pub enum ValueType {
    /// Signed, four bytes.
    I32,
    /// Unsigned, four bytes.
    U32,
    /// Single precision.
    F32,
    /// Signed, eight bytes.
    I64,
    /// Unsigned, eight bytes.
    U64,
    /// Double precision.
    F64,
    /// Any of them.
    Auto,
}

impl ValueType {
    /// The width in bytes; 0 for `Auto`.
    pub open spec fn width(self) -> nat {
        match self {
            ValueType::I32 | ValueType::U32 | ValueType::F32 => 4,
            ValueType::I64 | ValueType::U64 | ValueType::F64 => 8,
            ValueType::Auto => 0,
        }
    }

    /// The flags that the type stands for.
    pub open spec fn flag(self) -> TypeFlags {
        match self {
            ValueType::I32 => TypeFlags { int32: true, ..TypeFlags::none() },
            ValueType::U32 => TypeFlags { uint32: true, ..TypeFlags::none() },
            ValueType::F32 => TypeFlags { float32: true, ..TypeFlags::none() },
            ValueType::I64 => TypeFlags { int64: true, ..TypeFlags::none() },
            ValueType::U64 => TypeFlags { uint64: true, ..TypeFlags::none() },
            ValueType::F64 => TypeFlags { float64: true, ..TypeFlags::none() },
            ValueType::Auto => TypeFlags::every(),
        }
    }

    /// The type's name.
    pub open spec fn name(self) -> Seq<char> {
        match self {
            ValueType::I32 => "i32"@,
            ValueType::U32 => "u32"@,
            ValueType::F32 => "f32"@,
            ValueType::I64 => "i64"@,
            ValueType::U64 => "u64"@,
            ValueType::F64 => "f64"@,
            ValueType::Auto => "auto"@,
        }
    }

    /// The width in bytes; 0 for `Auto`.
    #[must_use]
    pub fn byte_size(self) -> (r: usize)
        ensures
            r == self.width(),
    {
        match self {
            ValueType::I32 | ValueType::U32 | ValueType::F32 => 4,
            ValueType::I64 | ValueType::U64 | ValueType::F64 => 8,
            ValueType::Auto => 0,
        }
    }

    /// The flags that the type stands for.
    #[must_use]
    pub fn to_flag(self) -> (r: TypeFlags)
        ensures
            r == self.flag(),
    {
        match self {
            ValueType::I32 => TypeFlags::int32(),
            ValueType::U32 => TypeFlags::uint32(),
            ValueType::F32 => TypeFlags::float32(),
            ValueType::I64 => TypeFlags::int64(),
            ValueType::U64 => TypeFlags::uint64(),
            ValueType::F64 => TypeFlags::float64(),
            ValueType::Auto => TypeFlags::all(),
        }
    }

    /// The type's name.
    pub fn to_text(self) -> (r: String)
        ensures
            r@ == self.name(),
    {
        match self {
            ValueType::I32 => "i32".to_string(),
            ValueType::U32 => "u32".to_string(),
            ValueType::F32 => "f32".to_string(),
            ValueType::I64 => "i64".to_string(),
            ValueType::U64 => "u64".to_string(),
            ValueType::F64 => "f64".to_string(),
            ValueType::Auto => "auto".to_string(),
        }
    }
}

/// An address that matched a scan.
#[derive(Clone, Copy, Debug, PartialEq, Eq)]
pub struct Candidate {
    /// Where it is in the target process.
    pub address: u64,
    /// Which interpretations matched.
    pub types: TypeFlags,
    /// How many filter passes have confirmed it.
    pub confidence: u8,
    /// What was last read there.
    pub last_value: [u8; 8],
}

/// A [`Candidate`] as a mathematical value.
pub struct CandidateView {
    /// Where it is in the target process.
    pub address: u64,
    /// Which interpretations matched.
    pub types: TypeFlags,
    /// How many filter passes have confirmed it.
    pub confidence: u8,
    /// What was last read there.
    pub last_value: Seq<u8>,
}

impl View for Candidate {
    type V = CandidateView;

    open spec fn view(&self) -> CandidateView {
        CandidateView {
            address: self.address,
            types: self.types,
            confidence: self.confidence,
            last_value: self.last_value@,
        }
    }
}

/// The mathematical values of a list of candidates.
pub open spec fn candidate_views(v: Seq<Candidate>) -> Seq<CandidateView> {
    Seq::new(v.len(), |i: int| v[i]@)
}

impl Candidate {
    /// A candidate that no pass has confirmed yet, with a zero value.
    #[must_use]
    pub fn new(address: u64, types: TypeFlags) -> (r: Candidate)
        ensures
            r.address == address,
            r.types == types,
            r.confidence == 0,
            r.last_value@ == Seq::new(8, |i: int| 0u8),
    {
        let r = Candidate { address, types, confidence: 0, last_value: [0; 8] };
        assert(r.last_value@ =~= Seq::new(8, |i: int| 0u8));
        r
    }

    /// A candidate that no pass has confirmed yet.
    #[must_use]
    pub fn with_value(address: u64, types: TypeFlags, last_value: [u8; 8]) -> (r: Candidate)
        ensures
            r == (Candidate { address, types, confidence: 0, last_value }),
    {
        Candidate { address, types, confidence: 0, last_value }
    }
}

impl PartialOrd for Candidate {
    fn partial_cmp(&self, other: &Candidate) -> (r: Option<std::cmp::Ordering>) {
        if self.address < other.address {
            Some(std::cmp::Ordering::Less)
        } else if self.address == other.address {
            Some(std::cmp::Ordering::Equal)
        } else {
            Some(std::cmp::Ordering::Greater)
        }
    }
}

impl vstd::std_specs::cmp::PartialOrdSpecImpl for Candidate {
    open spec fn obeys_partial_cmp_spec() -> bool {
        true
    }

    open spec fn partial_cmp_spec(&self, other: &Candidate) -> Option<std::cmp::Ordering> {
        if self.address < other.address {
            Some(std::cmp::Ordering::Less)
        } else if self.address == other.address {
            Some(std::cmp::Ordering::Equal)
        } else {
            Some(std::cmp::Ordering::Greater)
        }
    }
}

/// A candidate in a reply. The address is text, because a JavaScript number loses precision
/// above 2^53.
#[derive(Clone, Debug)]
pub struct CandidateJson {
    /// The address in hexadecimal.
    pub address: String,
    /// The names of the possible types.
    pub types: Vec<String>,
    /// How many filter passes have confirmed it.
    pub confidence: u8,
}

impl CandidateJson {
    /// This is how `c` is shown.
    pub open spec fn shows(self, c: CandidateView) -> bool {
        &&& self.address@ == text::address(c.address)
        &&& text::texts(self.types@) == c.types.names()
        &&& self.confidence == c.confidence
    }
}

impl From<&Candidate> for CandidateJson {
    fn from(c: &Candidate) -> (r: CandidateJson)
        ensures
            r.shows(c@),
    {
        CandidateJson {
            address: address_text(c.address),
            types: c.types.name_list(),
            confidence: c.confidence,
        }
    }
}

impl vstd::std_specs::convert::FromSpecImpl<&Candidate> for CandidateJson {
    open spec fn obeys_from_spec() -> bool {
        false
    }

    open spec fn from_spec(c: &Candidate) -> CandidateJson {
        arbitrary()
    }
}

/// A byte pattern: the bytes (padded with zeros to eight), the types it stands for, how many
/// of the bytes count, and whether a single-precision number near it matches as well.
pub type ValuePattern = ([u8; 8], TypeFlags, usize, bool);

/// A [`ValuePattern`] as a mathematical value.
pub struct PatternView {
    /// All eight bytes.
    pub bytes: Seq<u8>,
    /// The types it stands for.
    pub flags: TypeFlags,
    /// How many of the bytes count.
    pub size: nat,
    /// A single-precision number near it matches as well.
    pub epsilon: bool,
}

/// The mathematical value of a pattern.
pub open spec fn pattern_view(p: ValuePattern) -> PatternView {
    PatternView { bytes: p.0@, flags: p.1, size: p.2 as nat, epsilon: p.3 }
}

/// The mathematical values of a list of patterns.
pub open spec fn pattern_views(v: Seq<ValuePattern>) -> Seq<PatternView> {
    Seq::new(v.len(), |i: int| pattern_view(v[i]))
}

/// The four-byte integer pattern of `v`: only for a whole number that `i32` or `u32` holds,
/// and for those of the two that hold it.
pub open spec fn narrow_integer(v: Double) -> Seq<PatternView> {
    if v.whole() && i32::MIN <= v.truncated() <= u32::MAX {
        let i = v.truncated();
        seq![
            PatternView {
                bytes: bytes::le_bytes(bytes::wrapped(i, 0x1_0000_0000), 8),
                flags: TypeFlags {
                    int32: i <= i32::MAX,
                    uint32: i >= 0,
                    ..TypeFlags::none()
                },
                size: 4,
                epsilon: false,
            },
        ]
    } else {
        Seq::empty()
    }
}

/// The single-precision pattern of `v`: only where single precision comes close to it.
pub open spec fn single_float(v: Double) -> Seq<PatternView> {
    if v.close_to_single() {
        seq![
            PatternView {
                bytes: bytes::le_bytes(v.single(), 8),
                flags: ValueType::F32.flag(),
                size: 4,
                epsilon: true,
            },
        ]
    } else {
        Seq::empty()
    }
}

/// The eight-byte integer pattern of `v`: only for a whole number that `i64` or `u64` holds,
/// and for those of the two that hold it.
pub open spec fn wide_integer(v: Double) -> Seq<PatternView> {
    if v.whole() && i64::MIN <= v.truncated() <= u64::MAX {
        let i = v.truncated();
        seq![
            PatternView {
                bytes: bytes::le_bytes(bytes::wrapped(i, 0x1_0000_0000_0000_0000), 8),
                flags: TypeFlags {
                    int64: i <= i64::MAX,
                    uint64: i >= 0,
                    ..TypeFlags::none()
                },
                size: 8,
                epsilon: false,
            },
        ]
    } else {
        Seq::empty()
    }
}

/// The double-precision pattern of `v`: left out where it equals the eight-byte integer's.
pub open spec fn double_float(v: Double) -> Seq<PatternView> {
    let b = bytes::le_bytes(v.bits as nat, 8);
    if wide_integer(v).len() > 0 && wide_integer(v)[0].bytes == b {
        Seq::empty()
    } else {
        seq![PatternView { bytes: b, flags: ValueType::F64.flag(), size: 8, epsilon: false }]
    }
}

/// Every byte pattern that the number `v` can have.
pub open spec fn value_patterns(v: Double) -> Seq<PatternView> {
    narrow_integer(v) + single_float(v) + wide_integer(v) + double_float(v)
}

/// Every pattern of a number counts four or eight of its eight bytes; one that is matched
/// approximately counts four. There is always a pattern of eight.
pub proof fn pattern_sizes(v: Double)
    ensures
        forall|i: int|
            0 <= i < value_patterns(v).len() ==> {
                let p = #[trigger] value_patterns(v)[i];
                &&& p.bytes.len() == 8
                &&& p.size == 4 || p.size == 8
                &&& p.epsilon ==> p.size == 4
            },
        value_patterns(v).len() > 0,
{
    assert forall|n: nat| #[trigger] bytes::le_bytes(n, 8).len() == 8 by {
        bytes::le_bytes_len(n, 8);
    }
    let (a, b, c, d) = (narrow_integer(v), single_float(v), wide_integer(v), double_float(v));
    assert forall|i: int| 0 <= i < value_patterns(v).len() implies {
        let p = #[trigger] value_patterns(v)[i];
        &&& p.bytes.len() == 8
        &&& p.size == 4 || p.size == 8
        &&& p.epsilon ==> p.size == 4
    } by {
        if i < a.len() {
            assert(value_patterns(v)[i] == a[i]);
        } else if i < a.len() + b.len() {
            assert(value_patterns(v)[i] == b[i - a.len()]);
        } else if i < a.len() + b.len() + c.len() {
            assert(value_patterns(v)[i] == c[i - a.len() - b.len()]);
        } else {
            assert(value_patterns(v)[i] == d[i - a.len() - b.len() - c.len()]);
        }
    }
}

/// The first `width` bytes of the eight bytes of a number that they can hold stand for it.
proof fn lemma_first_bytes(n: nat, width: nat)
    requires
        width == 4 && n < 0x1_0000_0000 || width == 8 && n < 0x1_0000_0000_0000_0000,
    ensures
        bytes::le_value(bytes::le_bytes(n, 8).take(width as int)) == n,
{
    vstd::arithmetic::power2::lemma2_to64();
    vstd::arithmetic::power2::lemma2_to64_rest();
    bytes::le_bytes_prefix(n, width, 8);
    bytes::le_round_trip(n, width);
}

/// Each pattern of a number reads back as that number in every type that it stands for.
pub proof fn patterns_read_back(v: Double)
    ensures
        forall|i: int|
            0 <= i < value_patterns(v).len() ==> {
                let p = #[trigger] value_patterns(v)[i];
                let four = bytes::le_value(p.bytes.take(4));
                let eight = bytes::le_value(p.bytes.take(8));
                &&& p.flags.int32 ==> p.size == 4 && v.whole() && v.truncated() == if four
                    < 0x8000_0000 {
                    four as int
                } else {
                    four - 0x1_0000_0000
                }
                &&& p.flags.uint32 ==> p.size == 4 && v.whole() && v.truncated() == four
                &&& p.flags.float32 ==> p.size == 4 && four == v.single() && v.close_to_single()
                &&& p.flags.int64 ==> p.size == 8 && v.whole() && v.truncated() == if eight
                    < 0x8000_0000_0000_0000 {
                    eight as int
                } else {
                    eight - 0x1_0000_0000_0000_0000
                }
                &&& p.flags.uint64 ==> p.size == 8 && v.whole() && v.truncated() == eight
                &&& p.flags.float64 ==> p.size == 8 && eight == v.bits
                &&& p.epsilon <==> p.flags.float32
            },
{
    number::single_fits(v);
    lemma_first_bytes(v.bits as nat, 8);
    lemma_first_bytes(v.single(), 4);
    if v.whole() && i32::MIN <= v.truncated() <= u32::MAX {
        lemma_first_bytes(bytes::wrapped(v.truncated(), 0x1_0000_0000), 4);
    }
    if v.whole() && i64::MIN <= v.truncated() <= u64::MAX {
        lemma_first_bytes(bytes::wrapped(v.truncated(), 0x1_0000_0000_0000_0000), 8);
    }
    let (a, b, c, d) = (narrow_integer(v), single_float(v), wide_integer(v), double_float(v));
    assert forall|i: int| 0 <= i < value_patterns(v).len() implies {
        let p = #[trigger] value_patterns(v)[i];
        let four = bytes::le_value(p.bytes.take(4));
        let eight = bytes::le_value(p.bytes.take(8));
        &&& p.flags.int32 ==> p.size == 4 && v.whole() && v.truncated() == if four < 0x8000_0000 {
            four as int
        } else {
            four - 0x1_0000_0000
        }
        &&& p.flags.uint32 ==> p.size == 4 && v.whole() && v.truncated() == four
        &&& p.flags.float32 ==> p.size == 4 && four == v.single() && v.close_to_single()
        &&& p.flags.int64 ==> p.size == 8 && v.whole() && v.truncated() == if eight
            < 0x8000_0000_0000_0000 {
            eight as int
        } else {
            eight - 0x1_0000_0000_0000_0000
        }
        &&& p.flags.uint64 ==> p.size == 8 && v.whole() && v.truncated() == eight
        &&& p.flags.float64 ==> p.size == 8 && eight == v.bits
        &&& p.epsilon <==> p.flags.float32
    } by {
        if i < a.len() {
            assert(value_patterns(v)[i] == a[i]);
        } else if i < a.len() + b.len() {
            assert(value_patterns(v)[i] == b[i - a.len()]);
        } else if i < a.len() + b.len() + c.len() {
            assert(value_patterns(v)[i] == c[i - a.len() - b.len()]);
        } else {
            assert(value_patterns(v)[i] == d[i - a.len() - b.len() - c.len()]);
        }
    }
}

/// One of the patterns stands for the type.
pub open spec fn stands_for(patterns: Seq<PatternView>, t: ValueType) -> bool {
    exists|i: int| 0 <= i < patterns.len() && (#[trigger] patterns[i]).flags.meets(t.flag())
}

/// Each type that can hold a number has a pattern: the integer types where it is whole and in
/// their range, single precision where it comes close, and double precision always, whose bits
/// may be those of an eight-byte integer. No integer type has one for a number that is out of
/// its range or has a fractional part.
pub proof fn types_that_hold_a_number_have_its_pattern(v: Double)
    ensures
        stands_for(value_patterns(v), ValueType::I32) <==> v.whole() && -0x8000_0000
            <= v.truncated() <= 0x7fff_ffff,
        stands_for(value_patterns(v), ValueType::U32) <==> v.whole() && 0 <= v.truncated()
            <= 0xffff_ffff,
        stands_for(value_patterns(v), ValueType::I64) <==> v.whole() && -0x8000_0000_0000_0000
            <= v.truncated() <= 0x7fff_ffff_ffff_ffff,
        stands_for(value_patterns(v), ValueType::U64) <==> v.whole() && 0 <= v.truncated()
            <= 0xffff_ffff_ffff_ffff,
        stands_for(value_patterns(v), ValueType::F32) <==> v.close_to_single(),
        exists|i: int|
            0 <= i < value_patterns(v).len() && {
                let p = #[trigger] value_patterns(v)[i];
                p.size == 8 && bytes::le_value(p.bytes.take(8)) == v.bits && (p.flags.float64
                    || p.flags.int64 || p.flags.uint64)
            },
{
    let all = value_patterns(v);
    let (a, b, c, d) = (narrow_integer(v), single_float(v), wide_integer(v), double_float(v));
    patterns_read_back(v);
    lemma_first_bytes(v.bits as nat, 8);
    assert forall|i: int| 0 <= i < all.len() implies ({
        ||| a.len() > 0 && #[trigger] all[i] == a[0]
        ||| b.len() > 0 && all[i] == b[0]
        ||| c.len() > 0 && all[i] == c[0]
        ||| d.len() > 0 && all[i] == d[0]
    }) by {
        if i < a.len() {
            assert(all[i] == a[i]);
        } else if i < a.len() + b.len() {
            assert(all[i] == b[i - a.len()]);
        } else if i < a.len() + b.len() + c.len() {
            assert(all[i] == c[i - a.len() - b.len()]);
        } else {
            assert(all[i] == d[i - a.len() - b.len() - c.len()]);
        }
    }
    if a.len() > 0 {
        assert(all[0] == a[0]);
        if a[0].flags.int32 {
            assert(all[0].flags.meets(ValueType::I32.flag()));
        }
        if a[0].flags.uint32 {
            assert(all[0].flags.meets(ValueType::U32.flag()));
        }
    }
    if b.len() > 0 {
        assert(all[a.len() as int] == b[0]);
        assert(all[a.len() as int].flags.meets(ValueType::F32.flag()));
    }
    let k = a.len() + b.len();
    if c.len() > 0 {
        assert(all[k as int] == c[0]);
        if c[0].flags.int64 {
            assert(all[k as int].flags.meets(ValueType::I64.flag()));
        }
        if c[0].flags.uint64 {
            assert(all[k as int].flags.meets(ValueType::U64.flag()));
        }
    }
    if d.len() > 0 {
        assert(all[(k + c.len()) as int] == d[0]);
    } else {
        assert(c[0].bytes == bytes::le_bytes(v.bits as nat, 8));
        assert(all[k as int].flags.int64 || all[k as int].flags.uint64);
    }
}

/// A double-precision pattern stands only for a number whose bits are not those of an
/// eight-byte integer of the same value.
pub proof fn double_stands_apart(v: Double, i: int)
    requires
        0 <= i < value_patterns(v).len(),
        value_patterns(v)[i].flags.float64,
    ensures
        !(v.whole() && (v.truncated() == v.bits || v.truncated() < 0 && v.truncated()
            + 0x1_0000_0000_0000_0000 == v.bits)),
{
    let (a, b, c, d) = (narrow_integer(v), single_float(v), wide_integer(v), double_float(v));
    if i < a.len() {
        assert(value_patterns(v)[i] == a[i]);
    } else if i < a.len() + b.len() {
        assert(value_patterns(v)[i] == b[i - a.len()]);
    } else if i < a.len() + b.len() + c.len() {
        assert(value_patterns(v)[i] == c[i - a.len() - b.len()]);
    } else {
        assert(d.len() > 0);
        let n = bytes::wrapped(v.truncated(), 0x1_0000_0000_0000_0000);
        if v.truncated() < 0 {
            vstd::arithmetic::power2::lemma_pow2_pos(1074);
            vstd::arithmetic::div_mod::lemma_div_pos_is_pos(
                v.scaled() as int,
                vstd::arithmetic::power2::pow2(1074) as int,
            );
            assert(v.negative());
        }
        if c.len() > 0 && n == v.bits {
            assert(c[0].bytes == bytes::le_bytes(v.bits as nat, 8));
        }
    }
}

/// Where a number's bits are not those of an eight-byte integer of the same value, it has a
/// double-precision pattern.
pub proof fn double_has_its_pattern(v: Double) -> (i: int)
    requires
        !(v.whole() && (v.truncated() == v.bits || v.truncated() < 0 && v.truncated()
            + 0x1_0000_0000_0000_0000 == v.bits)),
    ensures
        0 <= i < value_patterns(v).len(),
        value_patterns(v)[i].flags == ValueType::F64.flag(),
        value_patterns(v)[i].size == 8,
        bytes::le_value(value_patterns(v)[i].bytes.take(8)) == v.bits,
{
    let (a, b, c, d) = (narrow_integer(v), single_float(v), wide_integer(v), double_float(v));
    lemma_first_bytes(v.bits as nat, 8);
    if d.len() == 0 {
        let n = bytes::wrapped(v.truncated(), 0x1_0000_0000_0000_0000);
        lemma_first_bytes(n, 8);
        assert(c[0].bytes == bytes::le_bytes(n, 8));
    }
    let i = (a.len() + b.len() + c.len()) as int;
    assert(value_patterns(v)[i] == d[0]);
    i
}

/// Whether two arrays hold the same bytes.
pub fn same_bytes(a: &[u8; 8], b: &[u8; 8]) -> (r: bool)
    ensures
        r == (a@ == b@),
{
    let mut i: usize = 0;
    while i < 8
        invariant
            i <= 8,
            forall|k: int| 0 <= k < i ==> a@[k] == b@[k],
        decreases 8 - i,
    {
        if a[i] != b[i] {
            return false;
        }
        i += 1;
    }
    assert(a@ =~= b@);
    true
}

/// Every byte pattern that the number can have, each with the types it stands for.
pub fn encode_value_patterns(value: Double) -> (r: Vec<ValuePattern>)
    ensures
        pattern_views(r@) == value_patterns(value),
{
    let mut patterns: Vec<ValuePattern> = Vec::new();
    let whole = value.is_whole();
    let wide: i128 = value.to_int(-0x1_0000_0000_0000_0000, 0x1_0000_0000_0000_0000);

    if whole && -0x8000_0000 <= wide && wide <= 0xffff_ffff {
        let n: u64 = if wide < 0 { (wide + 0x1_0000_0000) as u64 } else { wide as u64 };
        let flags = TypeFlags {
            int32: wide <= 0x7fff_ffff,
            uint32: wide >= 0,
            ..TypeFlags::empty()
        };
        patterns.push((to_array(n), flags, 4, false));
    }
    assert(pattern_views(patterns@) =~= narrow_integer(value));

    if value.is_close_to_single() {
        patterns.push((to_array(value.to_single() as u64), TypeFlags::float32(), 4, true));
    }
    assert(pattern_views(patterns@) =~= narrow_integer(value) + single_float(value));

    let mut integer: Option<[u8; 8]> = None;
    if whole && -0x8000_0000_0000_0000 <= wide && wide <= 0xffff_ffff_ffff_ffff {
        let n: u64 = if wide < 0 { (wide + 0x1_0000_0000_0000_0000) as u64 } else { wide as u64 };
        let flags = TypeFlags {
            int64: wide <= 0x7fff_ffff_ffff_ffff,
            uint64: wide >= 0,
            ..TypeFlags::empty()
        };
        let b = to_array(n);
        integer = Some(b);
        patterns.push((b, flags, 8, false));
    }
    assert(pattern_views(patterns@) =~= narrow_integer(value) + single_float(value) + wide_integer(
        value,
    ));

    let b = to_array(value.bits);
    let dominated = match integer {
        Some(i) => same_bytes(&i, &b),
        None => false,
    };
    if !dominated {
        patterns.push((b, TypeFlags::float64(), 8, false));
    }
    assert(pattern_views(patterns@) =~= value_patterns(value));
    patterns
}

/// A candidate is shown with its address, how often it was confirmed, and the names of its types
/// and of no others.
pub proof fn candidates_are_shown_with_their_types(shown: CandidateJson, c: CandidateView)
    requires
        shown.shows(c),
    ensures
        shown.address@ == "0x"@ + text::numeral(c.address as nat, 16),
        shown.confidence == c.confidence,
        text::texts(shown.types@).contains("i32"@) <==> c.types.int32,
        text::texts(shown.types@).contains("u32"@) <==> c.types.uint32,
        text::texts(shown.types@).contains("f32"@) <==> c.types.float32,
        text::texts(shown.types@).contains("i64"@) <==> c.types.int64,
        text::texts(shown.types@).contains("u64"@) <==> c.types.uint64,
        text::texts(shown.types@).contains("f64"@) <==> c.types.float64,
{
    lemma_type_names(c.types);
}

proof fn lemma_named_part(all: Seq<Seq<char>>, a: Seq<Seq<char>>, on: bool, name: Seq<char>, x: Seq<char>)
    requires
        all == a + named(on, name),
    ensures
        all.contains(x) <==> a.contains(x) || (on && x == name),
{
    if a.contains(x) {
        let i = choose|i: int| 0 <= i < a.len() && a[i] == x;
        assert(all[i] == x);
    } else if on && x == name {
        assert(all[a.len() as int] == x);
    } else if all.contains(x) {
        let i = choose|i: int| 0 <= i < all.len() && all[i] == x;
        if i < a.len() {
            assert(a[i] == x);
        }
    }
}

proof fn lemma_type_names(t: TypeFlags)
    ensures
        t.names().contains("i32"@) <==> t.int32,
        t.names().contains("u32"@) <==> t.uint32,
        t.names().contains("f32"@) <==> t.float32,
        t.names().contains("i64"@) <==> t.int64,
        t.names().contains("u64"@) <==> t.uint64,
        t.names().contains("f64"@) <==> t.float64,
{
    reveal_strlit("i32");
    reveal_strlit("u32");
    reveal_strlit("f32");
    reveal_strlit("i64");
    reveal_strlit("u64");
    reveal_strlit("f64");
    assert("i32"@[0] == 'i' && "i32"@[1] == '3');
    assert("u32"@[0] == 'u' && "u32"@[1] == '3');
    assert("f32"@[0] == 'f' && "f32"@[1] == '3');
    assert("i64"@[0] == 'i' && "i64"@[1] == '6');
    assert("u64"@[0] == 'u' && "u64"@[1] == '6');
    assert("f64"@[0] == 'f' && "f64"@[1] == '6');
    let a = named(t.int32, "i32"@);
    let b = a + named(t.uint32, "u32"@);
    let c = b + named(t.float32, "f32"@);
    let d = c + named(t.int64, "i64"@);
    let e = d + named(t.uint64, "u64"@);
    assert forall|x: Seq<char>| #[trigger] t.names().contains(x) <==> {
        ||| t.int32 && x == "i32"@
        ||| t.uint32 && x == "u32"@
        ||| t.float32 && x == "f32"@
        ||| t.int64 && x == "i64"@
        ||| t.uint64 && x == "u64"@
        ||| t.float64 && x == "f64"@
    } by {
        let none = Seq::<Seq<char>>::empty();
        assert(a =~= none + named(t.int32, "i32"@));
        lemma_named_part(a, none, t.int32, "i32"@, x);
        lemma_named_part(b, a, t.uint32, "u32"@, x);
        lemma_named_part(c, b, t.float32, "f32"@, x);
        lemma_named_part(d, c, t.int64, "i64"@, x);
        lemma_named_part(e, d, t.uint64, "u64"@, x);
        lemma_named_part(t.names(), e, t.float64, "f64"@, x);
    }
}

/// Each type has a flag of its own, which is shown by the name of the type, and every flag stands
/// for one where the type is left open. The types of eight bytes are the wide ones.
pub proof fn types_have_a_flag_each(a: ValueType, b: ValueType)
    requires
        a != ValueType::Auto,
        b != ValueType::Auto,
    ensures
        a.flag().meets(b.flag()) <==> a == b,
        a.flag().meets(ValueType::Auto.flag()),
        a.flag().names() == seq![a.name()],
        a.flag().wide() <==> a.width() == 8,
        a.width() == 8 <==> a == ValueType::I64 || a == ValueType::U64 || a == ValueType::F64,
        a.width() == 4 || a.width() == 8,
        ValueType::Auto.width() == 0,
{
    assert(a.flag().names() =~= seq![a.name()]);
    if a == b {
        assert(a.flag().and(b.flag()) == a.flag());
    }
    let common = a.flag().and(ValueType::Auto.flag());
    assert(common == a.flag());
}

} // verus!
