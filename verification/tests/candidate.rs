//! Candidates and value patterns.

use pika::number::Double;
use pika::scan::candidate::{encode_value_patterns, Candidate, CandidateJson, TypeFlags, ValueType};

fn double(x: f64) -> Double {
    Double::from_bits(x.to_bits())
}

#[test]
fn type_flags_display() {
    let flags = TypeFlags::int32().union(TypeFlags::uint32());
    assert_eq!(flags.to_text(), "i32|u32");
}

#[test]
fn type_flags_empty_display() {
    let flags = TypeFlags::empty();
    assert_eq!(flags.to_text(), "");
}

#[test]
fn value_type_byte_size() {
    assert_eq!(ValueType::I32.byte_size(), 4);
    assert_eq!(ValueType::F64.byte_size(), 8);
    assert_eq!(ValueType::Auto.byte_size(), 0);
}

#[test]
fn candidate_ordering() {
    let a = Candidate::new(0x100, TypeFlags::int32());
    let b = Candidate::new(0x200, TypeFlags::int32());
    assert!(a < b);
}

#[test]
fn candidate_json_conversion() {
    let c = Candidate::new(0xDEAD_BEEF, TypeFlags::int32().union(TypeFlags::float32()));
    let json: CandidateJson = (&c).into();
    assert_eq!(json.address, "0xdeadbeef");
    assert_eq!(json.types, vec!["i32", "f32"]);
}

#[test]
fn encode_integer_100() {
    let patterns = encode_value_patterns(double(100.0));
    // Should have: i32|u32 pattern (4 bytes), i64|u64 pattern (8 bytes)
    // f32(100.0) = 0x42c80000, which differs from i32(100) = 0x64000000
    assert!(patterns.len() >= 2, "expected at least 2 patterns, got {}", patterns.len());

    // Check i32 pattern
    let i32_pat = patterns.iter().find(|(_, f, sz, _)| f.contains(TypeFlags::int32()) && *sz == 4);
    assert!(i32_pat.is_some());
    let (bytes, flags, _, _) = i32_pat.unwrap();
    assert_eq!(bytes[..4], 100_i32.to_le_bytes());
    assert!(flags.contains(TypeFlags::uint32())); // 100 >= 0, so u32 also matches
}

#[test]
fn encode_float_1_5() {
    let patterns = encode_value_patterns(double(1.5));
    // 1.5 is not a whole number, so no i32/u32/i64/u64 patterns
    // Should have f32 and f64 patterns
    let f32_pat = patterns.iter().find(|(_, f, _, _)| f.contains(TypeFlags::float32()));
    assert!(f32_pat.is_some());
    let (bytes, _, sz, _) = f32_pat.unwrap();
    assert_eq!(*sz, 4);
    assert_eq!(bytes[..4], 1.5_f32.to_le_bytes());
}

#[test]
fn encode_zero() {
    let patterns = encode_value_patterns(double(0.0));
    // i32(0) and f32(0.0) have the same byte pattern: all zeros
    // Should deduplicate
    let four_byte = patterns.iter().filter(|(_, _, sz, _)| *sz == 4).count();
    // i32 pattern (exact) + f32 pattern (epsilon) are now always separate
    assert!(four_byte >= 1, "should have at least one 4-byte pattern");
}

#[test]
fn encode_negative() {
    let patterns = encode_value_patterns(double(-42.0));
    // i32(-42) should NOT have U32 flag
    let i32_pat = patterns.iter().find(|(_, f, sz, _)| f.contains(TypeFlags::int32()) && *sz == 4);
    assert!(i32_pat.is_some());
    let (_, flags, _, _) = i32_pat.unwrap();
    assert!(!flags.contains(TypeFlags::uint32()));
}

#[test]
fn encode_large_integer() {
    let val = 3_000_000_000.0; // exceeds i32 max
    let patterns = encode_value_patterns(double(val));
    // Should NOT have i32 pattern (value > i32::MAX)
    let has_i32 = patterns.iter().any(|(_, f, sz, _)| f.contains(TypeFlags::int32()) && *sz == 4);
    assert!(!has_i32, "3 billion should not fit in i32");
    // Should have i64/u64 pattern
    let has_i64 = patterns.iter().any(|(_, f, sz, _)| f.contains(TypeFlags::int64()) && *sz == 8);
    assert!(has_i64);
}

#[test]
fn unsigned_values_above_the_signed_range_have_patterns() {
    let find = |x: f64, size: usize| {
        encode_value_patterns(double(x))
            .into_iter()
            .find(|p| p.2 == size && !p.3 && !p.1.contains(TypeFlags::float64()))
            .map(|p| (p.0, p.1))
    };
    let both = |a: TypeFlags, b: TypeFlags| a.union(b);
    let bytes = |n: u64| n.to_le_bytes();
    assert_eq!(
        find(3_000_000_000.0, 4),
        Some(([0x00, 0x5e, 0xd0, 0xb2, 0, 0, 0, 0], TypeFlags::uint32()))
    );
    assert_eq!(
        find(2_147_483_647.0, 4),
        Some((bytes(0x7fff_ffff), both(TypeFlags::int32(), TypeFlags::uint32())))
    );
    assert_eq!(find(4_294_967_295.0, 4), Some((bytes(0xffff_ffff), TypeFlags::uint32())));
    assert_eq!(find(4_294_967_296.0, 4), None);
    assert_eq!(find(-2_147_483_649.0, 4), None);
    assert_eq!(find(9_223_372_036_854_775_808.0, 8), Some((bytes(1 << 63), TypeFlags::uint64())));
    assert_eq!(
        find(18_446_744_073_709_549_568.0, 8),
        Some((bytes(u64::MAX - 2047), TypeFlags::uint64()))
    );
    assert_eq!(find(18_446_744_073_709_551_616.0, 8), None);
    assert_eq!(
        find(-9_223_372_036_854_775_808.0, 8),
        Some((bytes(1 << 63), TypeFlags::int64()))
    );
}
