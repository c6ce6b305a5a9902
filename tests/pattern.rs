use memscan::{parse_pattern, scan_pattern, PatternElement, PatternError};

#[test]
fn parse_mixed_pattern() {
    let p = parse_pattern("48 8B ? ? 89 7c").unwrap();
    assert_eq!(
        p,
        vec![
            PatternElement::Byte(0x48),
            PatternElement::Byte(0x8B),
            PatternElement::Wildcard,
            PatternElement::Wildcard,
            PatternElement::Byte(0x89),
            PatternElement::Byte(0x7C),
        ]
    );
}

#[test]
fn parse_accepts_any_whitespace_between_tokens() {
    let p = parse_pattern("  41\t?\n43  ").unwrap();
    assert_eq!(p, vec![PatternElement::Byte(0x41), PatternElement::Wildcard, PatternElement::Byte(0x43)]);
}

#[test]
fn parse_rejects_bad_tokens() {
    assert_eq!(parse_pattern("4"), Err(PatternError::InvalidToken));
    assert_eq!(parse_pattern("41 4G"), Err(PatternError::InvalidToken));
    assert_eq!(parse_pattern("414"), Err(PatternError::InvalidToken));
    assert_eq!(parse_pattern("??"), Err(PatternError::InvalidToken));
    assert_eq!(parse_pattern("+1"), Err(PatternError::InvalidToken));
}

#[test]
fn parse_rejects_empty_pattern() {
    assert_eq!(parse_pattern(""), Err(PatternError::Empty));
    assert_eq!(parse_pattern("   \t "), Err(PatternError::Empty));
}

#[test]
fn pattern_with_wildcard_scenario() {
    let p = parse_pattern("41 ? 43").unwrap();
    let buf = [0x41u8, 0x99, 0x43, 0x41, 0x00, 0x43];
    assert_eq!(scan_pattern(&buf, &p, 0x2000), vec![0x2000, 0x2003]);
}

#[test]
fn all_wildcards_match_every_offset() {
    let p = vec![PatternElement::Wildcard; 3];
    let buf = [1u8, 2, 3, 4, 5, 6, 7];
    assert_eq!(scan_pattern(&buf, &p, 0x10), vec![0x10, 0x11, 0x12, 0x13, 0x14]);
}

#[test]
fn pattern_longer_than_buffer_matches_nothing() {
    let p = vec![PatternElement::Wildcard; 4];
    assert_eq!(scan_pattern(&[1u8, 2, 3], &p, 0), Vec::<u64>::new());
}

#[test]
fn pattern_matches_at_last_offset() {
    let p = vec![PatternElement::Byte(0xAA), PatternElement::Byte(0xBB)];
    let buf = [0u8, 0, 0xAA, 0xBB];
    assert_eq!(scan_pattern(&buf, &p, 0x100), vec![0x102]);
}

#[test]
fn parse_splits_on_unicode_whitespace() {
    let p = parse_pattern("41\u{00A0}42\u{3000}?").unwrap();
    assert_eq!(p, vec![PatternElement::Byte(0x41), PatternElement::Byte(0x42), PatternElement::Wildcard]);
}
