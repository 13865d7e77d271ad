//! Parsing and matching of signature patterns.

use sigpatch::sigscan::Pattern;

#[test]
fn parse_valid_signature_has_one_specifier_per_token() {
    let p = Pattern::parse("80 7E 74 00 75 ?? 3B CA 75").expect("valid signature");
    assert_eq!(p.len(), 9);
}

#[test]
fn parse_accepts_single_question_mark_wildcard() {
    let p = Pattern::parse("80 ? 7E").expect("valid signature");
    assert_eq!(p.len(), 3);
}

#[test]
fn parse_accepts_mixed_whitespace_separators() {
    let p = Pattern::parse(" 80\t7E\n74  00 ").expect("valid signature");
    assert_eq!(p.len(), 4);
}

#[test]
fn parse_rejects_empty_string() {
    assert!(Pattern::parse("").is_none());
}

#[test]
fn parse_rejects_whitespace_only_string() {
    assert!(Pattern::parse("   \t  ").is_none());
}

#[test]
fn parse_rejects_non_hex_token() {
    assert!(Pattern::parse("80 GG 74").is_none());
}

#[test]
fn parse_rejects_one_digit_token() {
    assert!(Pattern::parse("80 7 74").is_none());
}

#[test]
fn parse_rejects_three_digit_token() {
    assert!(Pattern::parse("123").is_none());
}

#[test]
fn parse_rejects_lone_question_mark_pair_with_extra() {
    assert!(Pattern::parse("???").is_none());
}

#[test]
fn parse_rejects_whole_pattern_on_one_bad_token() {
    // No partial patterns: one bad token rejects everything.
    assert!(Pattern::parse("80 7E 74 00 ZZ").is_none());
}

#[test]
fn parsed_bytes_match_their_hex_values() {
    let p = Pattern::parse("ab CD 00 ff").expect("valid signature");
    let buf = vec![0xAB, 0xCD, 0x00, 0xFF];
    assert!(p.matches_at(&buf, 0));
}

#[test]
fn matches_exact_bytes_at_offset() {
    let p = Pattern::parse("DE AD BE EF").expect("valid signature");
    let buf = vec![0x00, 0x11, 0xDE, 0xAD, 0xBE, 0xEF, 0x22];
    assert!(p.matches_at(&buf, 2));
    assert!(!p.matches_at(&buf, 1));
}

#[test]
fn altering_any_pinned_byte_breaks_the_match() {
    let p = Pattern::parse("DE AD BE EF").expect("valid signature");
    let base: Vec<u8> = vec![0xDE, 0xAD, 0xBE, 0xEF];
    for i in 0..4 {
        let mut buf = base.clone();
        buf[i] = buf[i].wrapping_add(1);
        assert!(!p.matches_at(&buf, 0), "mismatch at position {i} must fail");
    }
}

#[test]
fn wildcard_position_matches_every_byte_value() {
    let p = Pattern::parse("AA ?? BB").expect("valid signature");
    for v in 0..=255u8 {
        let buf = vec![0xAA, v, 0xBB];
        assert!(p.matches_at(&buf, 0), "wildcard must match byte {v}");
    }
    // ... while the pinned positions still demand their exact bytes.
    assert!(!p.matches_at(&vec![0xAB, 0x00, 0xBB], 0));
    assert!(!p.matches_at(&vec![0xAA, 0x00, 0xBC], 0));
}

#[test]
fn lone_wildcard_token_matches_any_single_byte() {
    let p = Pattern::parse("??").expect("valid signature");
    assert_eq!(p.len(), 1);
    for v in 0..=255u8 {
        assert!(p.matches_at(&vec![v], 0));
    }
}

#[test]
fn parse_rejects_signed_hex_token() {
    assert!(Pattern::parse("+F").is_none());
}
