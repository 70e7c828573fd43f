use hxgrep::error::BingrepError;
use hxgrep::RegexProcessor;

#[test]
fn test_parse_hex_pattern_basic() {
    let pattern = "\\x00\\x01\\x02\\xFF";
    let result = RegexProcessor::parse_hex_pattern(pattern).unwrap();
    assert_eq!(result, vec![0x00, 0x01, 0x02, 0xFF]);
}

#[test]
fn test_parse_hex_pattern_mixed_case() {
    let pattern = "\\x0a\\x0B\\xfF\\xAA";
    let result = RegexProcessor::parse_hex_pattern(pattern).unwrap();
    assert_eq!(result, vec![0x0a, 0x0B, 0xFF, 0xAA]);
}

#[test]
fn test_parse_hex_pattern_with_text() {
    let pattern = "prefix\\x41\\x42\\x43suffix";
    let result = RegexProcessor::parse_hex_pattern(pattern).unwrap();
    assert_eq!(result, vec![0x41, 0x42, 0x43]);
}

#[test]
fn test_parse_hex_pattern_invalid() {
    let pattern = "\\xZZ";
    let result = RegexProcessor::parse_hex_pattern(pattern);
    assert!(result.is_err());
}

#[test]
fn test_parse_hex_pattern_incomplete() {
    let pattern = "\\x4";
    let result = RegexProcessor::parse_hex_pattern(pattern);
    assert!(result.is_err());
}

#[test]
fn test_escape_bytes_for_regex_basic() {
    let bytes = vec![0x00, 0x01, 0x41, 0xFF];
    let result = RegexProcessor::escape_bytes_for_regex(&bytes);
    assert_eq!(result, "(?-u)\\x00\\x01\\x41\\xff");
}

#[test]
fn test_compile_pattern_simple() {
    let result = RegexProcessor::compile_pattern("\\x00\\x01\\x02");
    assert!(result.is_ok());
}

#[test]
fn test_compile_pattern_with_quantifier() {
    let result = RegexProcessor::compile_pattern("\\x58{2,3}");
    assert!(result.is_ok());
}

#[test]
fn test_has_regex_metacharacters() {
    assert!(RegexProcessor::has_regex_metacharacters("\\x58{2}"));
    assert!(RegexProcessor::has_regex_metacharacters("\\x58+"));
    assert!(!RegexProcessor::has_regex_metacharacters("\\x58\\x59"));
}

#[test]
fn test_utf8_pattern_fix() {
    let pattern = "\\x00\\x00\\xba";
    let regex = RegexProcessor::compile_pattern(pattern).unwrap();

    let test_data1 = vec![0x00, 0x00, 0xba, 0xAA];
    let test_data2 = vec![0x00, 0x00, 0xc2, 0xba, 0xAA];

    assert_eq!(RegexProcessor::parse_hex_pattern(pattern).unwrap(), vec![0x00, 0x00, 0xba]);
    assert!(regex.is_match(&test_data1), "Exact pattern should match");
    assert!(!regex.is_match(&test_data2), "UTF-8 encoded pattern should not match");
}

#[test]
fn incomplete_escape_messages_name_the_fragment() {
    assert_eq!(
        RegexProcessor::parse_hex_pattern("\\x4"),
        Err(BingrepError::InvalidPattern("Incomplete hex sequence: \\x4".to_string()))
    );
    assert_eq!(
        RegexProcessor::parse_hex_pattern("ab\\x"),
        Err(BingrepError::InvalidPattern("Incomplete hex sequence: \\x".to_string()))
    );
    assert_eq!(
        RegexProcessor::parse_hex_pattern("\\xZZ"),
        Err(BingrepError::InvalidPattern("Invalid hex sequence: \\xZZ".to_string()))
    );
}

#[test]
fn escape_not_followed_by_x_is_skipped() {
    assert_eq!(RegexProcessor::parse_hex_pattern("\\\\X41").unwrap(), vec![0x41]);
    assert_eq!(RegexProcessor::parse_hex_pattern("no escapes").unwrap(), Vec::<u8>::new());
}

#[test]
fn rewrite_keeps_quantifiers_and_canonicalises_escapes() {
    assert_eq!(
        RegexProcessor::convert_hex_escapes_in_pattern("\\X4A{2,3}\\d").unwrap(),
        "\\x4a{2,3}\\d"
    );
    assert_eq!(
        RegexProcessor::convert_hex_escapes_in_pattern("(\\x4G)+"),
        Err(BingrepError::InvalidPattern("Invalid hex sequence in regex pattern: \\x4G".to_string()))
    );
    assert_eq!(
        RegexProcessor::convert_hex_escapes_in_pattern("a+\\x1"),
        Err(BingrepError::InvalidPattern(
            "Incomplete hex sequence in regex pattern: \\x1".to_string()
        ))
    );
}

#[test]
fn compiled_pattern_source_is_the_engine_pattern() {
    let literal = RegexProcessor::compile_pattern("\\x41\\xFF").unwrap();
    assert_eq!(literal.as_str(), "(?-u)\\x41\\xff");
    let quantified = RegexProcessor::compile_pattern("\\x58{2,3}").unwrap();
    assert_eq!(quantified.as_str(), "(?-u)\\x58{2,3}");
}

#[test]
fn compile_errors_by_kind() {
    assert!(matches!(
        RegexProcessor::compile_pattern("\\x4"),
        Err(BingrepError::InvalidPattern(_))
    ));
    assert!(matches!(
        RegexProcessor::compile_pattern("(\\x41"),
        Err(BingrepError::RegexCompilation(_))
    ));
}

#[test]
fn has_hex_marker_needs_lower_case_x() {
    assert!(RegexProcessor::has_hex_marker("a\\x00"));
    assert!(!RegexProcessor::has_hex_marker("a\\X00"));
}

#[test]
fn find_all_reports_leftmost_non_overlapping_matches() {
    let p = RegexProcessor::compile_pattern("\\x41\\x41").unwrap();
    assert_eq!(p.find_all(b"AAAAA"), vec![(0, 2), (2, 4)]);
}

#[test]
fn metacharacter_patterns_match_bytes_not_text() {
    let re = RegexProcessor::compile_pattern("\\xba+").unwrap();
    assert!(re.is_match(&[0xba]));
    assert_eq!(re.find_all(&[0xc2, 0xba]), vec![(1, 2)]);
    assert!(!re.is_match(&[0xc2, 0x00]));
}

#[test]
fn engine_refusal_carries_the_engine_message() {
    match RegexProcessor::compile_pattern("\\x00{5,3}") {
        Err(BingrepError::RegexCompilation(msg)) => assert!(!msg.is_empty()),
        other => panic!("unexpected {:?}", other.map(|p| p.as_str().to_string())),
    }
}
