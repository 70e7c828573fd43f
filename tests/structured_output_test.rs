use hxgrep::structured_output::{bytes_to_ascii_if_printable, BinaryMatch, HexDumpLine, OutputFormat};

#[test]
fn test_output_format_from_str() {
    assert!(matches!(OutputFormat::from_str("hex"), Some(OutputFormat::Hex)));
    assert!(matches!(OutputFormat::from_str("json"), Some(OutputFormat::Json)));
    assert!(matches!(OutputFormat::from_str("csv"), Some(OutputFormat::Csv)));
    assert!(matches!(OutputFormat::from_str("plain"), Some(OutputFormat::Plain)));
    assert!(matches!(OutputFormat::from_str("invalid"), None));
}

#[test]
fn structured_output_test_binary_match_creation() {
    let m = BinaryMatch::new("test.bin".to_string(), 0x100, "48 65 6C 6C 6F".to_string(), 5);

    assert_eq!(m.file_path, "test.bin");
    assert_eq!(m.offset, 0x100);
    assert_eq!(m.length, 5);
    assert_eq!(m.ascii_data, Some("Hello".to_string()));
}

#[test]
fn structured_output_test_test_binary_match_creation() {
    let m = BinaryMatch::new(
        "test.bin".to_string(),
        0x100,
        "48 65 6C 6C 6F".to_string(), // "Hello"
        5,
    );

    assert_eq!(m.file_path, "test.bin");
    assert_eq!(m.offset, 0x100);
    assert_eq!(m.length, 5);
    assert_eq!(m.ascii_data, Some("Hello".to_string()));
}

#[test]
fn test_hex_dump_line_creation() {
    let line = HexDumpLine::new(
        "test.bin".to_string(),
        0x0,
        "48 65 6C 6C 6F 20 57 6F 72 6C 64 21".to_string(),
        12,
    );

    assert_eq!(line.file_path, "test.bin");
    assert_eq!(line.offset, 0x0);
    assert_eq!(line.byte_count, 12);
    assert_eq!(line.ascii_data, Some("Hello World!".to_string()));
}

#[test]
fn test_output_format_parsing() {
    assert!(matches!(OutputFormat::from_str("hex"), Some(OutputFormat::Hex)));
    assert!(matches!(OutputFormat::from_str("json"), Some(OutputFormat::Json)));
    assert!(matches!(OutputFormat::from_str("csv"), Some(OutputFormat::Csv)));
    assert!(matches!(OutputFormat::from_str("plain"), Some(OutputFormat::Plain)));
    assert!(matches!(OutputFormat::from_str("HEX"), Some(OutputFormat::Hex)));
    assert!(matches!(OutputFormat::from_str("invalid"), None));
}

#[test]
fn test_ascii_conversion() {
    let printable = BinaryMatch::new("test.bin".to_string(), 0, "48 65 6C 6C 6F".to_string(), 5);
    assert_eq!(printable.ascii_data, Some("Hello".to_string()));

    let non_printable = BinaryMatch::new("test.bin".to_string(), 0, "00 01 02 FF".to_string(), 4);
    assert_eq!(non_printable.ascii_data, None);

    let mixed = BinaryMatch::new("test.bin".to_string(), 0, "48 65 00 6C 6F".to_string(), 5);
    assert_eq!(mixed.ascii_data, None);

    let with_space = BinaryMatch::new("test.bin".to_string(), 0, "48 65 20 6C 6F".to_string(), 5);
    assert_eq!(with_space.ascii_data, Some("He lo".to_string()));
}

#[test]
fn ascii_words_follow_radix_parsing() {
    assert_eq!(bytes_to_ascii_if_printable("+41 042\t7e"), Some("AB~".to_string()));
    assert_eq!(bytes_to_ascii_if_printable("100"), None);
    assert_eq!(bytes_to_ascii_if_printable("4G"), None);
    assert_eq!(bytes_to_ascii_if_printable(""), Some(String::new()));
}

#[test]
fn plain_and_hex_lines() {
    let m = BinaryMatch::new("test.bin".to_string(), 0x100, "48 65 6C 6C 6F".to_string(), 5);
    assert_eq!(m.plain_line(), "test.bin:256 48 65 6C 6C 6F");
    assert_eq!(m.hex_line(), "100h : 48 65 6C 6C 6F");
    let l = HexDumpLine::new("a.bin".to_string(), 0, "00".to_string(), 1);
    assert_eq!(l.plain_line(), "a.bin:0 00");
    assert_eq!(l.hex_line(), "0h : 00");
}
