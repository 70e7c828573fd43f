use hxgrep::output::OutputFormatter;

#[test]
fn test_format_bytes_as_hex() {
    let bytes = vec![0x48, 0x65, 0x6C, 0x6C, 0x6F];
    let result = OutputFormatter::format_bytes_as_hex(&bytes, " ");
    assert_eq!(result, "48 65 6C 6C 6F");
}

#[test]
fn test_format_bytes_with_different_separators() {
    let bytes = vec![0x00, 0xFF, 0x42];

    let with_space = OutputFormatter::format_bytes_as_hex(&bytes, " ");
    assert_eq!(with_space, "00 FF 42");

    let with_dash = OutputFormatter::format_bytes_as_hex(&bytes, "-");
    assert_eq!(with_dash, "00-FF-42");

    let no_separator = OutputFormatter::format_bytes_as_hex(&bytes, "");
    assert_eq!(no_separator, "00FF42");
}

#[test]
fn test_format_offset() {
    let result = OutputFormatter::format_offset(0x1234, 6);
    assert_eq!(result, "001234h");
}

#[test]
fn test_calculate_hex_offset_length() {
    assert_eq!(OutputFormatter::calculate_hex_offset_length(0xFF), 2);
    assert_eq!(OutputFormatter::calculate_hex_offset_length(0x1000), 4);
    assert_eq!(OutputFormatter::calculate_hex_offset_length(0x100000), 6);
}

#[test]
fn offsets_wider_than_padding_are_kept_whole() {
    assert_eq!(OutputFormatter::format_offset(0xABCDEF, 2), "ABCDEFh");
    assert_eq!(OutputFormatter::format_offset(0, 1), "0h");
    assert_eq!(OutputFormatter::calculate_hex_offset_length(0), 1);
}

#[test]
fn line_with_offset_joins_offset_and_hex() {
    assert_eq!(
        OutputFormatter::format_line_with_offset(0x10, "AA BB", 4),
        "0010h : AA BB"
    );
    assert_eq!(OutputFormatter::format_bytes_as_hex(&[], " "), "");
}
