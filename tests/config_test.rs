use hxgrep::cli::{Cli, ColorChoice};
use hxgrep::config::Config;
use hxgrep::error::BingrepError;
use hxgrep::multifile::MultiFileProcessor;

fn cli(width: usize, chunk: usize) -> Cli {
    Cli {
        file_path: Some("x.bin".to_string()),
        expression: None,
        line_width: width,
        limit: 0,
        position: 0,
        separator: " ".to_string(),
        hide_offset: false,
        parallel: false,
        chunk_size: chunk,
        multi_file: false,
        global_limit: 0,
        output_format: "hex".to_string(),
        show_progress: false,
        color: ColorChoice::Auto,
    }
}

#[test]
fn validate_cli_checks_width_then_chunk_size() {
    let config = Config::default();
    assert_eq!(config.validate_cli(&cli(16, 1048576)), Ok(()));
    assert_eq!(config.validate_cli(&cli(0, 1048576)), Err(BingrepError::InvalidWidth(0)));
    assert_eq!(config.validate_cli(&cli(8193, 1048576)), Err(BingrepError::InvalidWidth(8193)));
    assert_eq!(
        config.validate_cli(&cli(16, 268435457)),
        Err(BingrepError::InvalidPattern(
            "Chunk size 268435457 too large, maximum allowed: 268435456".to_string()
        ))
    );
}

#[test]
fn buffer_size_scales_with_width() {
    let config = Config::default();
    assert_eq!(config.get_buffer_size(16), 4096);
    assert_eq!(config.get_buffer_size(1023), 4096);
    assert_eq!(config.get_buffer_size(1024), 64 * 1024);
    assert_eq!(config.get_buffer_size(2000), 64 * 1024);
    assert!(config.validate_width(1) && config.validate_width(8192));
    assert!(!config.validate_width(8193));
    assert_eq!(config.get_min_width(), 1);
    assert_eq!(config.get_max_width(), 8192);
}

#[test]
fn file_size_limit() {
    let config = Config::default();
    assert_eq!(config.validate_file_size(config.get_max_file_size()), Ok(()));
    assert_eq!(
        config.validate_file_size(107374182401),
        Err(BingrepError::InvalidPattern(
            "File size 107374182401 bytes exceeds maximum allowed: 107374182400 bytes".to_string()
        ))
    );
    assert_eq!(config.get_max_memory_usage(), 1024 * 1024 * 1024);
}

#[test]
fn global_limit_zero_is_never_reached() {
    let processor = MultiFileProcessor::new(Config::default());
    assert_eq!(processor.get_config().buffer_padding, 4096);
    assert!(!MultiFileProcessor::global_limit_reached(100, 0));
    assert!(MultiFileProcessor::global_limit_reached(5, 5));
    assert!(!MultiFileProcessor::global_limit_reached(4, 5));
}
