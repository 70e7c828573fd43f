use hxgrep::config::Config;
use hxgrep::error::BingrepError;
use hxgrep::parallel::{merge_chunk_results, plan_chunks, scan_chunk, scan_parallel, Chunk};
use hxgrep::stream::{dump_chunk_size, dump_extent, hex_dump_sequential, hex_dump_window, scan_sequential, MatchRecord, SequentialScan};
use hxgrep::{FileProcessor, RegexProcessor};

fn offsets(records: &[MatchRecord]) -> Vec<u64> {
    records.iter().map(|r| r.offset).collect()
}

#[test]
fn test_file_processor_creation() {
    let config = Config::default();
    let processor = FileProcessor::new(config);
    assert_eq!(processor.get_config().buffer_size, 64 * 1024);
}

#[test]
fn header_pattern_footer_gives_one_match_at_six() {
    let pattern = RegexProcessor::compile_pattern("\\x00\\x00\\x00\\x01\\x67").unwrap();
    let mut data = b"Header".to_vec();
    data.extend_from_slice(&[0x00, 0x00, 0x00, 0x01, 0x67]);
    data.extend_from_slice(b"Footer");
    let records = scan_sequential(&data, &pattern, 5, 0, 4096, 2048);
    assert_eq!(records.len(), 1);
    assert_eq!(records[0].offset, 6);
    assert_eq!(records[0].bytes, vec![0x00, 0x00, 0x00, 0x01, 0x67]);
    assert_eq!(records[0].match_len, Some(5));
}

#[test]
fn range_quantifier_matches_greedily_once() {
    let pattern = RegexProcessor::compile_pattern("\\x58{2,3}").unwrap();
    let data = b"\x01\x00\x00\x58\x58\x58\x58test";
    let records = scan_sequential(data, &pattern, 3, 0, 4096, 2048);
    assert_eq!(records.len(), 1);
    assert_eq!(records[0].offset, 3);
    assert_eq!(records[0].bytes, vec![0x58, 0x58, 0x58]);
    assert_eq!(records[0].match_len, Some(3));
}

#[test]
fn empty_file_yields_nothing() {
    let pattern = RegexProcessor::compile_pattern("\\x00").unwrap();
    assert!(scan_sequential(&[], &pattern, 16, 0, 4096, 2048).is_empty());
    assert!(scan_parallel(&[], &pattern, 1024, 16, 0).is_empty());
    assert!(hex_dump_sequential(&[], 16, 0).is_empty());
    assert!(hex_dump_sequential(&[], 1, 5).is_empty());
}

fn large_file() -> Vec<u8> {
    let mut data = vec![0xFFu8; 2_000_000];
    for &loc in &[1000usize, 50000, 100000, 500000, 1000000, 1500000] {
        data[loc..loc + 4].copy_from_slice(&[0x00, 0x01, 0x02, 0x03]);
    }
    data
}

#[test]
fn six_patterns_found_by_both_scans() {
    let data = large_file();
    let pattern = RegexProcessor::compile_pattern("\\x00\\x01\\x02\\x03").unwrap();
    let expected = vec![1000u64, 50000, 100000, 500000, 1000000, 1500000];
    let seq = scan_sequential(&data, &pattern, 16, 0, 4096, 2048);
    assert_eq!(offsets(&seq), expected);
    for &chunk in &[1000usize, 4096, 40000, 48000] {
        let par = scan_parallel(&data, &pattern, chunk, 16, 0);
        assert_eq!(offsets(&par), expected, "chunk size {}", chunk);
    }
}

#[test]
fn parallel_equals_sequential_on_boundary_patterns() {
    let data = large_file();
    let pattern = RegexProcessor::compile_pattern("\\x00\\x01\\x02\\x03").unwrap();
    let seq = scan_sequential(&data, &pattern, 4, 0, 4096, 2048);
    for &chunk in &[999usize, 1002, 49999, 100001] {
        let par = scan_parallel(&data, &pattern, chunk, 4, 0);
        assert_eq!(par, seq, "chunk size {}", chunk);
    }
}

#[test]
fn pattern_across_each_window_boundary_is_found_once() {
    let buffer_size = 64usize;
    let padding = 8usize;
    for shift in 0..6usize {
        let mut data = vec![0xEEu8; 1000];
        let mut expected = Vec::new();
        let mut pos = 60 + shift;
        while pos + 4 < data.len() {
            data[pos..pos + 4].copy_from_slice(&[0x10, 0x20, 0x30, 0x40]);
            expected.push(pos as u64);
            pos += 56;
        }
        let pattern = RegexProcessor::compile_pattern("\\x10\\x20\\x30\\x40").unwrap();
        let records = scan_sequential(&data, &pattern, 4, 0, buffer_size, padding);
        assert_eq!(offsets(&records), expected, "shift {}", shift);
    }
}

#[test]
fn limit_stops_the_sequential_scan() {
    let data = large_file();
    let pattern = RegexProcessor::compile_pattern("\\x00\\x01\\x02\\x03").unwrap();
    let seq = scan_sequential(&data, &pattern, 16, 2, 4096, 2048);
    assert_eq!(offsets(&seq), vec![1000, 50000]);
    let par = scan_parallel(&data, &pattern, 30000, 16, 2);
    assert_eq!(offsets(&par), vec![1000, 50000]);
}

#[test]
fn display_region_across_window_end_is_read_whole() {
    let mut data = vec![0x11u8; 200];
    data[60] = 0xAB;
    let pattern = RegexProcessor::compile_pattern("\\xAB").unwrap();
    let records = scan_sequential(&data, &pattern, 10, 0, 64, 8);
    assert_eq!(records.len(), 1);
    assert_eq!(records[0].offset, 60);
    assert_eq!(records[0].bytes, data[60..70].to_vec());
}

#[test]
fn display_region_is_cut_at_end_of_data() {
    let data = [0x00u8, 0x00, 0xAB, 0x01];
    let pattern = RegexProcessor::compile_pattern("\\xAB").unwrap();
    let records = scan_sequential(&data, &pattern, 16, 0, 64, 8);
    assert_eq!(records.len(), 1);
    assert_eq!(records[0].bytes, vec![0xAB, 0x01]);
}

#[test]
fn hex_dump_covers_the_file_in_ceil_lines() {
    let data: Vec<u8> = (0..=255u8).cycle().take(1000).collect();
    for &w in &[1usize, 3, 16, 999, 1000, 4096] {
        let lines = hex_dump_sequential(&data, w, 0);
        assert_eq!(lines.len(), (1000 + w - 1) / w);
        let joined: Vec<u8> = lines.iter().flat_map(|l| l.bytes.clone()).collect();
        assert_eq!(joined, data);
        for (i, l) in lines.iter().enumerate() {
            assert_eq!(l.offset, (i * w) as u64);
            assert_eq!(l.match_len, None);
        }
    }
}

#[test]
fn hex_dump_respects_limit_and_base() {
    let data = b"Hello World!";
    let lines = hex_dump_window(data, 100, 5, 2);
    assert_eq!(lines.len(), 2);
    assert_eq!(lines[0].offset, 100);
    assert_eq!(lines[1].offset, 105);
    assert_eq!(lines[1].bytes, b" Worl".to_vec());
}

#[test]
fn chunk_plan_covers_the_file() {
    let chunks = plan_chunks(2500, 1000);
    assert_eq!(
        chunks,
        vec![
            Chunk { start: 0, length: 1000, overlap: 100 },
            Chunk { start: 1000, length: 1000, overlap: 100 },
            Chunk { start: 2000, length: 500, overlap: 0 },
        ]
    );
    let big = plan_chunks(100_000, 50_000);
    assert_eq!(big[0].overlap, 1024);
    assert!(plan_chunks(0, 10).is_empty());
}

#[test]
fn chunk_drops_matches_in_its_overlap() {
    let pattern = RegexProcessor::compile_pattern("\\xAA").unwrap();
    let chunk = Chunk { start: 100, length: 4, overlap: 2 };
    let data = [0xAAu8, 0x00, 0x00, 0xAA, 0xAA, 0x00];
    let found = scan_chunk(&data, &chunk, &pattern, 2);
    assert_eq!(offsets(&found), vec![100, 103]);
    assert_eq!(found[1].bytes, vec![0xAA, 0xAA]);
}

#[test]
fn merge_sorts_and_removes_duplicate_offsets() {
    let rec = |o: u64| MatchRecord { offset: o, bytes: vec![o as u8], match_len: Some(1) };
    let results = vec![vec![rec(30), rec(40)], vec![rec(10), rec(30)], vec![rec(20)]];
    assert_eq!(offsets(&merge_chunk_results(&results, 0)), vec![10, 20, 30, 40]);
    assert_eq!(offsets(&merge_chunk_results(&results, 3)), vec![10, 20, 30]);
}

#[test]
fn sequential_scan_driven_window_by_window() {
    let pattern = RegexProcessor::compile_pattern("\\x01\\x02").unwrap();
    let data = [0u8, 1, 2, 0, 0, 0, 1, 2];
    let mut scan = SequentialScan::new(2, 0, 4, 1);
    let mut found = Vec::new();
    while let Some((at, len)) = scan.next_read() {
        let start = (at as usize).min(data.len());
        let end = (start + len).min(data.len());
        found.extend(scan.feed(&pattern, &data[start..end]));
    }
    assert_eq!(offsets(&found), vec![1, 6]);
}

#[test]
fn start_scan_rejects_bad_widths() {
    let processor = FileProcessor::new(Config::default());
    assert_eq!(processor.start_scan(0, 0), Err(BingrepError::InvalidWidth(0)));
    let scan = processor.start_scan(16, 3).unwrap();
    assert_eq!(scan.buffer_size, 4096);
    assert_eq!(scan.padding, 2048);
    assert_eq!(scan.limit, 3);
    let wide = processor.start_scan(2048, 0).unwrap();
    assert_eq!(wide.buffer_size, 64 * 1024);
    assert_eq!(wide.padding, 4096);
    assert_eq!(processor.start_scan(100_000, 0), Err(BingrepError::InvalidWidth(100_000)));
}

#[test]
fn scan_bytes_uses_the_configuration() {
    let processor = FileProcessor::new(Config::default());
    let pattern = RegexProcessor::compile_pattern("\\x67").unwrap();
    let data = b"abcdefg";
    let records = processor.scan_bytes(data, &pattern, 2, 0).unwrap();
    assert_eq!(offsets(&records), vec![6]);
    assert_eq!(records[0].bytes, b"g".to_vec());
}

#[test]
fn parallel_shows_full_width_near_chunk_end() {
    let mut data = vec![0u8; 30];
    data[5] = 0x41;
    let pattern = RegexProcessor::compile_pattern("\\x41").unwrap();
    let par = scan_parallel(&data, &pattern, 10, 16, 0);
    let seq = scan_sequential(&data, &pattern, 16, 0, 64, 8);
    assert_eq!(par.len(), 1);
    assert_eq!(par[0].bytes, data[5..21].to_vec());
    assert_eq!(par, seq);
}

#[test]
fn parallel_records_equal_sequential_at_wide_width() {
    let data = large_file();
    let pattern = RegexProcessor::compile_pattern("\\x00\\x01\\x02\\x03").unwrap();
    let seq = scan_sequential(&data, &pattern, 64, 0, 4096, 2048);
    for &chunk in &[1003usize, 49999] {
        assert_eq!(scan_parallel(&data, &pattern, chunk, 64, 0), seq, "chunk size {}", chunk);
    }
}

#[test]
fn dump_extent_and_piece_size() {
    assert_eq!(dump_extent(100, 16, 0), 100);
    assert_eq!(dump_extent(100, 16, 3), 48);
    assert_eq!(dump_extent(100, 16, 7), 100);
    assert_eq!(dump_chunk_size(100, 16), 96);
    assert_eq!(dump_chunk_size(10, 16), 16);
}
