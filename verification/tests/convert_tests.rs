use byo_tools::convert_cli::READ_BUFFER_SIZE;
use byo_tools::crlf::{contains_crlf, memory};
use byo_tools::stream::{stream, ConvertResult, StreamConverter};

/// The reads a reader with a buffer of `READ_BUFFER_SIZE` bytes makes of `data`.
fn reads_of(data: &[u8]) -> Vec<Vec<u8>> {
    data.chunks(READ_BUFFER_SIZE).map(|c| c.to_vec()).collect()
}

fn run_stream(data: &[u8]) -> (ConvertResult, Vec<u8>) {
    stream(&reads_of(data))
}

#[test]
fn test_memory_empty() {
    assert_eq!(memory(b""), b"".to_vec());
}

#[test]
fn test_memory_only_lf() {
    assert_eq!(memory(b"a\nb\n"), b"a\nb\n".to_vec());
}

#[test]
fn test_memory_only_crlf() {
    assert_eq!(memory(b"a\r\nb\r\n"), b"a\nb\n".to_vec());
}

#[test]
fn test_memory_mixed() {
    assert_eq!(memory(b"a\n\r\nb\r\n"), b"a\n\nb\n".to_vec());
}

#[test]
fn test_memory_trailing_crlf() {
    assert_eq!(memory(b"a\r\n"), b"a\n".to_vec());
}

#[test]
fn test_memory_lone_cr_not_converted() {
    assert_eq!(memory(b"a\rb"), b"a\rb".to_vec());
}

#[test]
fn test_memory_trailing_cr_not_converted() {
    assert_eq!(memory(b"a\r"), b"a\r".to_vec());
}

#[test]
fn test_memory_consecutive_crlf() {
    assert_eq!(memory(b"\r\n\r\n\r\n"), b"\n\n\n".to_vec());
}

#[test]
fn test_memory_no_newlines() {
    assert_eq!(memory(b"hello world"), b"hello world".to_vec());
}

#[test]
fn test_stream_empty() {
    let (result, output) = run_stream(b"");
    assert_eq!(output, b"");
    assert!(!result.has_crlf);
    assert_eq!(result.bytes_written, 0);
}

#[test]
fn test_stream_no_crlf() {
    let (result, output) = run_stream(b"hello\nworld\n");
    assert_eq!(output, b"hello\nworld\n");
    assert!(!result.has_crlf);
    assert_eq!(result.bytes_written, 12);
}

#[test]
fn test_stream_with_crlf() {
    let (result, output) = run_stream(b"hello\r\nworld\r\n");
    assert_eq!(output, b"hello\nworld\n");
    assert!(result.has_crlf);
    assert_eq!(result.bytes_written, 12);
}

#[test]
fn test_stream_mixed() {
    let (result, output) = run_stream(b"a\n\r\nb\r\n");
    assert_eq!(output, b"a\n\nb\n");
    assert!(result.has_crlf);
}

#[test]
fn test_stream_large_data() {
    // Data larger than the read buffer, with a CRLF pair across the boundary.
    let mut input_data = vec![b'x'; 10000];
    input_data[8191] = b'\r';
    input_data[8192] = b'\n';

    let (result, output) = run_stream(&input_data);

    assert!(result.has_crlf);
    assert_eq!(result.bytes_written, 9999);
    assert_eq!(output[8191], b'\n');
}

#[test]
fn test_stream_lone_cr_preserved() {
    let (result, output) = run_stream(b"hello\rworld");
    assert_eq!(output, b"hello\rworld");
    assert!(!result.has_crlf);
    assert_eq!(result.bytes_written, 11);
}

#[test]
fn test_contains_crlf_true() {
    assert!(contains_crlf(b"a\r\nb"));
    assert!(contains_crlf(b"\r\n"));
    assert!(contains_crlf(b"a\r\nb\r\nc"));
}

#[test]
fn test_contains_crlf_false() {
    assert!(!contains_crlf(b""));
    assert!(!contains_crlf(b"a\nb"));
    assert!(!contains_crlf(b"a\rb"));
    assert!(!contains_crlf(b"a\r"));
}

#[test]
fn stream_matches_memory_on_small_reads() {
    let data = b"one\r\ntwo\rthree\r\n\r\nfour\r";
    // Reads of three bytes: the boundaries after "\r" fall before "\n" or at
    // the end, so the stream gives what the in-memory conversion gives.
    let reads: Vec<Vec<u8>> = vec![
        b"one".to_vec(),
        b"\r\nt".to_vec(),
        b"wo\rthree\r".to_vec(),
        b"\n\r".to_vec(),
        b"\nfour\r".to_vec(),
    ];
    let (result, output) = stream(&reads);
    assert_eq!(output, memory(data));
    assert!(result.has_crlf);
    assert_eq!(result.bytes_written as usize, output.len());
}

#[test]
fn stream_writes_lone_cr_at_read_boundary_in_place() {
    // A read that ends with a carriage return that no line feed follows: the
    // carriage return is written in place.
    let reads: Vec<Vec<u8>> = vec![b"a\r".to_vec(), b"b".to_vec()];
    let (result, output) = stream(&reads);
    assert_eq!(output, b"a\rb".to_vec());
    assert!(!result.has_crlf);
    assert_eq!(result.bytes_written, 3);
}

#[test]
fn stream_lone_cr_then_later_lf_is_no_pair() {
    let reads: Vec<Vec<u8>> = vec![b"a\r".to_vec(), b"x".to_vec(), b"\n".to_vec()];
    let (result, output) = stream(&reads);
    assert_eq!(output, b"a\rx\n".to_vec());
    assert!(!result.has_crlf);
    assert_eq!(result.bytes_written, 4);
}

#[test]
fn stream_matches_memory_for_every_split() {
    let data = b"\r\r\nab\r\rc\r\n\r";
    for size in 1..=data.len() {
        let reads: Vec<Vec<u8>> = data.chunks(size).map(|c| c.to_vec()).collect();
        let (result, output) = stream(&reads);
        assert_eq!(output, memory(data));
        assert_eq!(result.has_crlf, contains_crlf(data));
        assert_eq!(result.bytes_written as usize, output.len());
    }
}

#[test]
fn converter_writes_held_cr_before_other_byte() {
    let mut conv = StreamConverter::new();
    assert_eq!(conv.push_chunk(b"a\r"), b"a".to_vec());
    assert_eq!(conv.push_chunk(b"\rb"), b"\r\rb".to_vec());
    let (result, tail) = conv.finish();
    assert!(tail.is_empty());
    assert!(!result.has_crlf);
    assert_eq!(result.bytes_written, 4);
}

#[test]
fn stream_stops_at_empty_read() {
    let reads: Vec<Vec<u8>> = vec![b"a\r\n".to_vec(), Vec::new(), b"b\r\n".to_vec()];
    let (result, output) = stream(&reads);
    assert_eq!(output, b"a\n".to_vec());
    assert!(result.has_crlf);
    assert_eq!(result.bytes_written, 2);
}

#[test]
fn converter_by_hand_joins_pair_across_reads() {
    let mut conv = StreamConverter::new();
    let first = conv.push_chunk(b"x\r");
    assert_eq!(first, b"x".to_vec());
    let second = conv.push_chunk(b"\ny");
    assert_eq!(second, b"\ny".to_vec());
    let (result, tail) = conv.finish();
    assert!(tail.is_empty());
    assert!(result.has_crlf);
    assert_eq!(result.bytes_written, 3);
}

#[test]
fn converter_finish_writes_held_cr() {
    let mut conv = StreamConverter::new();
    assert_eq!(conv.push_chunk(b"end\r"), b"end".to_vec());
    let (result, tail) = conv.finish();
    assert_eq!(tail, b"\r".to_vec());
    assert!(!result.has_crlf);
    assert_eq!(result.bytes_written, 4);
}

#[test]
fn memory_unchanged_exactly_without_crlf() {
    for data in [&b"plain\n"[..], b"lone\rcr", b"", b"a\r\nb", b"\r\r\n"] {
        assert_eq!(memory(data) == data.to_vec(), !contains_crlf(data));
    }
}

#[test]
fn memory_cr_before_crlf() {
    assert_eq!(memory(b"\r\r\n"), b"\r\n".to_vec());
}

#[test]
fn convert_result_default_is_empty() {
    let r = ConvertResult::default();
    assert!(!r.has_crlf);
    assert_eq!(r.bytes_written, 0);
}
