use hex2bin::commit::reassemble_pass;
use hex2bin::convert::convert_chunk;
use hex2bin::engine::convert_all;
use hex2bin::engine::convert_pass;
use hex2bin::errors::Hex2BinError;
use hex2bin::executor::default_worker_count;
use hex2bin::executor::execute_pass;
use hex2bin::hex::encode_hex;
use hex2bin::hex::hex_to_4bit;
use hex2bin::planner::detect_prefix_marker;
use hex2bin::planner::pass_count;
use hex2bin::planner::plan_passes;

#[test]
fn hex_digit_values() {
    assert_eq!(hex_to_4bit(b'0'), Ok(0));
    assert_eq!(hex_to_4bit(b'9'), Ok(9));
    assert_eq!(hex_to_4bit(b'A'), Ok(10));
    assert_eq!(hex_to_4bit(b'F'), Ok(15));
    assert_eq!(hex_to_4bit(b'a'), Ok(10));
    assert_eq!(hex_to_4bit(b'f'), Ok(15));
    assert_eq!(hex_to_4bit(b'G'), Err(Hex2BinError::MalformedHex));
    assert_eq!(hex_to_4bit(b'.'), Err(Hex2BinError::MalformedHex));
}

#[test]
fn chunk_decodes_ascii_hi() {
    assert_eq!(convert_chunk(&b"4869"[..]), Ok(vec![0x48, 0x69]));
}

#[test]
fn chunk_rejects_odd_length() {
    assert_eq!(convert_chunk(&b"486"[..]), Err(Hex2BinError::OddLength));
}

#[test]
fn chunk_rejects_invalid_digit() {
    assert_eq!(convert_chunk(&b"48G9"[..]), Err(Hex2BinError::MalformedHex));
}

#[test]
fn encode_hex_exact() {
    assert_eq!(encode_hex(&[0x48, 0x69]), b"4869".to_vec());
    assert_eq!(encode_hex(&[0xDE, 0xAD, 0x0F]), b"DEAD0F".to_vec());
    assert_eq!(encode_hex(&[]), Vec::<u8>::new());
}

#[test]
fn decode_encode_round_trip() {
    let s = &b"deadBEEF0123456789abcdef"[..];
    let d1 = convert_chunk(s).unwrap();
    assert_eq!(d1.len(), s.len() / 2);
    let e = encode_hex(&d1);
    let d2 = convert_chunk(&e).unwrap();
    assert_eq!(d1, d2);
}

#[test]
fn passes_cover_input_exactly() {
    let passes = plan_passes(20, 6, false).unwrap();
    assert_eq!(passes.len(), 4);
    assert_eq!(passes[0].start, 0);
    for w in passes.windows(2) {
        assert_eq!(w[0].end, w[1].start);
    }
    assert_eq!(passes[passes.len() - 1].end, 20);
    for p in &passes {
        assert!(p.start < p.end);
        assert!((p.end - p.start) % 2 == 0);
        assert!(p.end - p.start <= 6);
    }
}

#[test]
fn pass_boundary_counts() {
    assert_eq!(pass_count(6, 6), 1);
    assert_eq!(pass_count(7, 6), 2);
    let one = plan_passes(6, 6, false).unwrap();
    assert_eq!(one.len(), 1);
    let two = plan_passes(8, 6, false).unwrap();
    assert_eq!(two.len(), 2);
}

#[test]
fn planner_rejects_odd_effective_length() {
    assert_eq!(plan_passes(7, 6, false), Err(Hex2BinError::OddLength));
    assert_eq!(plan_passes(5, 6, true), Err(Hex2BinError::OddLength));
    assert_eq!(plan_passes(1, 6, true), Err(Hex2BinError::MalformedHex));
}

#[test]
fn prefix_marker_detection() {
    assert!(detect_prefix_marker(&b"3.4869"[..]));
    assert!(!detect_prefix_marker(&b"4869"[..]));
    assert!(!detect_prefix_marker(&b"3"[..]));
    assert!(!detect_prefix_marker(&b""[..]));
}

#[test]
fn converts_ascii_hi() {
    let out = convert_all(&b"4869"[..], 1024, 1, false).unwrap();
    assert_eq!(out, vec![0x48, 0x69]);
}

#[test]
fn trims_prefix_marker() {
    let input = &b"3.4869"[..];
    assert!(detect_prefix_marker(input));
    let out = convert_all(input, 1024, 2, true).unwrap();
    assert_eq!(out, vec![0x48, 0x69]);
}

#[test]
fn rejects_invalid_digit_anywhere() {
    assert_eq!(
        convert_all(&b"48G9"[..], 1024, 2, false),
        Err(Hex2BinError::MalformedHex)
    );
    assert_eq!(
        convert_all(&b"G869"[..], 1024, 2, false),
        Err(Hex2BinError::MalformedHex)
    );
    assert_eq!(
        convert_all(&b"486G"[..], 2, 2, false),
        Err(Hex2BinError::MalformedHex)
    );
}

#[test]
fn empty_input_gives_empty_output() {
    assert_eq!(convert_all(&b""[..], 1024, 2, false), Ok(vec![]));
    assert_eq!(convert_all(&b"3."[..], 1024, 2, true), Ok(vec![]));
}

#[test]
fn rejects_odd_input_before_decoding() {
    assert_eq!(
        convert_all(&b"48G"[..], 1024, 2, false),
        Err(Hex2BinError::OddLength)
    );
}

#[test]
fn parallel_pass_equals_sequential_decode() {
    let input = &b"000102030405060708090a0b0c0d0e0f101112131415161718191a1b1c1d1e1f"[..];
    let sequential = convert_chunk(input).unwrap();
    for workers in [1, 2, 3, 4, 7] {
        let parallel = convert_pass(input, 0, input.len(), workers).unwrap();
        assert_eq!(parallel, sequential);
    }
}

#[test]
fn multi_pass_equals_single_pass() {
    let input = &b"cafebabe00112233445566778899aabb"[..];
    let sequential = convert_chunk(input).unwrap();
    let multi = convert_all(input, 8, 2, false).unwrap();
    assert_eq!(multi, sequential);
}

#[test]
fn conversion_is_idempotent() {
    let input = &b"3.cafebabe001122"[..];
    let first = convert_all(input, 4, 3, true).unwrap();
    let second = convert_all(input, 4, 3, true).unwrap();
    assert_eq!(first, second);
}

#[test]
fn executor_tags_every_chunk_once() {
    let input = &b"00112233445566778899aabbccddeeff"[..];
    let chunks = execute_pass(input, 4).unwrap();
    let mut seen = vec![false; chunks.len()];
    for c in &chunks {
        assert!(c.ordinal < chunks.len());
        assert!(!seen[c.ordinal]);
        seen[c.ordinal] = true;
    }
    assert!(seen.iter().all(|s| *s));
    let total: usize = chunks.iter().map(|c| c.bytes.len()).sum();
    assert_eq!(total, input.len() / 2);
    let restored = reassemble_pass(&chunks);
    assert_eq!(restored, convert_chunk(input).unwrap());
}

#[test]
fn progress_accumulates_per_pass() {
    let mut progress = hex2bin::engine::Progress::new();
    assert_eq!(progress.bytes_read, 0);
    assert_eq!(progress.bytes_written, 0);
    progress.record_pass(8, 4);
    progress.record_pass(6, 3);
    assert_eq!(progress.bytes_read, 14);
    assert_eq!(progress.bytes_written, 7);
}

#[test]
fn worker_count_is_positive() {
    assert!(default_worker_count() >= 1);
}
