//! Round trips against an independent DEFLATE implementation: compressed
//! data produced by `miniz_oxide` must decode back to the original bytes,
//! with both table-size configurations, under every chunking pattern tried.

use inflater::DecompressionError;
use inflater::Decompressor;

fn inflate_chunked(
    input: &[u8],
    chunk: usize,
    small: bool,
) -> Result<Vec<u8>, DecompressionError> {
    let mut d = if small { Decompressor::for_small_input() } else { Decompressor::new() };
    let mut out = vec![0u8; 64];
    let mut in_pos = 0usize;
    let mut out_pos = 0usize;
    let mut iterations = 0u32;
    while !d.is_done() {
        iterations += 1;
        assert!(iterations < 10_000_000, "decoder made no progress");
        if out_pos == out.len() {
            let grown = out.len() * 2;
            out.resize(grown, 0);
        }
        let end = std::cmp::min(in_pos + chunk.max(1), input.len());
        let eof = in_pos == input.len();
        let (c, p) = d.advance(&input[in_pos..end], &mut out, out_pos, eof)?;
        in_pos += c;
        out_pos += p;
    }
    out.truncate(out_pos);
    Ok(out)
}

fn scrambled_bytes(len: usize, mut seed: u64) -> Vec<u8> {
    let mut v = Vec::with_capacity(len);
    for _ in 0..len {
        seed = seed.wrapping_mul(6364136223846793005).wrapping_add(1442695040888963407);
        v.push((seed >> 33) as u8);
    }
    v
}

fn assert_round_trip(data: &[u8], level: u8) {
    let compressed = miniz_oxide::deflate::compress_to_vec(data, level);
    let large = inflate_chunked(&compressed, compressed.len(), false).unwrap();
    assert_eq!(large, data, "large-table decode differs from the original");
    let small = inflate_chunked(&compressed, compressed.len(), true).unwrap();
    assert_eq!(small, data, "small-table decode differs from the original");
    let bytewise = inflate_chunked(&compressed, 1, false).unwrap();
    assert_eq!(bytewise, data, "byte-by-byte decode differs from the original");
}

#[test]
fn round_trip_short_text() {
    assert_round_trip(b"hello, hello, hello world!", 6);
}

#[test]
fn round_trip_empty() {
    assert_round_trip(b"", 6);
}

#[test]
fn round_trip_repetitive_text() {
    let mut data = Vec::new();
    for i in 0..4000u32 {
        data.extend_from_slice(b"the quick brown fox jumps over the lazy dog ");
        data.extend_from_slice(i.to_string().as_bytes());
    }
    assert_round_trip(&data, 6);
}

#[test]
fn round_trip_long_incompressible_data() {
    // Pseudo-random bytes compress poorly: exercises stored blocks and
    // widely spread literal codes.
    let data = scrambled_bytes(150_000, 7);
    assert_round_trip(&data, 6);
    assert_round_trip(&data, 1);
}

#[test]
fn round_trip_distant_back_references() {
    // A pattern that repeats at a large distance, past the small-table
    // sweet spot, exercising long matches and large distances.
    let unit = scrambled_bytes(20_000, 99);
    let mut data = Vec::new();
    for _ in 0..5 {
        data.extend_from_slice(&unit);
        data.extend_from_slice(b"spacer");
    }
    assert_round_trip(&data, 9);
}

#[test]
fn round_trip_all_byte_values() {
    let mut data = Vec::new();
    for _ in 0..300 {
        for b in 0..=255u8 {
            data.push(b);
        }
    }
    assert_round_trip(&data, 6);
}

#[test]
fn round_trip_with_zlib_checksum_trailer() {
    // A zlib stream minus its two header bytes is a DEFLATE stream followed
    // by the big-endian Adler-32 trailer, which the engine verifies.
    let data = b"checksummed payload, checksummed payload";
    let zlib = miniz_oxide::deflate::compress_to_vec_zlib(data, 6);
    let stream = &zlib[2..];
    let out = inflate_chunked(stream, stream.len(), false).unwrap();
    assert_eq!(out, data);
    let out_small = inflate_chunked(stream, 1, true).unwrap();
    assert_eq!(out_small, data);
}

#[test]
fn corrupted_zlib_trailer_is_a_checksum_mismatch() {
    let data = b"checksummed payload, checksummed payload";
    let mut zlib = miniz_oxide::deflate::compress_to_vec_zlib(data, 6);
    let last = zlib.len() - 1;
    zlib[last] ^= 0x01;
    let stream = &zlib[2..];
    let err = inflate_chunked(stream, stream.len(), false).unwrap_err();
    assert_eq!(err, DecompressionError::ChecksumMismatch);
}

#[test]
fn table_size_invariance_on_compressed_corpus() {
    for seed in 0..10u64 {
        let data = scrambled_bytes(3000, seed);
        let compressed = miniz_oxide::deflate::compress_to_vec(&data, 6);
        // Corrupt one byte and require both configurations to agree on
        // success or failure.
        for i in (0..compressed.len()).step_by(17) {
            let mut bad = compressed.clone();
            bad[i] ^= 0xA5;
            let large = inflate_chunked(&bad, bad.len(), false);
            let small = inflate_chunked(&bad, bad.len(), true);
            match (large, small) {
                (Ok(a), Ok(b)) => assert_eq!(a, b),
                (Err(_), Err(_)) => {},
                (a, b) => panic!("configurations disagreed on success: {:?} vs {:?}", a, b),
            }
        }
    }
}

#[test]
fn round_trip_single_repeated_byte() {
    // Maximally repetitive data: near-degenerate alphabets with very few
    // coded symbols and a single heavily used distance.
    let data = vec![b'x'; 40_000];
    assert_round_trip(&data, 6);
    assert_round_trip(&data, 10);
}
