//! Behavioral properties: chunk invariance, table-size invariance,
//! no-progress reporting, back-reference bounds, early end-of-input
//! equivalence and checksum opt-out transparency.

use inflater::DecompressionError;
use inflater::Decompressor;

struct BitWriter {
    bytes: Vec<u8>,
    acc: u32,
    bit: u32,
}

impl BitWriter {
    fn new() -> Self {
        BitWriter { bytes: Vec::new(), acc: 0, bit: 0 }
    }

    fn write_bits(&mut self, value: u32, count: u32) {
        for i in 0..count {
            let b = (value >> i) & 1;
            self.acc |= b << self.bit;
            self.bit += 1;
            if self.bit == 8 {
                self.bytes.push(self.acc as u8);
                self.acc = 0;
                self.bit = 0;
            }
        }
    }

    fn write_code(&mut self, code: u32, count: u32) {
        for i in (0..count).rev() {
            self.write_bits((code >> i) & 1, 1);
        }
    }

    fn finish(mut self) -> Vec<u8> {
        if self.bit > 0 {
            self.bytes.push(self.acc as u8);
        }
        self.bytes
    }
}

fn fixed_litlen_code(sym: u32) -> (u32, u32) {
    if sym <= 143 {
        (0x30 + sym, 8)
    } else if sym <= 255 {
        (0x190 + (sym - 144), 9)
    } else if sym <= 279 {
        (sym - 256, 7)
    } else {
        (0xC0 + (sym - 280), 8)
    }
}

fn inflate_chunked(
    input: &[u8],
    chunk: usize,
    early_eof: bool,
    ignore_checksum: bool,
    small: bool,
) -> Result<Vec<u8>, DecompressionError> {
    let mut d = if small { Decompressor::for_small_input() } else { Decompressor::new() };
    if ignore_checksum {
        d.ignore_checksum();
    }
    let mut out = vec![0u8; 64];
    let mut in_pos = 0usize;
    let mut out_pos = 0usize;
    let mut iterations = 0u32;
    while !d.is_done() {
        iterations += 1;
        assert!(iterations < 1_000_000, "decoder made no progress");
        if out_pos == out.len() {
            let grown = out.len() * 2;
            out.resize(grown, 0);
        }
        let end = std::cmp::min(in_pos + chunk.max(1), input.len());
        let eof = if early_eof { end == input.len() } else { in_pos == input.len() };
        let (c, p) = d.advance(&input[in_pos..end], &mut out, out_pos, eof)?;
        in_pos += c;
        out_pos += p;
    }
    out.truncate(out_pos);
    Ok(out)
}

/// The stream of the run-plus-back-reference scenario: 550 bytes of 'a'.
fn run_stream() -> Vec<u8> {
    let mut w = BitWriter::new();
    w.write_bits(1, 1);
    w.write_bits(1, 2);
    for _ in 0..300 {
        let (code, len) = fixed_litlen_code(b'a' as u32);
        w.write_code(code, len);
    }
    let (code, len) = fixed_litlen_code(284);
    w.write_code(code, len);
    w.write_bits(23, 5);
    w.write_code(4, 5);
    w.write_bits(0, 1);
    let (code, len) = fixed_litlen_code(256);
    w.write_code(code, len);
    w.finish()
}

fn adler32(data: &[u8]) -> u32 {
    let mut s1: u32 = 1;
    let mut s2: u32 = 0;
    for &b in data {
        s1 = (s1 + b as u32) % 65521;
        s2 = (s2 + s1) % 65521;
    }
    (s2 << 16) | s1
}

/// A deterministic pseudo-random byte string, for cross-configuration runs.
fn scrambled_bytes(len: usize, mut seed: u64) -> Vec<u8> {
    let mut v = Vec::with_capacity(len);
    for _ in 0..len {
        seed = seed.wrapping_mul(6364136223846793005).wrapping_add(1442695040888963407);
        v.push((seed >> 33) as u8);
    }
    v
}

#[test]
fn chunk_invariance_on_valid_stream() {
    let input = run_stream();
    let whole = inflate_chunked(&input, input.len(), true, false, false).unwrap();
    assert_eq!(whole.len(), 550);
    for chunk in [1usize, 2, 3, 7, 13, 64] {
        let piecewise = inflate_chunked(&input, chunk, true, false, false).unwrap();
        assert_eq!(piecewise, whole, "chunk size {chunk} changed the output");
    }
}

#[test]
fn chunk_invariance_on_stored_blocks() {
    // Two stored blocks, the second final.
    let input = [
        0x00u8, 0x03, 0x00, 0xFC, 0xFF, b'a', b'b', b'c', 0x01, 0x02, 0x00, 0xFD, 0xFF, b'd', b'e',
    ];
    let whole = inflate_chunked(&input, input.len(), true, false, false).unwrap();
    assert_eq!(whole, b"abcde");
    for chunk in [1usize, 2, 4] {
        assert_eq!(inflate_chunked(&input, chunk, true, false, false).unwrap(), whole);
    }
}

#[test]
fn table_size_invariance_on_assorted_inputs() {
    let mut inputs: Vec<Vec<u8>> = Vec::new();
    inputs.push(run_stream());
    inputs.push(vec![0x01, 0x02, 0x00, 0xFD, 0xFF, b'h', b'i']);
    inputs.push(vec![0x07]);
    inputs.push(vec![0x01, 0x02, 0x00, 0x00, 0x00, b'h', b'i']);
    inputs.push(Vec::new());
    for seed in 0..20u64 {
        inputs.push(scrambled_bytes(200, seed));
    }
    // Corrupted copies of the valid run stream.
    let base = run_stream();
    for i in 0..base.len() {
        let mut bad = base.clone();
        bad[i] ^= 0x55;
        inputs.push(bad);
    }
    for input in inputs {
        let large = inflate_chunked(&input, input.len().max(1), false, true, false);
        let small = inflate_chunked(&input, input.len().max(1), false, true, true);
        match (large, small) {
            (Ok(a), Ok(b)) => assert_eq!(a, b, "configurations decoded differently"),
            (Err(_), Err(_)) => {},
            (a, b) => panic!("configurations disagreed on success: {:?} vs {:?}", a, b),
        }
    }
}

#[test]
fn no_progress_is_reported_not_hidden() {
    // An engine that is not done reports (0, 0) only when it was given no
    // input (without end-of-input) or no output room.
    let mut d = Decompressor::new();
    let mut out = vec![0u8; 16];
    let (c, p) = d.advance(&[], &mut out, 0, false).unwrap();
    assert_eq!((c, p), (0, 0));
    assert!(!d.is_done());

    // With input but zero output room the engine still takes the input in.
    let input = [0x01u8, 0x02, 0x00, 0xFD, 0xFF, b'h', b'i'];
    let mut empty_out: Vec<u8> = Vec::new();
    let (c1, p1) = d.advance(&input, &mut empty_out, 0, false).unwrap();
    assert!(c1 > 0);
    assert_eq!(p1, 0);
    assert!(!d.is_done());
    // Everything is buffered now: no input, no room, not done: (0, 0).
    let (c2, p2) = d.advance(&[], &mut empty_out, 0, false).unwrap();
    assert_eq!((c2, p2), (0, 0));
    assert!(!d.is_done());
}

#[test]
fn back_reference_beyond_emitted_output_is_rejected() {
    // One literal, then a length-3 back-reference at distance 2: only one
    // byte was ever emitted, so distance 2 must be rejected.
    let mut w = BitWriter::new();
    w.write_bits(1, 1);
    w.write_bits(1, 2);
    let (code, len) = fixed_litlen_code(b'a' as u32);
    w.write_code(code, len);
    let (code, len) = fixed_litlen_code(257); // length 3
    w.write_code(code, len);
    w.write_code(1, 5); // distance symbol 1: distance 2
    let (code, len) = fixed_litlen_code(256);
    w.write_code(code, len);
    let input = w.finish();
    let err = inflate_chunked(&input, input.len(), true, false, false).unwrap_err();
    assert_eq!(err, DecompressionError::InvalidDistance);
}

#[test]
fn back_reference_at_exact_emitted_bound_is_accepted() {
    // One literal, then a length-3 back-reference at distance 1: "aaaa".
    let mut w = BitWriter::new();
    w.write_bits(1, 1);
    w.write_bits(1, 2);
    let (code, len) = fixed_litlen_code(b'a' as u32);
    w.write_code(code, len);
    let (code, len) = fixed_litlen_code(257);
    w.write_code(code, len);
    w.write_code(0, 5); // distance symbol 0: distance 1
    let (code, len) = fixed_litlen_code(256);
    w.write_code(code, len);
    let input = w.finish();
    let out = inflate_chunked(&input, input.len(), true, false, false).unwrap();
    assert_eq!(out, b"aaaa");
}

#[test]
fn early_eof_equivalence() {
    let valid = run_stream();
    let mut inputs: Vec<Vec<u8>> = Vec::new();
    inputs.push(valid.clone());
    inputs.push(vec![0x01, 0x02, 0x00, 0xFD, 0xFF, b'h', b'i']);
    let mut truncated = valid.clone();
    truncated.truncate(valid.len() / 2);
    inputs.push(truncated);
    for input in inputs {
        for chunk in [1usize, 3, 1024] {
            let early = inflate_chunked(&input, chunk, true, true, false);
            let late = inflate_chunked(&input, chunk, false, true, false);
            assert_eq!(early, late, "end-of-input timing changed the result");
        }
    }
}

#[test]
fn checksum_trailer_is_verified() {
    let payload = b"hi";
    let mut input = vec![0x01u8, 0x02, 0x00, 0xFD, 0xFF, b'h', b'i'];
    input.extend_from_slice(&adler32(payload).to_be_bytes());
    let out = inflate_chunked(&input, input.len(), true, false, false).unwrap();
    assert_eq!(out, payload);
}

#[test]
fn checksum_mismatch_is_reported() {
    let mut input = vec![0x01u8, 0x02, 0x00, 0xFD, 0xFF, b'h', b'i'];
    input.extend_from_slice(&[0xDE, 0xAD, 0xBE, 0xEF]);
    let err = inflate_chunked(&input, input.len(), true, false, false).unwrap_err();
    assert_eq!(err, DecompressionError::ChecksumMismatch);
}

#[test]
fn checksum_opt_out_changes_only_the_verdict() {
    // Same stream, wrong trailer: with verification it fails with a
    // mismatch; with verification disabled it decodes the same bytes.
    let mut input = vec![0x01u8, 0x02, 0x00, 0xFD, 0xFF, b'h', b'i'];
    input.extend_from_slice(&[0xDE, 0xAD, 0xBE, 0xEF]);
    let verified = inflate_chunked(&input, input.len(), true, false, false);
    assert_eq!(verified.unwrap_err(), DecompressionError::ChecksumMismatch);
    let ignored = inflate_chunked(&input, input.len(), true, true, false).unwrap();
    assert_eq!(ignored, b"hi");

    // A correct trailer decodes identically either way.
    let mut good = vec![0x01u8, 0x02, 0x00, 0xFD, 0xFF, b'h', b'i'];
    good.extend_from_slice(&adler32(b"hi").to_be_bytes());
    assert_eq!(
        inflate_chunked(&good, good.len(), true, false, false).unwrap(),
        inflate_chunked(&good, good.len(), true, true, false).unwrap(),
    );
}

#[test]
fn partial_trailer_is_truncated_input() {
    let mut input = vec![0x01u8, 0x02, 0x00, 0xFD, 0xFF, b'h', b'i'];
    input.extend_from_slice(&[0x00, 0x11]);
    let err = inflate_chunked(&input, input.len(), true, false, false).unwrap_err();
    assert_eq!(err, DecompressionError::TruncatedInput);
}

#[test]
fn reserved_distance_symbol_is_invalid() {
    // Fixed-Huffman distance symbols 30 and 31 decode but are outside the
    // defined range.
    let mut w = BitWriter::new();
    w.write_bits(1, 1);
    w.write_bits(1, 2);
    let (code, len) = fixed_litlen_code(b'a' as u32);
    w.write_code(code, len);
    let (code, len) = fixed_litlen_code(257);
    w.write_code(code, len);
    w.write_code(30, 5); // reserved distance symbol
    let (code, len) = fixed_litlen_code(256);
    w.write_code(code, len);
    let input = w.finish();
    let err = inflate_chunked(&input, input.len(), true, false, false).unwrap_err();
    assert_eq!(err, DecompressionError::InvalidSymbol);
}
