//! Concrete decoding scenarios: hand-crafted DEFLATE streams with exact
//! expected results.

use inflater::DecompressionError;
use inflater::Decompressor;

/// Writes a DEFLATE bit stream: plain fields least-significant-bit first,
/// Huffman codes most-significant-bit first.
struct BitWriter {
    bytes: Vec<u8>,
    acc: u32,
    bit: u32,
}

impl BitWriter {
    fn new() -> Self {
        BitWriter { bytes: Vec::new(), acc: 0, bit: 0 }
    }

    fn write_bits(&mut self, value: u32, count: u32) {
        for i in 0..count {
            let b = (value >> i) & 1;
            self.acc |= b << self.bit;
            self.bit += 1;
            if self.bit == 8 {
                self.bytes.push(self.acc as u8);
                self.acc = 0;
                self.bit = 0;
            }
        }
    }

    fn write_code(&mut self, code: u32, count: u32) {
        for i in (0..count).rev() {
            self.write_bits((code >> i) & 1, 1);
        }
    }

    fn finish(mut self) -> Vec<u8> {
        if self.bit > 0 {
            self.bytes.push(self.acc as u8);
        }
        self.bytes
    }
}

/// The fixed-Huffman code of a literal/length symbol.
fn fixed_litlen_code(sym: u32) -> (u32, u32) {
    if sym <= 143 {
        (0x30 + sym, 8)
    } else if sym <= 255 {
        (0x190 + (sym - 144), 9)
    } else if sym <= 279 {
        (sym - 256, 7)
    } else {
        (0xC0 + (sym - 280), 8)
    }
}

fn write_fixed_literal(w: &mut BitWriter, byte: u8) {
    let (code, len) = fixed_litlen_code(byte as u32);
    w.write_code(code, len);
}

/// Decompress a whole stream by feeding `chunk`-sized slices of input.
fn inflate_chunked(
    input: &[u8],
    chunk: usize,
    early_eof: bool,
    small: bool,
) -> Result<Vec<u8>, DecompressionError> {
    let mut d = if small { Decompressor::for_small_input() } else { Decompressor::new() };
    let mut out = vec![0u8; 64];
    let mut in_pos = 0usize;
    let mut out_pos = 0usize;
    let mut iterations = 0u32;
    while !d.is_done() {
        iterations += 1;
        assert!(iterations < 1_000_000, "decoder made no progress");
        if out_pos == out.len() {
            let grown = out.len() * 2;
            out.resize(grown, 0);
        }
        let end = std::cmp::min(in_pos + chunk.max(1), input.len());
        let eof = if early_eof { end == input.len() } else { in_pos == input.len() };
        let (c, p) = d.advance(&input[in_pos..end], &mut out, out_pos, eof)?;
        in_pos += c;
        out_pos += p;
        if c == 0 && p == 0 && !d.is_done() && out_pos < out.len() && in_pos == input.len() && eof {
            panic!("decoder reported no progress with room available");
        }
    }
    out.truncate(out_pos);
    Ok(out)
}

#[test]
fn stored_block_hi() {
    // A single stored block holding the literal bytes "hi".
    let input = [0x01u8, 0x02, 0x00, 0xFD, 0xFF, b'h', b'i'];
    let out = inflate_chunked(&input, input.len(), true, false).unwrap();
    assert_eq!(out, b"hi");
}

#[test]
fn stored_block_hi_exact_accounting() {
    let input = [0x01u8, 0x02, 0x00, 0xFD, 0xFF, b'h', b'i'];
    let mut d = Decompressor::new();
    let mut out = vec![0u8; 16];
    let (c, p) = d.advance(&input, &mut out, 0, true).unwrap();
    assert_eq!(c, 7);
    assert_eq!(p, 2);
    assert!(d.is_done());
    assert_eq!(&out[..2], b"hi");
}

#[test]
fn fixed_block_run_and_long_back_reference() {
    // 300 copies of 'a', then a back-reference of length 250 at distance 5,
    // then end-of-block: 550 bytes of 'a' in all.
    let mut w = BitWriter::new();
    w.write_bits(1, 1); // final block
    w.write_bits(1, 2); // fixed Huffman
    for _ in 0..300 {
        write_fixed_literal(&mut w, b'a');
    }
    // Length 250: symbol 284 (base 227), 5 extra bits of 23.
    let (code, len) = fixed_litlen_code(284);
    w.write_code(code, len);
    w.write_bits(23, 5);
    // Distance 5: symbol 4 (base 5), 1 extra bit of 0.
    w.write_code(4, 5);
    w.write_bits(0, 1);
    // End of block.
    let (code, len) = fixed_litlen_code(256);
    w.write_code(code, len);
    let input = w.finish();

    let out = inflate_chunked(&input, input.len(), true, false).unwrap();
    assert_eq!(out, vec![b'a'; 550]);
}

#[test]
fn oversubscribed_dynamic_table_is_rejected() {
    // A dynamic block whose literal/length code lengths are over-subscribed:
    // three symbols of length 1 (Kraft sum 3/2 > 1).
    let mut w = BitWriter::new();
    w.write_bits(1, 1); // final block
    w.write_bits(2, 2); // dynamic Huffman
    w.write_bits(0, 5); // hlit: 257 literal/length codes
    w.write_bits(0, 5); // hdist: 1 distance code
    w.write_bits(14, 4); // hclen: 18 code-length lengths
    // Code-length alphabet in permuted order 16,17,18,0,8,7,9,6,10,5,11,4,
    // 12,3,13,2,14,1,15: give symbols 18 and 1 length 1.
    let clens = [0u32, 0, 1, 0, 0, 0, 0, 0, 0, 0, 0, 0, 0, 0, 0, 0, 0, 1];
    for v in clens {
        w.write_bits(v, 3);
    }
    // Canonical meta codes: symbol 1 -> 0, symbol 18 -> 1 (one bit each).
    // Literal/length lengths: 1, 1, 1 then 254 zeros (138 + 116).
    for _ in 0..3 {
        w.write_code(0, 1);
    }
    w.write_code(1, 1);
    w.write_bits(127, 7); // repeat zero 138 times
    w.write_code(1, 1);
    w.write_bits(105, 7); // repeat zero 116 times
    // One distance length of 1 (the permitted degenerate case).
    w.write_code(0, 1);
    let input = w.finish();

    let err = inflate_chunked(&input, input.len(), true, false).unwrap_err();
    assert_eq!(err, DecompressionError::MalformedHuffmanTable);
}

#[test]
fn empty_input_with_eof_is_truncated() {
    let mut d = Decompressor::new();
    let mut out = vec![0u8; 16];
    let err = d.advance(&[], &mut out, 0, true).unwrap_err();
    assert_eq!(err, DecompressionError::TruncatedInput);
}

#[test]
fn empty_final_stored_block_completes() {
    // A final stored block of length 0: done right after its header bytes.
    let input = [0x01u8, 0x00, 0x00, 0xFF, 0xFF];
    let mut d = Decompressor::new();
    let mut out = vec![0u8; 16];
    let (c, p) = d.advance(&input, &mut out, 0, true).unwrap();
    assert_eq!(c, 5);
    assert_eq!(p, 0);
    assert!(d.is_done());
}

#[test]
fn done_engine_is_a_no_op() {
    let input = [0x01u8, 0x00, 0x00, 0xFF, 0xFF];
    let mut d = Decompressor::new();
    let mut out = vec![0u8; 16];
    d.advance(&input, &mut out, 0, true).unwrap();
    assert!(d.is_done());
    let (c, p) = d.advance(&[1, 2, 3], &mut out, 0, true).unwrap();
    assert_eq!((c, p), (0, 0));
    assert!(d.is_done());
}

#[test]
fn invalid_block_type_is_rejected() {
    // Block type 3 is invalid.
    let input = [0x07u8];
    let mut d = Decompressor::new();
    let mut out = vec![0u8; 16];
    let err = d.advance(&input, &mut out, 0, true).unwrap_err();
    assert_eq!(err, DecompressionError::MalformedHeader);
}

#[test]
fn bad_stored_length_pair_is_rejected() {
    // Stored block whose one's-complement length does not match.
    let input = [0x01u8, 0x02, 0x00, 0x00, 0x00, b'h', b'i'];
    let mut d = Decompressor::new();
    let mut out = vec![0u8; 16];
    let err = d.advance(&input, &mut out, 0, true).unwrap_err();
    assert_eq!(err, DecompressionError::MalformedStoredLength);
}

#[test]
fn truncated_stored_block_is_rejected() {
    // Stored block declares 2 bytes but only 1 follows.
    let input = [0x01u8, 0x02, 0x00, 0xFD, 0xFF, b'h'];
    let mut d = Decompressor::new();
    let mut out = vec![0u8; 16];
    let err = d.advance(&input, &mut out, 0, true).unwrap_err();
    assert_eq!(err, DecompressionError::TruncatedInput);
}

#[test]
fn small_table_configuration_matches_on_scenarios() {
    let stored = [0x01u8, 0x02, 0x00, 0xFD, 0xFF, b'h', b'i'];
    assert_eq!(
        inflate_chunked(&stored, stored.len(), true, false).unwrap(),
        inflate_chunked(&stored, stored.len(), true, true).unwrap(),
    );
}
