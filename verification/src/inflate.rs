//! The streaming decode engine.
//!
//! [`Decompressor::advance`] consumes some prefix of an input slice and
//! writes some suffix of a caller-supplied output buffer, resuming from
//! residual state at every call: the engine can stop and restart at any byte
//! of input or output, mid-symbol, mid-block or mid-back-reference.
//!
//! The engine is built from:
//! - a bit reader ([`BitReader`]): a 64-bit accumulator holding the next
//!   unconsumed bits of input, least-significant-bit first;
//! - the Huffman decode tables of the current block (see [`crate::huffman`]);
//! - an output tracker ([`OutputTracker`]) counting every byte ever emitted,
//!   bounding the back-reference window and folding emitted bytes into the
//!   Adler-32 accumulator (see [`crate::adler`]);
//! - a phase tag plus a few residual scalars, which together are the whole
//!   suspension state of the decode state machine.
//!
//! The stream is a sequence of DEFLATE blocks; after the final block the
//! engine byte-aligns and, if any input remains, reads a four-byte big-endian
//! Adler-32 trailer and verifies it (unless verification was disabled, in
//! which case the trailer is still consumed but not compared). A stream that
//! ends cleanly right after its final block is accepted without a trailer.

use crate::adler::Adler32;
use crate::huffman::Decoded;
use crate::huffman::HuffmanTable;
use crate::huffman::lemma_u64_and_le;
use vstd::prelude::*;

verus! {

/// The closed set of fatal decoding errors. Once one is returned the engine
/// must not be used again.
#[derive(Clone, Copy, Debug, PartialEq, Eq)]
pub enum DecompressionError {
    /// The block header holds an invalid block type.
    MalformedHeader,
    /// A set of code lengths does not form a valid prefix code, or the
    /// Huffman-coded table description itself is malformed.
    MalformedHuffmanTable,
    /// A stored block's length and its one's complement disagree.
    MalformedStoredLength,
    /// A decoded symbol lies outside the defined range for its table.
    InvalidSymbol,
    /// A back-reference distance exceeds the bytes emitted so far.
    InvalidDistance,
    /// End of input was signaled while more bytes are structurally required.
    TruncatedInput,
    /// The accumulated checksum disagrees with the stream's trailer.
    ChecksumMismatch,
}

/// The most distant back-reference the format allows.
pub const MAX_DISTANCE: u32 = 32768;

/// The window a back-reference may reach into: all output emitted so far,
/// capped at the format's maximum distance.
pub open spec fn window_cap(emitted: int) -> int {
    if emitted < MAX_DISTANCE as int {
        emitted
    } else {
        MAX_DISTANCE as int
    }
}

/// The current phase of the decode state machine. Exactly one holds at any
/// time; each is resumable from the engine's residual scalars alone.
#[derive(Clone, Copy)]
enum Phase {
    /// Awaiting the 3-bit block header (final flag and block type).
    BlockHeader,
    /// Awaiting a stored block's length / one's-complement-length pair.
    StoredLen,
    /// Copying a stored block's raw bytes to the output.
    StoredCopy,
    /// Awaiting a dynamic block's table-shape counts.
    DynHeader,
    /// Reading the code-length alphabet's own code lengths.
    DynClen,
    /// Decoding the literal/length and distance code lengths.
    DynLens,
    /// Decoding literal/length symbols.
    SymbolLoop,
    /// A length was decoded; awaiting the distance symbol.
    DistSym,
    /// Replaying a pending back-reference into the output.
    BackRef,
    /// The final block ended; awaiting the optional checksum trailer.
    Trailer,
    /// The stream is fully decoded; calls are no-ops.
    Done,
    /// A fatal error was returned.
    Failed,
}

/// What one step of the state machine did.
enum Step {
    /// Progress was made; take another step.
    Again,
    /// More input bits are required than are available.
    NeedInput,
    /// The output buffer has no room for the next byte.
    NeedOutput,
    /// The stream is fully decoded.
    Finished,
    /// A fatal error; the phase is already `Failed`.
    Fail(DecompressionError),
}

/// Whether bit `i` of `b` is set.
pub open spec fn nth_bit(b: u64, i: u64) -> bool {
    (b >> i) & 1 == 1
}

/// The low `n` bits of `b`, least significant first.
pub open spec fn low_bits(b: u64, n: int) -> Seq<bool> {
    Seq::new(n as nat, |i: int| nth_bit(b, i as u64))
}

/// The bits of one byte, least significant first, as the format orders them.
pub open spec fn byte_bits(x: u8) -> Seq<bool> {
    low_bits(x as u64, 8)
}

/// The bits of a byte sequence, in stream order.
pub open spec fn bytes_bits(s: Seq<u8>) -> Seq<bool>
    decreases s.len(),
{
    if s.len() == 0 {
        Seq::empty()
    } else {
        byte_bits(s[0]) + bytes_bits(s.drop_first())
    }
}

/// A byte sequence carries eight bits per byte.
proof fn lemma_bytes_bits_len(s: Seq<u8>)
    ensures
        bytes_bits(s).len() == 8 * s.len(),
    decreases s.len(),
{
    if s.len() > 0 {
        lemma_bytes_bits_len(s.drop_first());
    }
}

/// Appending one byte appends its eight bits.
proof fn lemma_bytes_bits_push(s: Seq<u8>, x: u8)
    ensures
        bytes_bits(s.push(x)) == bytes_bits(s) + byte_bits(x),
    decreases s.len(),
{
    if s.len() == 0 {
        assert(s.push(x)[0] == x);
        assert(s.push(x).drop_first() =~= Seq::<u8>::empty());
        assert(bytes_bits(Seq::<u8>::empty()) == Seq::<bool>::empty());
        assert(byte_bits(x) + Seq::<bool>::empty() =~= byte_bits(x));
        assert(Seq::<bool>::empty() + byte_bits(x) =~= byte_bits(x));
        assert(bytes_bits(s.push(x)) =~= bytes_bits(s) + byte_bits(x));
    } else {
        assert(s.push(x)[0] == s[0]);
        assert(s.push(x).drop_first() =~= s.drop_first().push(x));
        lemma_bytes_bits_push(s.drop_first(), x);
        assert(byte_bits(s[0]) + (bytes_bits(s.drop_first()) + byte_bits(x)) =~= (byte_bits(s[0])
            + bytes_bits(s.drop_first())) + byte_bits(x));
    }
}

/// Bits below the insertion point are unchanged by an OR-ed shifted byte.
proof fn lemma_or_keeps_low(b: u64, x: u64, n: u64, i: u64)
    requires
        x < 256,
        i < n,
        n <= 56,
    ensures
        nth_bit(b | (x << n), i) == nth_bit(b, i),
{
    assert(x < 256 && i < n && n <= 56 ==> (((b | (x << n)) >> i) & 1) == ((b >> i) & 1))
        by (bit_vector);
}

/// A zeroed bit position takes the corresponding bit of the inserted byte.
proof fn lemma_or_sets_byte(b: u64, x: u64, n: u64, j: u64)
    requires
        x < 256,
        j < 8,
        n <= 56,
        !nth_bit(b, (n + j) as u64),
    ensures
        nth_bit(b | (x << n), (n + j) as u64) == nth_bit(x, j),
{
    assert(x < 256 && j < 8 && n <= 56 && ((b >> ((n + j) as u64)) & 1) != 1 ==> (((b | (x << n))
        >> ((n + j) as u64)) & 1) == ((x >> j) & 1)) by (bit_vector);
}

/// Positions above the inserted byte stay zero.
proof fn lemma_or_keeps_high_zero(b: u64, x: u64, n: u64, i: u64)
    requires
        x < 256,
        n + 8 <= i < 64,
        n <= 56,
        !nth_bit(b, i),
    ensures
        !nth_bit(b | (x << n), i),
{
    assert(x < 256 && n + 8 <= i && i < 64 && n <= 56 && ((b >> i) & 1) != 1 ==> (((b | (x << n))
        >> i) & 1) != 1) by (bit_vector);
}

/// Two right shifts add up.
proof fn lemma_shift_shift(b: u64, k: u64, i: u64)
    requires
        k <= 32,
        i < 64,
    ensures
        k + i < 64 ==> nth_bit(b >> k, i) == nth_bit(b, (k + i) as u64),
        k + i >= 64 ==> !nth_bit(b >> k, i),
{
    assert(k <= 32 && i < 64 && k + i < 64 ==> (((b >> k) >> i) & 1) == ((b >> (k + i)) & 1))
        by (bit_vector);
    assert(k <= 32 && i < 64 && k + i >= 64 ==> (((b >> k) >> i) & 1) != 1) by (bit_vector);
}

/// A block-type field of 3 means bits one and two of the header are set.
proof fn lemma_header_type_bits(b: u64)
    requires
        ((b & 7) >> 1) == 3,
    ensures
        nth_bit(b, 1),
        nth_bit(b, 2),
{
    assert(((b & 7) >> 1) == 3 ==> ((b >> 1) & 1) == 1 && ((b >> 2) & 1) == 1) by (bit_vector);
}

/// Every bit of zero is clear.
proof fn lemma_zero_bits(i: u64)
    ensures
        !nth_bit(0, i),
{
    assert(((0u64 >> i) & 1) != 1) by (bit_vector);
}

/// Extracts bits, least-significant-bit first as the format prescribes, from
/// the input slice: a 64-bit accumulator whose low `nbits` bits are the next
/// unconsumed bits of the stream. `taken` is the ghost history of every
/// input byte ever moved into the accumulator: the consumed stream.
struct BitReader {
    buffer: u64,
    nbits: usize,
    taken: Ghost<Seq<u8>>,
    used: Ghost<int>,
}

impl BitReader {
    spec fn wf(&self) -> bool {
        &&& self.nbits <= 64
        &&& 0 <= self.used@
        &&& self.used@ + self.nbits as int == 8 * self.taken@.len()
        &&& forall|i: u64| self.nbits <= i < 64 ==> !nth_bit(self.buffer, i)
        &&& self.bits() == bytes_bits(self.taken@).skip(self.used@)
    }

    /// The unconsumed bits the reader holds, in stream order.
    spec fn bits(&self) -> Seq<bool> {
        low_bits(self.buffer, self.nbits as int)
    }

    /// Move whole input bytes into the accumulator while there is room,
    /// advancing `*pos`; bytes moved in count as consumed input.
    fn refill(&mut self, input: &[u8], pos: &mut usize)
        requires
            old(self).wf(),
            *old(pos) <= input@.len(),
        ensures
            final(self).wf(),
            *old(pos) <= *final(pos) <= input@.len(),
            final(self).nbits > 56 || *final(pos) == input@.len(),
            final(self).nbits >= old(self).nbits,
            final(self).taken@ == old(self).taken@ + input@.subrange(
                *old(pos) as int,
                *final(pos) as int,
            ),
            final(self).bits() == old(self).bits() + bytes_bits(
                input@.subrange(*old(pos) as int, *final(pos) as int),
            ),
            *final(pos) == *old(pos) ==> *final(self) == *old(self),
    {
        proof {
            assert(self.taken@ + input@.subrange(*pos as int, *pos as int) =~= self.taken@);
            assert(self.bits() + bytes_bits(input@.subrange(*pos as int, *pos as int))
                =~= self.bits());
        }
        while self.nbits <= 56 && *pos < input.len()
            invariant
                self.wf(),
                *old(pos) <= *pos <= input@.len(),
                self.taken@ == old(self).taken@ + input@.subrange(*old(pos) as int, *pos as int),
                self.bits() == old(self).bits() + bytes_bits(
                    input@.subrange(*old(pos) as int, *pos as int),
                ),
                *pos == *old(pos) ==> (self.buffer == old(self).buffer && self.nbits == old(
                    self,
                ).nbits && self.taken@ == old(self).taken@),
                self.nbits >= old(self).nbits,
            decreases input@.len() - *pos,
        {
            let ghost pre = *self;
            let ghost done = input@.subrange(*old(pos) as int, *pos as int);
            let x = input[*pos];
            proof {
                assert(input@.subrange(*old(pos) as int, *pos + 1) =~= done.push(
                    input@[*pos as int],
                ));
                assert(old(self).taken@ + done.push(input@[*pos as int]) =~= (old(self).taken@
                    + done).push(input@[*pos as int]));
                lemma_bytes_bits_push(done, input@[*pos as int]);
            }
            self.buffer = self.buffer | ((x as u64) << (self.nbits as u64));
            self.nbits = self.nbits + 8;
            self.taken = Ghost(self.taken@.push(input@[*pos as int]));
            *pos = *pos + 1;
            proof {
                assert forall|i: u64| self.nbits <= i < 64 implies !nth_bit(self.buffer, i) by {
                    lemma_or_keeps_high_zero(pre.buffer, x as u64, pre.nbits as u64, i);
                }
                assert(self.bits() =~= pre.bits() + byte_bits(x)) by {
                    assert forall|i: int| 0 <= i < self.nbits as int implies self.bits()[i] == (
                    pre.bits() + byte_bits(x))[i] by {
                        if i < pre.nbits as int {
                            lemma_or_keeps_low(pre.buffer, x as u64, pre.nbits as u64, i as u64);
                        } else {
                            lemma_or_sets_byte(
                                pre.buffer,
                                x as u64,
                                pre.nbits as u64,
                                (i - pre.nbits as int) as u64,
                            );
                        }
                    }
                }
                assert(old(self).bits() + (bytes_bits(done) + byte_bits(x)) =~= (old(self).bits()
                    + bytes_bits(done)) + byte_bits(x));
                lemma_bytes_bits_push(pre.taken@, x);
                lemma_bytes_bits_len(pre.taken@);
                lemma_bytes_bits_len(self.taken@);
                assert(bytes_bits(self.taken@).skip(self.used@) =~= bytes_bits(pre.taken@).skip(
                    self.used@,
                ) + byte_bits(x));
            }
        }
    }

    /// Drop `n` consumed bits from the front of the accumulator.
    fn consume(&mut self, n: usize)
        requires
            old(self).wf(),
            n <= old(self).nbits,
            n <= 32,
        ensures
            final(self).wf(),
            final(self).nbits == old(self).nbits - n,
            final(self).taken@ == old(self).taken@,
            final(self).bits() == old(self).bits().skip(n as int),
    {
        let ghost pre = *self;
        self.buffer = self.buffer >> (n as u64);
        self.nbits = self.nbits - n;
        self.used = Ghost(self.used@ + n as int);
        proof {
            assert forall|i: u64| self.nbits <= i < 64 implies !nth_bit(self.buffer, i) by {
                lemma_shift_shift(pre.buffer, n as u64, i);
            }
            assert(self.bits() =~= pre.bits().skip(n as int)) by {
                assert forall|i: int| 0 <= i < self.nbits as int implies self.bits()[i]
                    == pre.bits().skip(n as int)[i] by {
                    lemma_shift_shift(pre.buffer, n as u64, i as u64);
                }
            }
            lemma_bytes_bits_len(pre.taken@);
            assert(bytes_bits(pre.taken@).skip(pre.used@).skip(n as int) =~= bytes_bits(
                pre.taken@,
            ).skip(pre.used@ + n as int));
        }
    }
}

/// Accounts for every byte emitted by the engine: the byte itself goes into
/// the caller's buffer, the ghost history records it, the window counter
/// saturates at the maximum back-reference distance, and — unless disabled —
/// the byte is folded into the running checksum.
struct OutputTracker {
    window: u32,
    checksum: Adler32,
    verify: bool,
    hist: Ghost<Seq<u8>>,
}

impl OutputTracker {
    spec fn wf(&self) -> bool {
        &&& self.window == window_cap(self.hist@.len() as int)
        &&& self.checksum.wf()
        &&& (self.verify ==> self.checksum.models(self.hist@))
    }

    fn emit(&mut self, output: &mut Vec<u8>, at: usize, b: u8)
        requires
            old(self).wf(),
            at < old(output).len(),
        ensures
            final(self).wf(),
            final(self).hist@ == old(self).hist@.push(b),
            final(self).verify == old(self).verify,
            final(self).window >= old(self).window,
            final(output)@ == old(output)@.update(at as int, b),
    {
        output[at] = b;
        if self.verify {
            let ghost d = self.hist@;
            self.checksum.push(b, Ghost(d));
        }
        self.hist = Ghost(self.hist@.push(b));
        if self.window < 32768 {
            self.window = self.window + 1;
        }
    }
}

/// Residual state of dynamic-table parsing: the declared alphabet sizes, the
/// progress index, the code-length alphabet's lengths, and the decoded
/// literal/length and distance code lengths.
struct LengthState {
    nlit: usize,
    ndist: usize,
    nclen: usize,
    idx: usize,
    clen_lengths: Vec<u8>,
    lengths: Vec<u8>,
}

impl LengthState {
    spec fn wf(&self) -> bool {
        &&& 257 <= self.nlit <= 286
        &&& 1 <= self.ndist <= 30
        &&& 4 <= self.nclen <= 19
        &&& self.idx <= 320
        &&& self.clen_lengths.len() == 19
        &&& (forall|j: int| 0 <= j < 19 ==> self.clen_lengths@[j] <= 15)
        &&& self.lengths.len() == 320
        &&& (forall|j: int| 0 <= j < 320 ==> self.lengths@[j] <= 15)
    }

    fn new() -> (r: Self)
        ensures
            r.wf(),
            r.idx == 0,
    {
        let mut clen_lengths: Vec<u8> = Vec::new();
        let mut k: usize = 0;
        while k < 19
            invariant
                clen_lengths.len() == k,
                k <= 19,
                forall|j: int| 0 <= j < k ==> clen_lengths@[j] == 0,
            decreases 19 - k,
        {
            clen_lengths.push(0);
            k += 1;
        }
        let mut lengths: Vec<u8> = Vec::new();
        let mut m: usize = 0;
        while m < 320
            invariant
                lengths.len() == m,
                m <= 320,
                forall|j: int| 0 <= j < m ==> lengths@[j] == 0,
            decreases 320 - m,
        {
            lengths.push(0);
            m += 1;
        }
        LengthState { nlit: 257, ndist: 1, nclen: 4, idx: 0, clen_lengths, lengths }
    }

    /// Record a dynamic block's declared alphabet sizes and clear the
    /// code-length alphabet's lengths.
    fn start_block(&mut self, hlit: usize, hdist: usize, hclen: usize)
        requires
            old(self).wf(),
            hlit <= 29,
            hdist <= 29,
            hclen <= 15,
        ensures
            final(self).wf(),
            final(self).nlit == 257 + hlit,
            final(self).ndist == 1 + hdist,
            final(self).nclen == 4 + hclen,
            final(self).idx == 0,
    {
        self.nlit = 257 + hlit;
        self.ndist = 1 + hdist;
        self.nclen = 4 + hclen;
        self.idx = 0;
        let mut k: usize = 0;
        while k < 19
            invariant
                self.clen_lengths.len() == 19,
                k <= 19,
                forall|j: int| 0 <= j < k ==> self.clen_lengths@[j] == 0,
                self.nlit == 257 + hlit,
                self.ndist == 1 + hdist,
                self.nclen == 4 + hclen,
                self.idx == 0,
                self.lengths.len() == 320,
                forall|j: int| 0 <= j < 320 ==> self.lengths@[j] <= 15,
            decreases 19 - k,
        {
            self.clen_lengths[k] = 0;
            k += 1;
        }
    }

    /// Record the next code-length-alphabet length, in the format's
    /// permuted order.
    fn set_clen(&mut self, v: u8)
        requires
            old(self).wf(),
            old(self).idx < old(self).nclen,
            v <= 7,
        ensures
            final(self).wf(),
            final(self).idx == old(self).idx + 1,
            final(self).nlit == old(self).nlit,
            final(self).ndist == old(self).ndist,
            final(self).nclen == old(self).nclen,
    {
        let slot = clen_order(self.idx);
        self.clen_lengths[slot] = v;
        self.idx = self.idx + 1;
    }

    /// Restart the progress index for the literal/length and distance
    /// code-length run.
    fn restart(&mut self)
        requires
            old(self).wf(),
        ensures
            final(self).wf(),
            final(self).idx == 0,
            final(self).nlit == old(self).nlit,
            final(self).ndist == old(self).ndist,
            final(self).nclen == old(self).nclen,
            final(self).clen_lengths == old(self).clen_lengths,
    {
        self.idx = 0;
    }

    /// Write `rep` copies of length `v` at the progress index.
    fn fill(&mut self, v: u8, rep: usize)
        requires
            old(self).wf(),
            v <= 15,
            1 <= rep,
            old(self).idx + rep <= old(self).nlit + old(self).ndist,
        ensures
            final(self).wf(),
            final(self).idx == old(self).idx + rep,
            final(self).nlit == old(self).nlit,
            final(self).ndist == old(self).ndist,
            final(self).nclen == old(self).nclen,
    {
        let mut j: usize = 0;
        while j < rep
            invariant
                j <= rep,
                self.idx == old(self).idx + j,
                self.idx + (rep - j) <= self.nlit + self.ndist,
                self.wf(),
                self.nlit == old(self).nlit,
                self.ndist == old(self).ndist,
                self.nclen == old(self).nclen,
                v <= 15,
            decreases rep - j,
        {
            self.lengths[self.idx] = v;
            self.idx = self.idx + 1;
            j += 1;
        }
    }

    /// The most recently written length, for the repeat-previous code.
    fn prev_len(&self) -> (r: u8)
        requires
            self.wf(),
            1 <= self.idx,
        ensures
            r <= 15,
    {
        self.lengths[self.idx - 1]
    }

    /// Whether the end-of-block symbol received a code at all.
    fn end_of_block_coded(&self) -> (r: bool)
        requires
            self.wf(),
    {
        self.lengths[256] != 0
    }
}

/// The format's permuted storage order of the code-length alphabet.
fn clen_order(i: usize) -> (r: usize)
    requires
        i < 19,
    ensures
        r < 19,
{
    match i {
        0 => 16,
        1 => 17,
        2 => 18,
        3 => 0,
        4 => 8,
        5 => 7,
        6 => 9,
        7 => 6,
        8 => 10,
        9 => 5,
        10 => 11,
        11 => 4,
        12 => 12,
        13 => 3,
        14 => 13,
        15 => 2,
        16 => 14,
        17 => 1,
        18 => 15,
        _ => 0,
    }
}

/// Base value, extra-bit count and extra-bit mask of a length symbol.
fn length_params(sym: u16) -> (r: (u32, usize, u32))
    requires
        257 <= sym <= 285,
    ensures
        ({
            let (base, ebits, emax) = r;
            3 <= base && base + emax <= 258 && ebits <= 5 && emax <= 31
        }),
{
    match sym {
        257 => (3, 0, 0),
        258 => (4, 0, 0),
        259 => (5, 0, 0),
        260 => (6, 0, 0),
        261 => (7, 0, 0),
        262 => (8, 0, 0),
        263 => (9, 0, 0),
        264 => (10, 0, 0),
        265 => (11, 1, 1),
        266 => (13, 1, 1),
        267 => (15, 1, 1),
        268 => (17, 1, 1),
        269 => (19, 2, 3),
        270 => (23, 2, 3),
        271 => (27, 2, 3),
        272 => (31, 2, 3),
        273 => (35, 3, 7),
        274 => (43, 3, 7),
        275 => (51, 3, 7),
        276 => (59, 3, 7),
        277 => (67, 4, 15),
        278 => (83, 4, 15),
        279 => (99, 4, 15),
        280 => (115, 4, 15),
        281 => (131, 5, 31),
        282 => (163, 5, 31),
        283 => (195, 5, 31),
        284 => (227, 5, 31),
        285 => (258, 0, 0),
        _ => (3, 0, 0),
    }
}

/// Base value, extra-bit count and extra-bit mask of a distance symbol.
fn dist_params(sym: u16) -> (r: (u32, usize, u32))
    requires
        sym <= 29,
    ensures
        ({
            let (base, ebits, emax) = r;
            1 <= base && base + emax <= 32768 && ebits <= 13 && emax <= 8191
        }),
{
    match sym {
        0 => (1, 0, 0),
        1 => (2, 0, 0),
        2 => (3, 0, 0),
        3 => (4, 0, 0),
        4 => (5, 1, 1),
        5 => (7, 1, 1),
        6 => (9, 2, 3),
        7 => (13, 2, 3),
        8 => (17, 3, 7),
        9 => (25, 3, 7),
        10 => (33, 4, 15),
        11 => (49, 4, 15),
        12 => (65, 5, 31),
        13 => (97, 5, 31),
        14 => (129, 6, 63),
        15 => (193, 6, 63),
        16 => (257, 7, 127),
        17 => (385, 7, 127),
        18 => (513, 8, 255),
        19 => (769, 8, 255),
        20 => (1025, 9, 511),
        21 => (1537, 9, 511),
        22 => (2049, 10, 1023),
        23 => (3073, 10, 1023),
        24 => (4097, 11, 2047),
        25 => (6145, 11, 2047),
        26 => (8193, 12, 4095),
        27 => (12289, 12, 4095),
        28 => (16385, 13, 8191),
        29 => (24577, 13, 8191),
        _ => (1, 0, 0),
    }
}

/// The fixed-Huffman literal/length code lengths the format prescribes.
fn fixed_litlen_lengths() -> (r: Vec<u8>)
    ensures
        r.len() == 288,
        forall|j: int| 0 <= j < 288 ==> r@[j] <= 15,
{
    let mut v: Vec<u8> = Vec::new();
    let mut i: usize = 0;
    while i < 288
        invariant
            v.len() == i,
            i <= 288,
            forall|j: int| 0 <= j < i ==> v@[j] <= 15,
        decreases 288 - i,
    {
        if i < 144 {
            v.push(8);
        } else if i < 256 {
            v.push(9);
        } else if i < 280 {
            v.push(7);
        } else {
            v.push(8);
        }
        i += 1;
    }
    v
}

/// The fixed-Huffman distance code lengths the format prescribes.
fn fixed_dist_lengths() -> (r: Vec<u8>)
    ensures
        r.len() == 32,
        forall|j: int| 0 <= j < 32 ==> r@[j] <= 15,
{
    let mut v: Vec<u8> = Vec::new();
    let mut i: usize = 0;
    while i < 32
        invariant
            v.len() == i,
            i <= 32,
            forall|j: int| 0 <= j < i ==> v@[j] <= 15,
        decreases 32 - i,
    {
        v.push(5);
        i += 1;
    }
    v
}

/// A streaming decoder for one DEFLATE stream: created once per stream,
/// mutated by every call to [`Self::advance`], discarded after completion or
/// a fatal error.
pub struct Decompressor {
    reader: BitReader,
    phase: Phase,
    final_block: bool,
    litlen: HuffmanTable,
    dist: HuffmanTable,
    meta: HuffmanTable,
    litlen_bits: usize,
    dist_bits: usize,
    lens: LengthState,
    stored_rem: u16,
    pending_len: usize,
    ref_rem: usize,
    ref_dist: usize,
    refused: Ghost<int>,
    bad_header: Ghost<int>,
    out: OutputTracker,
}

impl Decompressor {
    /// The engine's internal invariant: every phase can rely on the shape of
    /// the state it resumes from.
    pub closed spec fn wf(&self) -> bool {
        &&& self.reader.wf()
        &&& self.out.wf()
        &&& self.litlen.wf()
        &&& self.dist.wf()
        &&& self.meta.wf()
        &&& 1 <= self.litlen_bits <= 15
        &&& 1 <= self.dist_bits <= 15
        &&& self.lens.wf()
        &&& (self.phase is DynClen ==> self.lens.idx < self.lens.nclen)
        &&& (self.phase is DynLens ==> self.lens.idx < self.lens.nlit + self.lens.ndist)
        &&& (self.phase is StoredCopy ==> self.stored_rem >= 1)
        &&& (self.phase is DistSym ==> 3 <= self.pending_len <= 258)
        &&& (self.phase is BackRef ==> 1 <= self.ref_rem <= 258 && 1 <= self.ref_dist
            <= self.out.window)
        &&& (!(self.phase is BlockHeader) && !(self.phase is Failed) ==> self.reader.taken@.len()
            >= 1)
    }

    /// All bytes this engine instance has ever emitted, in order.
    pub closed spec fn emitted(&self) -> Seq<u8> {
        self.out.hist@
    }

    /// All input bytes this engine instance has ever consumed, in order:
    /// the compressed stream as the engine has seen it.
    pub closed spec fn consumed(&self) -> Seq<u8> {
        self.reader.taken@
    }

    /// How many consumed bits the engine still holds unprocessed.
    pub closed spec fn buffered_bits(&self) -> int {
        self.reader.nbits as int
    }

    /// The final block's end has been fully processed.
    pub closed spec fn is_finished(&self) -> bool {
        self.phase is Done
    }

    /// A fatal error was returned; the engine must not be used again.
    pub closed spec fn has_failed(&self) -> bool {
        self.phase is Failed
    }

    /// Whether emitted bytes are folded into the checksum and the trailer is
    /// compared.
    pub closed spec fn checksum_enabled(&self) -> bool {
        self.out.verify
    }

    /// The engine is replaying a back-reference.
    pub closed spec fn replaying_backref(&self) -> bool {
        self.phase is BackRef
    }

    /// The distance of the back-reference being replayed.
    pub closed spec fn backref_distance(&self) -> int {
        self.ref_dist as int
    }

    /// After an invalid-distance failure: the distance that was refused.
    pub closed spec fn refused_distance(&self) -> int {
        self.refused@
    }

    /// After a malformed-header failure: the bit position in the consumed
    /// stream at which the offending block header starts.
    pub closed spec fn refused_header_pos(&self) -> int {
        self.bad_header@
    }

    /// The recorded header position points at a real header in the consumed
    /// stream whose two type bits both read 1: the invalid block type.
    spec fn header_refused(&self) -> bool {
        let bs = bytes_bits(self.reader.taken@);
        &&& 0 <= self.bad_header@
        &&& self.bad_header@ + 3 <= bs.len()
        &&& bs[self.bad_header@ + 1]
        &&& bs[self.bad_header@ + 2]
    }

    /// Law: a back-reference, once accepted, reaches at most `window_cap`
    /// bytes back — never before the start of the output emitted so far,
    /// and never farther than the format's maximum distance. (That each
    /// replayed byte equals the byte `distance` positions back in the
    /// emitted history is proved on the replay step itself; a refused
    /// distance is surfaced through [`Self::refused_distance`].)
    pub proof fn lemma_backref_bounded(&self)
        requires
            self.wf(),
        ensures
            self.replaying_backref() ==> 1 <= self.backref_distance() <= window_cap(
                self.emitted().len() as int,
            ),
    {
    }

    /// The relation `advance` maintains between the ghost history, the
    /// caller's buffer and the write position: everything emitted beyond
    /// `base` sits in `out[opos .. opos + written]`, and the write position
    /// stays at least one full window past the start of the buffer.
    spec fn emit_inv(&self, base: Seq<u8>, out: Seq<u8>, opos: int, written: int) -> bool {
        &&& self.out.hist@ == base + out.subrange(opos, opos + written)
        &&& opos + written >= window_cap(self.out.hist@.len() as int)
        &&& opos + written <= self.out.hist@.len()
        &&& forall|i: int|
            0 <= i < opos + written ==> out[i] == self.out.hist@[self.out.hist@.len() - (opos
                + written) + i]
    }

    /// What each step outcome guarantees about the transition.
    spec fn step_post(pre: Self, post: Self, r: Step, opos: int, outlen: int, w0: int, w1: int) -> bool {
        match r {
            Step::Again => !(post.phase is Done) && !(post.phase is Failed) && (post.reader.nbits
                < pre.reader.nbits || (post.reader.nbits == pre.reader.nbits && w1 > w0)),
            Step::NeedInput => !(post.phase is Done) && !(post.phase is Failed)
                && pre.reader.nbits < 57 && w1 == w0,
            Step::NeedOutput => !(post.phase is Done) && !(post.phase is Failed) && opos + w1
                == outlen && w1 == w0,
            Step::Finished => post.phase is Done,
            Step::Fail(e) => post.phase is Failed && (e is ChecksumMismatch ==> pre.out.verify)
                && (!(e is TruncatedInput) ==> post.reader.taken@.len() >= 1) && (e
                is InvalidDistance ==> post.out.hist@.len() < post.refused@ <= 32768) && (e
                is MalformedHeader ==> post.header_refused()),
        }
    }

    fn with_table_bits(litlen_bits: usize, dist_bits: usize) -> (r: Self)
        requires
            1 <= litlen_bits <= 15,
            1 <= dist_bits <= 15,
        ensures
            r.wf(),
            !r.has_failed(),
            !r.is_finished(),
            r.emitted() == Seq::<u8>::empty(),
            r.consumed() == Seq::<u8>::empty(),
            r.checksum_enabled(),
    {
        proof {
            assert forall|i: u64| 0 <= i < 64 implies !nth_bit(0, i) by {
                lemma_zero_bits(i);
            }
            assert(low_bits(0, 0) =~= bytes_bits(Seq::<u8>::empty()).skip(0));
        }
        Decompressor {
            reader: BitReader { buffer: 0, nbits: 0, taken: Ghost(Seq::empty()), used: Ghost(0) },
            phase: Phase::BlockHeader,
            final_block: false,
            litlen: HuffmanTable::trivial(),
            dist: HuffmanTable::trivial(),
            meta: HuffmanTable::trivial(),
            litlen_bits,
            dist_bits,
            lens: LengthState::new(),
            stored_rem: 0,
            pending_len: 3,
            ref_rem: 1,
            ref_dist: 1,
            refused: Ghost(0),
            bad_header: Ghost(0),
            out: OutputTracker {
                window: 0,
                checksum: Adler32::new(),
                verify: true,
                hist: Ghost(Seq::empty()),
            },
        }
    }

    /// A decoder with the default (large, fast) decode-table configuration.
    pub fn new() -> (r: Self)
        ensures
            r.wf(),
            !r.has_failed(),
            !r.is_finished(),
            r.emitted() == Seq::<u8>::empty(),
            r.consumed() == Seq::<u8>::empty(),
            r.checksum_enabled(),
    {
        Self::with_table_bits(12, 9)
    }

    /// A decoder with the small, low-footprint decode-table configuration.
    /// Externally indistinguishable from [`Self::new`] on any input.
    pub fn for_small_input() -> (r: Self)
        ensures
            r.wf(),
            !r.has_failed(),
            !r.is_finished(),
            r.emitted() == Seq::<u8>::empty(),
            r.consumed() == Seq::<u8>::empty(),
            r.checksum_enabled(),
    {
        Self::with_table_bits(9, 7)
    }

    /// True once the final block (and its trailer, where present) has been
    /// fully processed.
    pub fn is_done(&self) -> (r: bool)
        ensures
            r == self.is_finished(),
    {
        match self.phase {
            Phase::Done => true,
            _ => false,
        }
    }

    /// Disable checksum accumulation and trailer verification. Decoded
    /// output and input consumption are unaffected: only whether a mismatch
    /// is reported changes.
    pub fn ignore_checksum(&mut self)
        requires
            old(self).wf(),
        ensures
            final(self).wf(),
            !final(self).checksum_enabled(),
            final(self).emitted() == old(self).emitted(),
            final(self).is_finished() == old(self).is_finished(),
            final(self).has_failed() == old(self).has_failed(),
    {
        self.out.verify = false;
    }

    /// One step in the `BlockHeader` phase.
    fn step_block_header(&mut self) -> (r: Step)
        requires
            old(self).wf(),
            old(self).phase is BlockHeader,
        ensures
            final(self).wf(),
            final(self).out.hist@ == old(self).out.hist@,
            final(self).out.verify == old(self).out.verify,
            final(self).reader.taken@ == old(self).reader.taken@,
            Self::step_post(*old(self), *final(self), r, 0, 0, 0, 0),
            !(r is NeedOutput),
            (r matches Step::Fail(e) ==> !(e is TruncatedInput) && !(e is ChecksumMismatch)),
            old(self).reader.nbits < 3 ==> r is NeedInput,
    {
        if self.reader.nbits < 3 {
            return Step::NeedInput;
        }
        let ghost pre_reader = self.reader;
        proof {
            lemma_u64_and_le(self.reader.buffer, 7);
        }
        let hdr = self.reader.buffer & 7;
        self.final_block = (hdr & 1) == 1;
        let btype = hdr >> 1;
        self.reader.consume(3);
        if btype == 0 {
            self.phase = Phase::StoredLen;
            Step::Again
        } else if btype == 1 {
            let litlen_lengths = fixed_litlen_lengths();
            match HuffmanTable::build(&litlen_lengths, 0, 288, self.litlen_bits) {
                Some(t) => {
                    self.litlen = t;
                },
                None => {
                    self.phase = Phase::Failed;
                    return Step::Fail(DecompressionError::MalformedHuffmanTable);
                },
            }
            let dist_lengths = fixed_dist_lengths();
            match HuffmanTable::build(&dist_lengths, 0, 32, self.dist_bits) {
                Some(t) => {
                    self.dist = t;
                },
                None => {
                    self.phase = Phase::Failed;
                    return Step::Fail(DecompressionError::MalformedHuffmanTable);
                },
            }
            self.phase = Phase::SymbolLoop;
            Step::Again
        } else if btype == 2 {
            self.phase = Phase::DynHeader;
            Step::Again
        } else {
            self.bad_header = Ghost(pre_reader.used@);
            self.phase = Phase::Failed;
            proof {
                let bb = pre_reader.buffer;
                assert(((bb & 7) >> 1) <= 3) by (bit_vector);
                lemma_header_type_bits(pre_reader.buffer);
                lemma_bytes_bits_len(pre_reader.taken@);
                assert(pre_reader.bits()[1] == nth_bit(pre_reader.buffer, 1));
                assert(pre_reader.bits()[2] == nth_bit(pre_reader.buffer, 2));
                assert(bytes_bits(pre_reader.taken@)[pre_reader.used@ + 1]
                    == pre_reader.bits()[1]);
                assert(bytes_bits(pre_reader.taken@)[pre_reader.used@ + 2]
                    == pre_reader.bits()[2]);
            }
            Step::Fail(DecompressionError::MalformedHeader)
        }
    }

    /// One step in the `StoredLen` phase: byte-align, then read and check
    /// the stored block's length pair.
    fn step_stored_len(&mut self) -> (r: Step)
        requires
            old(self).wf(),
            old(self).phase is StoredLen,
        ensures
            final(self).wf(),
            final(self).out.hist@ == old(self).out.hist@,
            final(self).out.verify == old(self).out.verify,
            final(self).reader.taken@ == old(self).reader.taken@,
            Self::step_post(*old(self), *final(self), r, 0, 0, 0, 0),
            !(r is NeedOutput),
            (r matches Step::Fail(e) ==> !(e is TruncatedInput) && !(e is ChecksumMismatch)),
            old(self).reader.nbits == 0 ==> r is NeedInput,
    {
        let drop_bits = self.reader.nbits % 8;
        if self.reader.nbits < drop_bits + 32 {
            return Step::NeedInput;
        }
        if drop_bits != 0 {
            self.reader.consume(drop_bits);
        }
        proof {
            lemma_u64_and_le(self.reader.buffer, 0xFFFF);
            lemma_u64_and_le(self.reader.buffer >> 16, 0xFFFF);
        }
        let len16 = (self.reader.buffer & 0xFFFF) as u16;
        let nlen16 = ((self.reader.buffer >> 16) & 0xFFFF) as u16;
        self.reader.consume(32);
        if nlen16 != !len16 {
            self.phase = Phase::Failed;
            return Step::Fail(DecompressionError::MalformedStoredLength);
        }
        if len16 == 0 {
            self.phase = if self.final_block {
                Phase::Trailer
            } else {
                Phase::BlockHeader
            };
        } else {
            self.stored_rem = len16;
            self.phase = Phase::StoredCopy;
        }
        Step::Again
    }

    /// One step in the `StoredCopy` phase: move one raw byte to the output.
    fn step_stored_copy(
        &mut self,
        output: &mut Vec<u8>,
        output_position: usize,
        written: &mut usize,
        Ghost(base): Ghost<Seq<u8>>,
    ) -> (r: Step)
        requires
            old(self).wf(),
            old(self).phase is StoredCopy,
            output_position + *old(written) <= old(output).len(),
            old(self).emit_inv(base, old(output)@, output_position as int, *old(written) as int),
        ensures
            final(self).wf(),
            final(output).len() == old(output).len(),
            forall|i: int| 0 <= i < output_position ==> final(output)@[i] == old(output)@[i],
            *old(written) <= *final(written),
            output_position + *final(written) <= old(output).len(),
            final(self).emit_inv(
                base,
                final(output)@,
                output_position as int,
                *final(written) as int,
            ),
            final(self).out.verify == old(self).out.verify,
            final(self).reader.taken@ == old(self).reader.taken@,
            Self::step_post(
                *old(self),
                *final(self),
                r,
                output_position as int,
                old(output).len() as int,
                *old(written) as int,
                *final(written) as int,
            ),
            (r matches Step::Fail(e) ==> !(e is TruncatedInput) && !(e is ChecksumMismatch)),
            (old(self).reader.nbits == 0 ==> (r is NeedInput || r is NeedOutput)),
    {
        if output_position + *written >= output.len() {
            return Step::NeedOutput;
        }
        if self.reader.nbits < 8 {
            return Step::NeedInput;
        }
        proof {
            lemma_u64_and_le(self.reader.buffer, 0xFF);
        }
        let b = (self.reader.buffer & 0xFF) as u8;
        self.reader.consume(8);
        let at = output_position + *written;
        let ghost pre_out = output@;
        self.out.emit(output, at, b);
        *written = *written + 1;
        proof {
            assert(output@.subrange(output_position as int, output_position + *written)
                =~= pre_out.subrange(output_position as int, output_position + *written - 1).push(
                b,
            ));
            assert(base + pre_out.subrange(
                output_position as int,
                output_position + *written - 1,
            ).push(b) =~= (base + pre_out.subrange(
                output_position as int,
                output_position + *written - 1,
            )).push(b));
        }
        self.stored_rem = self.stored_rem - 1;
        if self.stored_rem == 0 {
            self.phase = if self.final_block {
                Phase::Trailer
            } else {
                Phase::BlockHeader
            };
        }
        Step::Again
    }

    /// One step in the `DynHeader` phase: read the declared alphabet sizes.
    fn step_dyn_header(&mut self) -> (r: Step)
        requires
            old(self).wf(),
            old(self).phase is DynHeader,
        ensures
            final(self).wf(),
            final(self).out.hist@ == old(self).out.hist@,
            final(self).out.verify == old(self).out.verify,
            final(self).reader.taken@ == old(self).reader.taken@,
            Self::step_post(*old(self), *final(self), r, 0, 0, 0, 0),
            !(r is NeedOutput),
            (r matches Step::Fail(e) ==> !(e is TruncatedInput) && !(e is ChecksumMismatch)),
            old(self).reader.nbits == 0 ==> r is NeedInput,
    {
        if self.reader.nbits < 14 {
            return Step::NeedInput;
        }
        proof {
            lemma_u64_and_le(self.reader.buffer, 31);
            lemma_u64_and_le(self.reader.buffer >> 5, 31);
            lemma_u64_and_le(self.reader.buffer >> 10, 15);
        }
        let hlit = (self.reader.buffer & 31) as usize;
        let hdist = ((self.reader.buffer >> 5) & 31) as usize;
        let hclen = ((self.reader.buffer >> 10) & 15) as usize;
        self.reader.consume(14);
        if hlit > 29 || hdist > 29 {
            self.phase = Phase::Failed;
            return Step::Fail(DecompressionError::MalformedHuffmanTable);
        }
        self.lens.start_block(hlit, hdist, hclen);
        self.phase = Phase::DynClen;
        Step::Again
    }

    /// One step in the `DynClen` phase: read one code-length-alphabet
    /// length; once all are read, build the code-length decode table.
    fn step_dyn_clen(&mut self) -> (r: Step)
        requires
            old(self).wf(),
            old(self).phase is DynClen,
        ensures
            final(self).wf(),
            final(self).out.hist@ == old(self).out.hist@,
            final(self).out.verify == old(self).out.verify,
            final(self).reader.taken@ == old(self).reader.taken@,
            Self::step_post(*old(self), *final(self), r, 0, 0, 0, 0),
            !(r is NeedOutput),
            (r matches Step::Fail(e) ==> !(e is TruncatedInput) && !(e is ChecksumMismatch)),
            old(self).reader.nbits == 0 ==> r is NeedInput,
    {
        if self.reader.nbits < 3 {
            return Step::NeedInput;
        }
        proof {
            lemma_u64_and_le(self.reader.buffer, 7);
        }
        let v = (self.reader.buffer & 7) as u8;
        self.reader.consume(3);
        self.lens.set_clen(v);
        if self.lens.idx == self.lens.nclen {
            match HuffmanTable::build(&self.lens.clen_lengths, 0, 19, 7) {
                Some(t) => {
                    self.meta = t;
                },
                None => {
                    self.phase = Phase::Failed;
                    return Step::Fail(DecompressionError::MalformedHuffmanTable);
                },
            }
            self.lens.restart();
            self.phase = Phase::DynLens;
        }
        Step::Again
    }

    /// One step in the `DynLens` phase: decode one code-length symbol (a
    /// literal length or a run-length code) and apply it; once all lengths
    /// are read, build the two working decode tables.
    fn step_dyn_lens(&mut self) -> (r: Step)
        requires
            old(self).wf(),
            old(self).phase is DynLens,
        ensures
            final(self).wf(),
            final(self).out.hist@ == old(self).out.hist@,
            final(self).out.verify == old(self).out.verify,
            final(self).reader.taken@ == old(self).reader.taken@,
            Self::step_post(*old(self), *final(self), r, 0, 0, 0, 0),
            !(r is NeedOutput),
            (r matches Step::Fail(e) ==> !(e is TruncatedInput) && !(e is ChecksumMismatch)),
            old(self).reader.nbits == 0 ==> r is NeedInput,
    {
        let decoded = self.meta.decode(self.reader.buffer, self.reader.nbits);
        match decoded {
            Decoded::Need => {
                return Step::NeedInput;
            },
            Decoded::Bad => {
                self.phase = Phase::Failed;
                return Step::Fail(DecompressionError::MalformedHuffmanTable);
            },
            Decoded::Sym { sym, len } => {
                if sym <= 15 {
                    self.reader.consume(len);
                    self.lens.fill(sym as u8, 1);
                } else if sym == 16 || sym == 17 || sym == 18 {
                    let ebits: usize = if sym == 16 {
                        2
                    } else if sym == 17 {
                        3
                    } else {
                        7
                    };
                    if self.reader.nbits < len + ebits {
                        return Step::NeedInput;
                    }
                    let emask: u64 = if sym == 16 {
                        3
                    } else if sym == 17 {
                        7
                    } else {
                        127
                    };
                    proof {
                        lemma_u64_and_le(self.reader.buffer >> (len as u64), emask);
                    }
                    let extra = ((self.reader.buffer >> (len as u64)) & emask) as usize;
                    self.reader.consume(len + ebits);
                    let rep: usize = if sym == 18 {
                        11 + extra
                    } else {
                        3 + extra
                    };
                    let v: u8 = if sym == 16 {
                        if self.lens.idx == 0 {
                            self.phase = Phase::Failed;
                            return Step::Fail(DecompressionError::MalformedHuffmanTable);
                        }
                        self.lens.prev_len()
                    } else {
                        0
                    };
                    if self.lens.idx + rep > self.lens.nlit + self.lens.ndist {
                        self.phase = Phase::Failed;
                        return Step::Fail(DecompressionError::MalformedHuffmanTable);
                    }
                    self.lens.fill(v, rep);
                } else {
                    self.phase = Phase::Failed;
                    return Step::Fail(DecompressionError::MalformedHuffmanTable);
                }
                if self.lens.idx == self.lens.nlit + self.lens.ndist {
                    if !self.lens.end_of_block_coded() {
                        self.phase = Phase::Failed;
                        return Step::Fail(DecompressionError::MalformedHuffmanTable);
                    }
                    match HuffmanTable::build(&self.lens.lengths, 0, self.lens.nlit, self.litlen_bits) {
                        Some(t) => {
                            self.litlen = t;
                        },
                        None => {
                            self.phase = Phase::Failed;
                            return Step::Fail(DecompressionError::MalformedHuffmanTable);
                        },
                    }
                    match HuffmanTable::build(
                        &self.lens.lengths,
                        self.lens.nlit,
                        self.lens.ndist,
                        self.dist_bits,
                    ) {
                        Some(t) => {
                            self.dist = t;
                        },
                        None => {
                            self.phase = Phase::Failed;
                            return Step::Fail(DecompressionError::MalformedHuffmanTable);
                        },
                    }
                    self.phase = Phase::SymbolLoop;
                }
                Step::Again
            },
        }
    }

    /// One step in the `SymbolLoop` phase: decode one literal/length symbol.
    fn step_symbol(
        &mut self,
        output: &mut Vec<u8>,
        output_position: usize,
        written: &mut usize,
        Ghost(base): Ghost<Seq<u8>>,
    ) -> (r: Step)
        requires
            old(self).wf(),
            old(self).phase is SymbolLoop,
            output_position + *old(written) <= old(output).len(),
            old(self).emit_inv(base, old(output)@, output_position as int, *old(written) as int),
        ensures
            final(self).wf(),
            final(output).len() == old(output).len(),
            forall|i: int| 0 <= i < output_position ==> final(output)@[i] == old(output)@[i],
            *old(written) <= *final(written),
            output_position + *final(written) <= old(output).len(),
            final(self).emit_inv(
                base,
                final(output)@,
                output_position as int,
                *final(written) as int,
            ),
            final(self).out.verify == old(self).out.verify,
            final(self).reader.taken@ == old(self).reader.taken@,
            Self::step_post(
                *old(self),
                *final(self),
                r,
                output_position as int,
                old(output).len() as int,
                *old(written) as int,
                *final(written) as int,
            ),
            (r matches Step::Fail(e) ==> !(e is TruncatedInput) && !(e is ChecksumMismatch)),
            (old(self).reader.nbits == 0 ==> r is NeedInput),
    {
        let decoded = self.litlen.decode(self.reader.buffer, self.reader.nbits);
        match decoded {
            Decoded::Need => Step::NeedInput,
            Decoded::Bad => {
                self.phase = Phase::Failed;
                Step::Fail(DecompressionError::InvalidSymbol)
            },
            Decoded::Sym { sym, len } => {
                if sym < 256 {
                    if output_position + *written >= output.len() {
                        return Step::NeedOutput;
                    }
                    self.reader.consume(len);
                    let at = output_position + *written;
                    let ghost pre_out = output@;
                    self.out.emit(output, at, sym as u8);
                    *written = *written + 1;
                    proof {
                        assert(output@.subrange(output_position as int, output_position + *written)
                            =~= pre_out.subrange(
                            output_position as int,
                            output_position + *written - 1,
                        ).push(sym as u8));
                        assert(base + pre_out.subrange(
                            output_position as int,
                            output_position + *written - 1,
                        ).push(sym as u8) =~= (base + pre_out.subrange(
                            output_position as int,
                            output_position + *written - 1,
                        )).push(sym as u8));
                    }
                    Step::Again
                } else if sym == 256 {
                    self.reader.consume(len);
                    self.phase = if self.final_block {
                        Phase::Trailer
                    } else {
                        Phase::BlockHeader
                    };
                    Step::Again
                } else if sym <= 285 {
                    let (base_len, ebits, emask) = length_params(sym);
                    if self.reader.nbits < len + ebits {
                        return Step::NeedInput;
                    }
                    proof {
                        lemma_u64_and_le(self.reader.buffer >> (len as u64), emask as u64);
                    }
                    let extra = ((self.reader.buffer >> (len as u64)) & (emask as u64)) as u32;
                    self.reader.consume(len + ebits);
                    self.pending_len = (base_len + extra) as usize;
                    self.phase = Phase::DistSym;
                    Step::Again
                } else {
                    self.phase = Phase::Failed;
                    Step::Fail(DecompressionError::InvalidSymbol)
                }
            },
        }
    }

    /// One step in the `DistSym` phase: decode the distance symbol and
    /// validate the back-reference against the emitted window.
    fn step_dist_sym(&mut self) -> (r: Step)
        requires
            old(self).wf(),
            old(self).phase is DistSym,
        ensures
            final(self).wf(),
            final(self).out.hist@ == old(self).out.hist@,
            final(self).out.verify == old(self).out.verify,
            final(self).reader.taken@ == old(self).reader.taken@,
            Self::step_post(*old(self), *final(self), r, 0, 0, 0, 0),
            !(r is NeedOutput),
            (r matches Step::Fail(e) ==> !(e is TruncatedInput) && !(e is ChecksumMismatch)),
            old(self).reader.nbits == 0 ==> r is NeedInput,
    {
        let decoded = self.dist.decode(self.reader.buffer, self.reader.nbits);
        match decoded {
            Decoded::Need => Step::NeedInput,
            Decoded::Bad => {
                self.phase = Phase::Failed;
                Step::Fail(DecompressionError::InvalidSymbol)
            },
            Decoded::Sym { sym, len } => {
                if sym > 29 {
                    self.phase = Phase::Failed;
                    return Step::Fail(DecompressionError::InvalidSymbol);
                }
                let (base_dist, ebits, emask) = dist_params(sym);
                if self.reader.nbits < len + ebits {
                    return Step::NeedInput;
                }
                proof {
                    lemma_u64_and_le(self.reader.buffer >> (len as u64), emask as u64);
                }
                let extra = ((self.reader.buffer >> (len as u64)) & (emask as u64)) as u32;
                self.reader.consume(len + ebits);
                let distance = base_dist + extra;
                if distance > self.out.window {
                    self.refused = Ghost(distance as int);
                    self.phase = Phase::Failed;
                    return Step::Fail(DecompressionError::InvalidDistance);
                }
                self.ref_dist = distance as usize;
                self.ref_rem = self.pending_len;
                self.phase = Phase::BackRef;
                Step::Again
            },
        }
    }

    /// One step in the `BackRef` phase: copy one byte from `ref_dist` bytes
    /// back in the output to the current position. Source and destination
    /// may overlap: a distance smaller than the length repeats the tail.
    fn step_back_ref(
        &mut self,
        output: &mut Vec<u8>,
        output_position: usize,
        written: &mut usize,
        Ghost(base): Ghost<Seq<u8>>,
    ) -> (r: Step)
        requires
            old(self).wf(),
            old(self).phase is BackRef,
            output_position + *old(written) <= old(output).len(),
            old(self).emit_inv(base, old(output)@, output_position as int, *old(written) as int),
        ensures
            final(self).wf(),
            final(output).len() == old(output).len(),
            forall|i: int| 0 <= i < output_position ==> final(output)@[i] == old(output)@[i],
            *old(written) <= *final(written),
            output_position + *final(written) <= old(output).len(),
            final(self).emit_inv(
                base,
                final(output)@,
                output_position as int,
                *final(written) as int,
            ),
            final(self).out.verify == old(self).out.verify,
            final(self).reader.taken@ == old(self).reader.taken@,
            Self::step_post(
                *old(self),
                *final(self),
                r,
                output_position as int,
                old(output).len() as int,
                *old(written) as int,
                *final(written) as int,
            ),
            (r matches Step::Fail(e) ==> !(e is TruncatedInput) && !(e is ChecksumMismatch)),
            (r is Again || r is NeedOutput),
            (r is Again ==> final(self).out.hist@ == old(self).out.hist@.push(
                old(self).out.hist@[old(self).out.hist@.len() - old(self).ref_dist],
            )),
    {
        if output_position + *written >= output.len() {
            return Step::NeedOutput;
        }
        let at = output_position + *written;
        proof {
            // The accepted distance lies within the window, and the write
            // position is at least one full window into the buffer.
            assert(self.ref_dist <= window_cap(self.out.hist@.len() as int));
            assert(self.ref_dist <= at);
        }
        let b = output[at - self.ref_dist];
        proof {
            // By the window relation, that buffer byte is the byte
            // `ref_dist` positions back in the emitted history.
            assert(output@[at - self.ref_dist] == self.out.hist@[self.out.hist@.len()
                - self.ref_dist]);
        }
        let ghost pre_out = output@;
        self.out.emit(output, at, b);
        *written = *written + 1;
        proof {
            assert(output@.subrange(output_position as int, output_position + *written)
                =~= pre_out.subrange(output_position as int, output_position + *written - 1).push(
                b,
            ));
            assert(base + pre_out.subrange(
                output_position as int,
                output_position + *written - 1,
            ).push(b) =~= (base + pre_out.subrange(
                output_position as int,
                output_position + *written - 1,
            )).push(b));
        }
        self.ref_rem = self.ref_rem - 1;
        if self.ref_rem == 0 {
            self.phase = Phase::SymbolLoop;
        }
        Step::Again
    }

    /// One step in the `Trailer` phase: byte-align, then read and (unless
    /// disabled) verify the four-byte big-endian checksum trailer. A stream
    /// that ends cleanly with no trailer bytes at all is accepted.
    fn step_trailer(&mut self, end_of_input: bool) -> (r: Step)
        requires
            old(self).wf(),
            old(self).phase is Trailer,
        ensures
            final(self).wf(),
            final(self).out.hist@ == old(self).out.hist@,
            final(self).out.verify == old(self).out.verify,
            final(self).reader.taken@ == old(self).reader.taken@,
            Self::step_post(*old(self), *final(self), r, 0, 0, 0, 0),
            !(r is NeedOutput),
            (r matches Step::Fail(e) ==> (e is TruncatedInput ==> end_of_input)),
            (r matches Step::Fail(e) ==> (e is ChecksumMismatch
                ==> final(self).reader.taken@.len() >= 4)),
            (r is Finished || r is Fail) || !end_of_input,
            (old(self).reader.nbits == 0 ==> (r is NeedInput || r is Finished)),
    {
        let drop_bits = self.reader.nbits % 8;
        if self.reader.nbits >= drop_bits + 32 {
            if drop_bits != 0 {
                self.reader.consume(drop_bits);
            }
            proof {
                lemma_u64_and_le(self.reader.buffer, 0xFF);
                lemma_u64_and_le(self.reader.buffer >> 8, 0xFF);
                lemma_u64_and_le(self.reader.buffer >> 16, 0xFF);
                lemma_u64_and_le(self.reader.buffer >> 24, 0xFF);
            }
            let b0 = (self.reader.buffer & 0xFF) as u32;
            let b1 = ((self.reader.buffer >> 8) & 0xFF) as u32;
            let b2 = ((self.reader.buffer >> 16) & 0xFF) as u32;
            let b3 = ((self.reader.buffer >> 24) & 0xFF) as u32;
            let trailer = b0 * 16777216 + b1 * 65536 + b2 * 256 + b3;
            self.reader.consume(32);
            if self.out.verify {
                let computed = self.out.checksum.value();
                if computed != trailer {
                    self.phase = Phase::Failed;
                    return Step::Fail(DecompressionError::ChecksumMismatch);
                }
            }
            self.phase = Phase::Done;
            Step::Finished
        } else {
            if end_of_input {
                if drop_bits != 0 {
                    self.reader.consume(drop_bits);
                }
                if self.reader.nbits == 0 {
                    // A clean end right after the final block: no trailer.
                    self.phase = Phase::Done;
                    Step::Finished
                } else {
                    self.phase = Phase::Failed;
                    Step::Fail(DecompressionError::TruncatedInput)
                }
            } else {
                Step::NeedInput
            }
        }
    }

    /// Advance the decode state machine: consume some prefix of `input`,
    /// write some suffix of `output` starting at `output_position`, and
    /// report `(bytes_consumed, bytes_produced)`.
    ///
    /// `end_of_input` signals that no input will ever follow this slice; the
    /// engine uses it to tell "wait for more input" from "the stream is
    /// truncated".
    ///
    /// The caller keeps the window: `output[..output_position]` must hold
    /// the most recently produced output — the `requires` state this
    /// exactly: `output_position` lies between the reachable window and the
    /// total produced so far, and the bytes below it are the corresponding
    /// suffix of everything emitted. Growing one buffer across calls
    /// satisfies this, and the `ensures` re-establish it for the next call.
    ///
    /// A call that consumes and produces nothing while the stream is not
    /// done means the caller must supply input or output room: it can only
    /// happen with an empty, non-final input slice or a full output buffer.
    /// Dually, flushing with an empty slice at end of input never stalls:
    /// it finishes, reports truncation, or makes output progress. An empty
    /// stream is owed `TruncatedInput`; an invalid-distance error names a
    /// distance beyond the emitted output; a malformed-header error points
    /// at the bits of the consumed stream that encode the invalid type.
    pub fn advance(
        &mut self,
        input: &[u8],
        output: &mut Vec<u8>,
        output_position: usize,
        end_of_input: bool,
    ) -> (r: Result<(usize, usize), DecompressionError>)
        requires
            old(self).wf(),
            !old(self).has_failed(),
            output_position <= old(output).len(),
            output_position >= window_cap(old(self).emitted().len() as int),
            output_position <= old(self).emitted().len(),
            forall|i: int|
                0 <= i < output_position ==> old(output)@[i] == old(self).emitted()[old(
                    self,
                ).emitted().len() - output_position + i],
        ensures
            final(self).wf(),
            final(output).len() == old(output).len(),
            forall|i: int| 0 <= i < output_position ==> final(output)@[i] == old(output)@[i],
            final(self).checksum_enabled() == old(self).checksum_enabled(),
            final(self).is_finished() ==> final(self).consumed().len() >= 1,
            (old(self).consumed().len() == 0 && input@.len() == 0 && end_of_input && !old(
                self,
            ).is_finished()) ==> r == Err::<(usize, usize), DecompressionError>(
                DecompressionError::TruncatedInput,
            ),
            (!old(self).is_finished() && input@.len() == 0 && end_of_input && old(
                self,
            ).buffered_bits() == 0 && output_position < old(output).len()) ==> (r == Err::<
                (usize, usize),
                DecompressionError,
            >(DecompressionError::TruncatedInput) || final(self).is_finished() || (r matches Ok(
                progress,
            ) && progress.1 > 0)),
            match r {
                Ok(progress) => {
                    &&& progress.0 <= input@.len()
                    &&& final(self).consumed() == old(self).consumed() + input@.subrange(
                        0,
                        progress.0 as int,
                    )
                    &&& output_position + progress.1 <= old(output).len()
                    &&& final(self).emitted() == old(self).emitted() + final(output)@.subrange(
                        output_position as int,
                        output_position + progress.1,
                    )
                    &&& forall|i: int|
                        0 <= i < output_position + progress.1 ==> final(output)@[i]
                            == final(self).emitted()[final(self).emitted().len()
                            - (output_position + progress.1) + i]
                    &&& !final(self).has_failed()
                    &&& (old(self).is_finished() ==> progress.0 == 0 && progress.1 == 0
                        && *final(self) == *old(self))
                    &&& (!final(self).is_finished() && progress.0 == 0 && progress.1 == 0 ==> ((
                    input@.len() == 0 && !end_of_input) || output_position == old(output).len()))
                },
                Err(e) => {
                    &&& final(self).has_failed()
                    &&& old(self).emitted().is_prefix_of(final(self).emitted())
                    &&& final(self).consumed().is_prefix_of(old(self).consumed() + input@)
                    &&& (e is ChecksumMismatch ==> old(self).checksum_enabled()
                        && final(self).consumed().len() >= 4)
                    &&& (e is TruncatedInput ==> end_of_input)
                    &&& (!(e is TruncatedInput) ==> final(self).consumed().len() >= 1)
                    &&& (e is InvalidDistance ==> final(self).emitted().len()
                        < final(self).refused_distance() <= 32768)
                    &&& (e is MalformedHeader ==> 0 <= final(self).refused_header_pos()
                        && final(self).refused_header_pos() + 3 <= bytes_bits(
                        final(self).consumed(),
                    ).len() && bytes_bits(final(self).consumed())[final(self).refused_header_pos()
                        + 1] && bytes_bits(final(self).consumed())[final(self).refused_header_pos()
                        + 2])
                },
            },
    {
        match self.phase {
            Phase::Done => {
                proof {
                    assert(output@.subrange(output_position as int, output_position as int)
                        =~= Seq::<u8>::empty());
                    assert(self.out.hist@ + Seq::<u8>::empty() =~= self.out.hist@);
                    assert(self.reader.taken@ + input@.subrange(0, 0) =~= self.reader.taken@);
                }
                return Ok((0, 0));
            },
            Phase::Failed => {
                proof {
                    assert(false);
                }
                return Err(DecompressionError::TruncatedInput);
            },
            _ => {},
        }
        let mut pos: usize = 0;
        let mut written: usize = 0;
        let ghost base = self.out.hist@;
        proof {
            assert(output@.subrange(output_position as int, output_position as int)
                =~= Seq::<u8>::empty());
            assert(self.out.hist@ + Seq::<u8>::empty() =~= self.out.hist@);
            assert(self.reader.taken@ + input@.subrange(0, 0) =~= self.reader.taken@);
        }
        loop
            invariant
                self.wf(),
                !(self.phase is Done),
                !(self.phase is Failed),
                !old(self).is_finished(),
                base == old(self).out.hist@,
                pos <= input@.len(),
                output_position + written <= output@.len(),
                output@.len() == old(output)@.len(),
                forall|i: int| 0 <= i < output_position ==> output@[i] == old(output)@[i],
                self.emit_inv(base, output@, output_position as int, written as int),
                self.out.verify == old(self).out.verify,
                self.reader.taken@ == old(self).reader.taken@ + input@.subrange(0, pos as int),
                (input@.len() == 0 && old(self).reader.nbits == 0) ==> self.reader.nbits == 0,
            decreases
                    input@.len() - pos,
                    self.reader.nbits,
                    output@.len() - output_position - written,
        {
            let ghost pos0 = pos;
            self.reader.refill(input, &mut pos);
            proof {
                assert(input@.subrange(0, pos0 as int) + input@.subrange(pos0 as int, pos as int)
                    =~= input@.subrange(0, pos as int));
                assert(old(self).reader.taken@ + (input@.subrange(0, pos0 as int)
                    + input@.subrange(pos0 as int, pos as int)) =~= (old(self).reader.taken@
                    + input@.subrange(0, pos0 as int)) + input@.subrange(pos0 as int, pos as int));
            }
            let outcome = match self.phase {
                Phase::BlockHeader => self.step_block_header(),
                Phase::StoredLen => self.step_stored_len(),
                Phase::StoredCopy => self.step_stored_copy(
                    output,
                    output_position,
                    &mut written,
                    Ghost(base),
                ),
                Phase::DynHeader => self.step_dyn_header(),
                Phase::DynClen => self.step_dyn_clen(),
                Phase::DynLens => self.step_dyn_lens(),
                Phase::SymbolLoop => self.step_symbol(
                    output,
                    output_position,
                    &mut written,
                    Ghost(base),
                ),
                Phase::DistSym => self.step_dist_sym(),
                Phase::BackRef => self.step_back_ref(
                    output,
                    output_position,
                    &mut written,
                    Ghost(base),
                ),
                Phase::Trailer => self.step_trailer(end_of_input),
                Phase::Done => {
                    proof {
                        assert(false);
                    }
                    Step::Finished
                },
                Phase::Failed => {
                    proof {
                        assert(false);
                    }
                    Step::NeedInput
                },
            };
            match outcome {
                Step::Again => {},
                Step::NeedInput => {
                    if end_of_input {
                        self.phase = Phase::Failed;
                        proof {
                            assert(self.out.hist@.subrange(0, base.len() as int) =~= base);
                            assert((old(self).reader.taken@ + input@).subrange(
                                0,
                                self.reader.taken@.len() as int,
                            ) =~= self.reader.taken@);
                        }
                        return Err(DecompressionError::TruncatedInput);
                    }
                    return Ok((pos, written));
                },
                Step::NeedOutput => {
                    return Ok((pos, written));
                },
                Step::Finished => {
                    return Ok((pos, written));
                },
                Step::Fail(e) => {
                    proof {
                        assert(self.out.hist@.subrange(0, base.len() as int) =~= base);
                        assert((old(self).reader.taken@ + input@).subrange(
                            0,
                            self.reader.taken@.len() as int,
                        ) =~= self.reader.taken@);
                    }
                    return Err(e);
                },
            }
        }
    }
}

} // verus!
