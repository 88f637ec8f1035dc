//! Canonical Huffman decode tables.
//!
//! A table is built from an array of per-symbol code lengths (0 meaning the
//! symbol is unused), as the format's canonical-code convention prescribes:
//! codes are assigned in order of increasing length, then increasing symbol
//! value. A primary lookup table maps a fixed-width prefix of upcoming bits
//! directly to a (symbol, length) pair; codes longer than the prefix width
//! fall back to a secondary structure (per-length counts plus the symbols in
//! canonical order) that resolves them bit by bit.
//!
//! Construction rejects exactly the length assignments that do not form a
//! complete prefix code, except the degenerate at-most-one-symbol case that
//! the format permits for near-empty alphabets.

use vstd::prelude::*;

verus! {

/// Kraft weight of one code length: 2^(15 - len) for the lengths the format
/// allows (1 through 15), and 0 for an unused symbol.
pub open spec fn kraft_weight(l: u8) -> int {
    if l == 1 {
        16384
    } else if l == 2 {
        8192
    } else if l == 3 {
        4096
    } else if l == 4 {
        2048
    } else if l == 5 {
        1024
    } else if l == 6 {
        512
    } else if l == 7 {
        256
    } else if l == 8 {
        128
    } else if l == 9 {
        64
    } else if l == 10 {
        32
    } else if l == 11 {
        16
    } else if l == 12 {
        8
    } else if l == 13 {
        4
    } else if l == 14 {
        2
    } else if l == 15 {
        1
    } else {
        0
    }
}

/// Sum of the Kraft weights of a code-length assignment. A complete prefix
/// code sums to exactly 2^15 = 32768; a larger sum is over-subscribed and a
/// smaller one under-subscribed.
pub open spec fn kraft_sum(s: Seq<u8>) -> int
    decreases s.len(),
{
    if s.len() == 0 {
        0
    } else {
        kraft_sum(s.drop_last()) + kraft_weight(s.last())
    }
}

/// How many symbols of the assignment are coded at all (length non-zero).
pub open spec fn coded_count(s: Seq<u8>) -> int
    decreases s.len(),
{
    if s.len() == 0 {
        0
    } else {
        coded_count(s.drop_last()) + if s.last() == 0 {
            0int
        } else {
            1int
        }
    }
}

/// A code-length assignment is valid when it describes an exactly complete
/// prefix code, or when at most one symbol is coded at all (the degenerate
/// case the format permits for near-empty alphabets).
pub open spec fn lengths_valid(s: Seq<u8>) -> bool {
    kraft_sum(s) == 32768 || (coded_count(s) <= 1 && kraft_sum(s) < 32768)
}

/// How many symbols of the assignment have code length `l`.
pub open spec fn count_of_length(s: Seq<u8>, l: int) -> int
    decreases s.len(),
{
    if s.len() == 0 {
        0
    } else {
        count_of_length(s.drop_last(), l) + if s.last() == l {
            1int
        } else {
            0int
        }
    }
}

/// How many symbols of the assignment have a code length below `l`
/// (and above zero).
pub open spec fn counts_below(s: Seq<u8>, l: int) -> int
    decreases l,
{
    if l <= 1 {
        0
    } else {
        counts_below(s, l - 1) + count_of_length(s, l - 1)
    }
}

/// Dropping the last element removes its one contribution from the
/// by-length counts below `l`.
proof fn lemma_counts_below_drop(s: Seq<u8>, l: int)
    requires
        s.len() > 0,
    ensures
        counts_below(s, l) == counts_below(s.drop_last(), l) + if 1 <= s.last() < l {
            1int
        } else {
            0int
        },
    decreases l,
{
    if l > 1 {
        lemma_counts_below_drop(s, l - 1);
    }
}

/// The empty assignment has no coded symbols at any length.
proof fn lemma_counts_below_empty(l: int)
    ensures
        counts_below(Seq::<u8>::empty(), l) == 0,
    decreases l,
{
    if l > 1 {
        lemma_counts_below_empty(l - 1);
    }
}

/// The coded symbols are exactly those whose length lies in 1..=15.
proof fn lemma_coded_counts_below(s: Seq<u8>)
    requires
        forall|j: int| 0 <= j < s.len() ==> s[j] <= 15,
    ensures
        coded_count(s) == counts_below(s, 16),
    decreases s.len(),
{
    if s.len() == 0 {
        assert(s =~= Seq::<u8>::empty());
        lemma_counts_below_empty(16);
    } else {
        assert(s.last() == s[s.len() - 1]);
        assert(s.last() <= 15);
        assert forall|j: int| 0 <= j < s.drop_last().len() implies s.drop_last()[j] <= 15 by {
            assert(s.drop_last()[j] == s[j]);
        }
        lemma_coded_counts_below(s.drop_last());
        lemma_counts_below_drop(s, 16);
    }
}

/// The number of primary-table slots for a prefix width: 2^bits.
pub open spec fn table_size_of(bits: int) -> int {
    if bits == 1 {
        2
    } else if bits == 2 {
        4
    } else if bits == 3 {
        8
    } else if bits == 4 {
        16
    } else if bits == 5 {
        32
    } else if bits == 6 {
        64
    } else if bits == 7 {
        128
    } else if bits == 8 {
        256
    } else if bits == 9 {
        512
    } else if bits == 10 {
        1024
    } else if bits == 11 {
        2048
    } else if bits == 12 {
        4096
    } else if bits == 13 {
        8192
    } else if bits == 14 {
        16384
    } else if bits == 15 {
        32768
    } else {
        2
    }
}

/// Bitwise AND cannot exceed the mask.
pub proof fn lemma_u64_and_le(x: u64, m: u64)
    ensures
        (x & m) <= m,
{
    assert((x & m) <= m) by (bit_vector);
}

/// Bitwise AND cannot exceed the mask.
pub proof fn lemma_u16_and_le(x: u16, m: u16)
    ensures
        (x & m) <= m,
{
    assert((x & m) <= m) by (bit_vector);
}

/// Kraft weight of one code length, as executable code.
fn kraft_weight_exec(l: u8) -> (r: u32)
    ensures
        r == kraft_weight(l),
        r <= 16384,
{
    match l {
        1 => 16384,
        2 => 8192,
        3 => 4096,
        4 => 2048,
        5 => 1024,
        6 => 512,
        7 => 256,
        8 => 128,
        9 => 64,
        10 => 32,
        11 => 16,
        12 => 8,
        13 => 4,
        14 => 2,
        15 => 1,
        _ => 0,
    }
}

/// 2^bits, for the prefix widths and code lengths the format allows.
fn power_of_two(bits: usize) -> (r: usize)
    requires
        1 <= bits <= 15,
    ensures
        2 <= r <= 32768,
        r == table_size_of(bits as int),
{
    match bits {
        1 => 2,
        2 => 4,
        3 => 8,
        4 => 16,
        5 => 32,
        6 => 64,
        7 => 128,
        8 => 256,
        9 => 512,
        10 => 1024,
        11 => 2048,
        12 => 4096,
        13 => 8192,
        14 => 16384,
        15 => 32768,
        _ => 2,
    }
}

/// Entry marking a primary-table slot whose code is longer than the prefix
/// width and must be resolved through the secondary structure.
pub const LONG_CODE: u16 = 0xFFFF;

/// The outcome of looking one symbol up in a decode table.
pub enum Decoded {
    /// A symbol was decoded; `len` is the number of bits its code consumes.
    Sym { sym: u16, len: usize },
    /// The available bits do not suffice to resolve a symbol.
    Need,
    /// The available bits form a code with no assigned symbol.
    Bad,
}

/// A decode table for one alphabet: a primary table indexed by the next
/// `prefix_bits` bits of input (each entry packing symbol << 4 | length, 0
/// for an unused slot, or `LONG_CODE`), and per-length counts plus the
/// symbols in canonical order for the secondary lookup.
pub struct HuffmanTable {
    prefix_bits: usize,
    primary: Vec<u16>,
    counts: Vec<u16>,
    symbols: Vec<u16>,
}

impl HuffmanTable {
    /// The shape a decode lookup relies on.
    pub closed spec fn wf(&self) -> bool {
        &&& 1 <= self.prefix_bits <= 15
        &&& self.primary.len() >= 1
        &&& self.counts.len() == 16
    }

    /// The prefix width this table was built with.
    pub closed spec fn spec_prefix_bits(&self) -> int {
        self.prefix_bits as int
    }

    /// The number of primary-table slots.
    pub closed spec fn primary_len(&self) -> int {
        self.primary.len() as int
    }

    /// How many codes of length `l` the secondary lookup structure records.
    pub closed spec fn count_at(&self, l: int) -> int {
        self.counts@[l] as int
    }

    /// How many symbols the secondary lookup structure lists.
    pub closed spec fn symbols_len(&self) -> int {
        self.symbols.len() as int
    }

    /// The `k`-th symbol the secondary lookup structure lists.
    pub closed spec fn symbol_at(&self, k: int) -> int {
        self.symbols@[k] as int
    }

    /// A table with no codes at all: every primary slot unused and no
    /// symbol listed.
    pub closed spec fn decodes_nothing(&self) -> bool {
        &&& self.symbols.len() == 0
        &&& forall|i: int| 0 <= i < self.primary.len() ==> self.primary@[i] == 0
    }

    /// An empty placeholder table: well-formed, and provably decodes
    /// nothing — every lookup on it yields `Need` or `Bad`.
    pub fn trivial() -> (r: Self)
        ensures
            r.wf(),
            r.decodes_nothing(),
    {
        let mut primary: Vec<u16> = Vec::new();
        primary.push(0);
        primary.push(0);
        let mut counts: Vec<u16> = Vec::new();
        let mut k: usize = 0;
        while k < 16
            invariant
                counts.len() == k,
                k <= 16,
            decreases 16 - k,
        {
            counts.push(0);
            k += 1;
        }
        HuffmanTable { prefix_bits: 1, primary, counts, symbols: Vec::new() }
    }

    /// Build the decode table for the code lengths
    /// `lengths[start .. start + n]`, with a primary table of
    /// 2^`prefix_bits` entries. Returns `None` exactly when the lengths do
    /// not form a valid assignment; a returned table records exactly the
    /// given per-length code counts and lists exactly the coded symbols.
    #[verifier::rlimit(30)]
    pub fn build(lengths: &Vec<u8>, start: usize, n: usize, prefix_bits: usize) -> (r: Option<
        Self,
    >)
        requires
            start + n <= lengths.len(),
            n <= 320,
            1 <= prefix_bits <= 15,
            forall|j: int| start <= j < start + n ==> lengths@[j] <= 15,
        ensures
            r is Some <==> lengths_valid(lengths@.subrange(start as int, (start + n) as int)),
            (r matches Some(t) ==> {
                &&& t.wf()
                &&& t.spec_prefix_bits() == prefix_bits
                &&& t.primary_len() == table_size_of(prefix_bits as int)
                &&& forall|l: int|
                    1 <= l < 16 ==> t.count_at(l) == count_of_length(
                        lengths@.subrange(start as int, (start + n) as int),
                        l,
                    )
                &&& t.symbols_len() == coded_count(
                    lengths@.subrange(start as int, (start + n) as int),
                )
                &&& forall|k: int|
                    0 <= k < t.symbols_len() ==> 0 <= #[trigger] t.symbol_at(k) < n
                        && lengths@.subrange(start as int, (start + n) as int)[t.symbol_at(k)]
                        != 0
            }),
    {
        let ghost s = lengths@.subrange(start as int, (start + n) as int);
        let mut counts: Vec<u16> = Vec::new();
        let mut k: usize = 0;
        while k < 16
            invariant
                counts.len() == k,
                k <= 16,
                forall|j: int| 0 <= j < k ==> counts@[j] == 0,
            decreases 16 - k,
        {
            counts.push(0);
            k += 1;
        }

        // First pass: count codes per length, the coded symbols, and the
        // Kraft sum of the assignment.
        let mut total: u32 = 0;
        let mut coded: u32 = 0;
        let mut i: usize = 0;
        while i < n
            invariant
                i <= n,
                n <= 320,
                start + n <= lengths.len(),
                counts.len() == 16,
                s == lengths@.subrange(start as int, (start + n) as int),
                forall|j: int| start <= j < start + n ==> lengths@[j] <= 15,
                total == kraft_sum(s.take(i as int)),
                coded == coded_count(s.take(i as int)),
                total <= 16384 * i,
                coded <= i,
                forall|l: int| 0 <= l < 16 ==> counts@[l] <= i,
                forall|l: int| 1 <= l < 16 ==> counts@[l] as int == count_of_length(
                    s.take(i as int),
                    l,
                ),
            decreases n - i,
        {
            let l = lengths[start + i];
            proof {
                assert(s.take(0) =~= Seq::<u8>::empty());
                assert(s.take(i + 1).drop_last() =~= s.take(i as int));
                assert(s.take(i + 1).last() == lengths@[start + i]);
            }
            if l > 0 {
                let w = kraft_weight_exec(l);
                total = total + w;
                coded = coded + 1;
                let cl = counts[l as usize];
                counts[l as usize] = cl + 1;
            }
            i += 1;
        }
        proof {
            assert(s.take(n as int) =~= s);
        }

        if !(total == 32768 || (coded <= 1 && total < 32768)) {
            return None;
        }

        // Second pass: assign canonical codes in order of increasing length,
        // then increasing symbol, and fill the tables.
        let table_len = power_of_two(prefix_bits);
        let mut primary: Vec<u16> = Vec::new();
        let mut k2: usize = 0;
        while k2 < table_len
            invariant
                primary.len() == k2,
                k2 <= table_len,
            decreases table_len - k2,
        {
            primary.push(0);
            k2 += 1;
        }
        let mut symbols: Vec<u16> = Vec::new();

        // Canonical codes fit in 15 bits for any valid length assignment, so
        // the wrapping bookkeeping below never actually wraps; it merely
        // keeps the arithmetic total.
        let mut code: u64 = 0;
        let mut l: usize = 1;
        while l <= 15
            invariant
                1 <= l <= 16,
                n <= 320,
                start + n <= lengths.len(),
                s == lengths@.subrange(start as int, (start + n) as int),
                forall|j: int| start <= j < start + n ==> lengths@[j] <= 15,
                primary.len() == table_len,
                2 <= table_len <= 32768,
                counts.len() == 16,
                1 <= prefix_bits <= 15,
                symbols.len() as int == counts_below(s, l as int),
                forall|k: int|
                    0 <= k < symbols.len() ==> (#[trigger] symbols@[k]) < n && s[symbols@[k]
                        as int] != 0,
            decreases 16 - l,
        {
            let mut sym: usize = 0;
            while sym < n
                invariant
                    sym <= n,
                    n <= 320,
                    start + n <= lengths.len(),
                    s == lengths@.subrange(start as int, (start + n) as int),
                    forall|j: int| start <= j < start + n ==> lengths@[j] <= 15,
                    primary.len() == table_len,
                    2 <= table_len <= 32768,
                    counts.len() == 16,
                    1 <= l <= 15,
                    1 <= prefix_bits <= 15,
                    symbols.len() as int == counts_below(s, l as int) + count_of_length(
                        s.take(sym as int),
                        l as int,
                    ),
                    forall|k: int|
                        0 <= k < symbols.len() ==> (#[trigger] symbols@[k]) < n && s[symbols@[k]
                            as int] != 0,
                decreases n - sym,
            {
                proof {
                    assert(s.take(sym + 1).drop_last() =~= s.take(sym as int));
                    assert(s.take(sym + 1).last() == lengths@[start + sym]);
                }
                if lengths[start + sym] as usize == l {
                    // Reverse the code's bits: Huffman codes appear in the
                    // stream most-significant-bit first, while the table is
                    // indexed by bits in stream (least-significant) order.
                    let mut rev: u64 = 0;
                    let mut j: usize = 0;
                    while j < l
                        invariant
                            j <= l,
                            l <= 15,
                        decreases l - j,
                    {
                        rev = (rev << 1) | ((code >> j) & 1);
                        j += 1;
                    }
                    let slot = (rev % (table_len as u64)) as usize;
                    if l <= prefix_bits {
                        let entry = ((sym as u16) << 4) | (l as u16);
                        let step = power_of_two(l);
                        let mut idx = slot;
                        while idx < table_len
                            invariant
                                primary.len() == table_len,
                                2 <= step <= 32768,
                                table_len <= 32768,
                            decreases (if idx < table_len { (table_len - idx) as int } else { 0int }),
                        {
                            primary[idx] = entry;
                            idx += step;
                        }
                    } else {
                        primary[slot] = LONG_CODE;
                    }
                    symbols.push(sym as u16);
                    code = code.wrapping_add(1);
                }
                sym += 1;
            }
            proof {
                assert(s.take(n as int) =~= s);
            }
            code = code << 1;
            l += 1;
        }
        proof {
            lemma_coded_counts_below(s);
        }

        Some(HuffmanTable { prefix_bits, primary, counts, symbols })
    }

    /// Look up one symbol in the low bits of `buffer`, of which `nbits` are
    /// meaningful. Nothing is consumed: the caller drops `len` bits from its
    /// reader once a symbol is returned.
    pub fn decode(&self, buffer: u64, nbits: usize) -> (r: Decoded)
        requires
            self.wf(),
        ensures
            (r matches Decoded::Sym { sym, len } ==> 1 <= len <= 15 && len <= nbits),
            (r is Need ==> nbits < 15),
            (r is Bad ==> nbits >= 1),
            (nbits == 0 ==> r is Need),
            (self.decodes_nothing() ==> !(r is Sym)),
    {
        let mask = (self.primary.len() - 1) as u64;
        proof {
            lemma_u64_and_le(buffer, mask);
        }
        let idx = (buffer & mask) as usize;
        let entry = self.primary[idx];
        if entry != LONG_CODE {
            proof {
                lemma_u16_and_le(entry, 0xF);
                assert((0u16 & 0xF) == 0) by (bit_vector);
            }
            let len = (entry & 0xF) as usize;
            if len == 0 {
                // An unused slot: a code with no symbol, but only trustworthy
                // once the whole prefix was really available.
                if nbits >= self.prefix_bits {
                    Decoded::Bad
                } else {
                    Decoded::Need
                }
            } else if len <= nbits {
                Decoded::Sym { sym: entry >> 4, len }
            } else {
                Decoded::Need
            }
        } else {
            self.decode_slow(buffer, nbits)
        }
    }

    /// Resolve a code longer than the prefix width bit by bit against the
    /// canonical code space described by the per-length counts.
    fn decode_slow(&self, buffer: u64, nbits: usize) -> (r: Decoded)
        requires
            self.wf(),
        ensures
            (r matches Decoded::Sym { sym, len } ==> 1 <= len <= 15 && len <= nbits),
            (r is Need ==> nbits < 15),
            (r is Bad ==> nbits >= 1),
            (nbits == 0 ==> r is Need),
            (self.decodes_nothing() ==> !(r is Sym)),
    {
        let mut code: u64 = 0;
        let mut first: u64 = 0;
        let mut index: usize = 0;
        let mut l: usize = 1;
        while l <= 15
            invariant
                self.wf(),
                1 <= l <= 16,
                index <= 15 * 65535,
                index <= (l - 1) * 65535,
            decreases 16 - l,
        {
            let bit = (buffer >> ((l - 1) as u64)) & 1;
            code = (code << 1) | bit;
            let count = self.counts[l] as u64;
            if code >= first {
                let off = code - first;
                if off < count {
                    // The code resolves at this length.
                    if l <= nbits {
                        let sidx = index + (off as usize);
                        if sidx < self.symbols.len() {
                            return Decoded::Sym { sym: self.symbols[sidx], len: l };
                        } else {
                            return Decoded::Bad;
                        }
                    } else {
                        return Decoded::Need;
                    }
                }
            }
            index = index + (count as usize);
            first = first.wrapping_add(count) << 1;
            l += 1;
        }
        if nbits >= 15 {
            Decoded::Bad
        } else {
            Decoded::Need
        }
    }
}

} // verus!
