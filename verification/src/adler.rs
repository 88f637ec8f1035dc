//! The Adler-32 checksum accumulator.
//!
//! The decode engine optionally folds every emitted output byte into a
//! running Adler-32 checksum and compares it against the stream's trailer.
//! The accumulator here carries an exact specification: its state always
//! equals the mathematical fold of the bytes pushed into it.

use vstd::prelude::*;

verus! {

/// The modulus of the Adler-32 checksum.
pub const ADLER_MODULUS: u32 = 65521;

/// One byte folded into the running pair of sums.
pub open spec fn adler_step(s1: int, s2: int, b: u8) -> (int, int) {
    ((s1 + b) % 65521, (s2 + (s1 + b) % 65521) % 65521)
}

/// A whole byte sequence folded, front to back, into the running pair of sums.
pub open spec fn adler_fold(s1: int, s2: int, data: Seq<u8>) -> (int, int)
    decreases data.len(),
{
    if data.len() == 0 {
        (s1, s2)
    } else {
        let next = adler_step(s1, s2, data[0]);
        adler_fold(next.0, next.1, data.drop_first())
    }
}

/// The Adler-32 value of a byte sequence: the two sums, started at (1, 0),
/// packed as the high and low 16-bit halves of one 32-bit word.
pub open spec fn adler32_of(data: Seq<u8>) -> int {
    adler_fold(1, 0, data).1 * 65536 + adler_fold(1, 0, data).0
}

/// Folding one more byte at the back equals taking one step from the fold of
/// the front part.
pub proof fn lemma_adler_fold_push(s1: int, s2: int, data: Seq<u8>, b: u8)
    ensures
        adler_fold(s1, s2, data.push(b)) == ({
            let st = adler_fold(s1, s2, data);
            adler_step(st.0, st.1, b)
        }),
    decreases data.len(),
{
    if data.len() == 0 {
        let st = adler_step(s1, s2, b);
        assert(data.push(b)[0] == b);
        assert(data.push(b).drop_first() =~= Seq::<u8>::empty());
        assert(adler_fold(st.0, st.1, Seq::<u8>::empty()) == st);
        assert(adler_fold(s1, s2, data) == (s1, s2));
    } else {
        let st = adler_step(s1, s2, data[0]);
        assert(data.push(b)[0] == data[0]);
        assert(data.push(b).drop_first() =~= data.drop_first().push(b));
        lemma_adler_fold_push(st.0, st.1, data.drop_first(), b);
    }
}

/// Law: the checksum of a stream does not depend on how the stream is
/// chunked — folding a concatenation equals folding the two parts in order.
pub proof fn lemma_adler_fold_concat(s1: int, s2: int, a: Seq<u8>, b: Seq<u8>)
    ensures
        adler_fold(s1, s2, a + b) == ({
            let st = adler_fold(s1, s2, a);
            adler_fold(st.0, st.1, b)
        }),
    decreases a.len(),
{
    if a.len() == 0 {
        assert(a + b =~= b);
    } else {
        assert((a + b)[0] == a[0]);
        assert((a + b).drop_first() =~= a.drop_first() + b);
        let st = adler_step(s1, s2, a[0]);
        lemma_adler_fold_concat(st.0, st.1, a.drop_first(), b);
    }
}

/// The running checksum state: the two Adler-32 sums, each kept reduced.
pub struct Adler32 {
    s1: u32,
    s2: u32,
}

impl Adler32 {
    /// Both sums are reduced modulo the checksum modulus.
    pub closed spec fn wf(&self) -> bool {
        self.s1 < ADLER_MODULUS && self.s2 < ADLER_MODULUS
    }

    /// The accumulator holds exactly the fold of `data` from the initial sums.
    pub closed spec fn models(&self, data: Seq<u8>) -> bool {
        (self.s1 as int, self.s2 as int) == adler_fold(1, 0, data)
    }

    pub fn new() -> (r: Self)
        ensures
            r.wf(),
            r.models(Seq::<u8>::empty()),
    {
        Adler32 { s1: 1, s2: 0 }
    }

    /// Fold one emitted byte into the running checksum.
    pub fn push(&mut self, b: u8, Ghost(data): Ghost<Seq<u8>>)
        requires
            old(self).wf(),
            old(self).models(data),
        ensures
            final(self).wf(),
            final(self).models(data.push(b)),
    {
        proof {
            lemma_adler_fold_push(1, 0, data, b);
        }
        self.s1 = (self.s1 + b as u32) % ADLER_MODULUS;
        self.s2 = (self.s2 + self.s1) % ADLER_MODULUS;
    }

    /// The packed checksum value, for comparison against a stream trailer.
    pub fn value(&self) -> (r: u32)
        requires
            self.wf(),
        ensures
            forall|data: Seq<u8>| self.models(data) ==> r == adler32_of(data),
    {
        self.s2 * 65536 + self.s1
    }
}

} // verus!
