//! The bit-level cursor: an immutable position into an immutable bit
//! sequence, plus the two front ends that build a bit sequence from packed
//! bytes or from a text of '0' and '1' characters.

use crate::model::bits_value;
use crate::model::is_bit_seq;
use crate::model::spec_read;
use crate::packet::DecodeError;
use crate::packet::SpecError;
use vstd::arithmetic::power2::lemma2_to64;
use vstd::arithmetic::power2::lemma_pow2_adds;
use vstd::arithmetic::power2::lemma_pow2_strictly_increases;
use vstd::arithmetic::power2::pow2;
use vstd::prelude::*;

verus! {

/// An immutable position into an immutable sequence of bits (one bit per
/// element). Cursors are cheap values: every read returns a new cursor, and
/// a cursor never moves backward.
#[derive(Debug, Clone, Copy)]
pub struct BitCursor<'a> {
    bits: &'a [u8],
    pos: usize,
}

impl<'a> BitCursor<'a> {
    /// The backing bit sequence.
    pub closed spec fn stream(self) -> Seq<u8> {
        self.bits@
    }

    pub closed spec fn spec_position(&self) -> usize {
        self.pos
    }

    /// A cursor is well formed when it sits inside its stream and the
    /// stream holds one bit per element.
    pub open spec fn wf(self) -> bool {
        self.spec_position() <= self.stream().len() && is_bit_seq(self.stream())
    }

    /// A cursor at the start of the given bits.
    pub fn new(bits: &'a [u8]) -> (r: BitCursor<'a>)
        requires
            is_bit_seq(bits@),
        ensures
            r.wf(),
            r.stream() == bits@,
            r.position() == 0,
    {
        BitCursor { bits, pos: 0 }
    }

    /// The number of bits consumed so far.
    #[verifier::when_used_as_spec(spec_position)]
    pub fn position(&self) -> (r: usize)
        ensures
            r == self.spec_position(),
    {
        self.pos
    }

    /// How many bits can still be read.
    pub fn bits_remaining(&self) -> (r: usize)
        requires
            self.wf(),
        ensures
            r == self.stream().len() - self.position(),
    {
        self.bits.len() - self.pos
    }

    /// Reads `n` bits, most significant first, returning the advanced
    /// cursor and the value; fails when fewer than `n` bits are left.
    #[verifier::loop_isolation(false)]
    pub fn read_bits(&self, n: usize) -> (r: Result<(BitCursor<'a>, u16), DecodeError>)
        requires
            self.wf(),
            n <= 16,
        ensures
            (match r {
                Ok(ok) => ok.0.wf() && ok.0.stream() == self.stream() && spec_read(
                    self.stream(),
                    self.position() as nat,
                    n as nat,
                ) == Ok::<(nat, nat), SpecError>((ok.0.position() as nat, ok.1 as nat)),
                Err(e) => spec_read(self.stream(), self.position() as nat, n as nat) == Err::<
                    (nat, nat),
                    SpecError,
                >(e@),
            }),
    {
        let remaining = self.bits.len() - self.pos;
        if n > remaining {
            return Err(
                DecodeError::InsufficientBits {
                    requested: n,
                    available: remaining,
                    offset: self.pos,
                },
            );
        }
        let mut acc: u16 = 0;
        let mut j: usize = 0;
        proof {
            lemma2_to64();
            assert(self.stream().subrange(self.pos as int, self.pos as int) =~= Seq::empty());
        }
        while j < n
            invariant
                j <= n,
                acc == bits_value(self.stream().subrange(self.pos as int, (self.pos + j) as int)),
                acc < pow2(j as nat),
            decreases n - j,
        {
            proof {
                lemma2_to64();
                lemma_pow2_adds(j as nat, 1);
                if (j as nat) < 15 {
                    lemma_pow2_strictly_increases(j as nat, 15);
                }
            }
            let bit = self.bits[self.pos + j];
            proof {
                let s = self.stream().subrange(self.pos as int, (self.pos + j + 1) as int);
                assert(s.drop_last() =~= self.stream().subrange(
                    self.pos as int,
                    (self.pos + j) as int,
                ));
            }
            acc = 2 * acc + (bit as u16);
            j = j + 1;
        }
        Ok((BitCursor { bits: self.bits, pos: self.pos + n }, acc))
    }
}

/// The bit a packed byte holds at column `k`, counted from the most
/// significant bit.
pub open spec fn spec_byte_bit(byte: u8, k: int) -> u8 {
    (byte >> (7 - k) as u8) & 1
}

/// Unpacks bytes into bits, most significant bit of each byte first: the
/// form an input stream takes when it arrives as packed bytes.
#[verifier::loop_isolation(false)]
pub fn bits_from_bytes(bytes: &[u8]) -> (r: Vec<u8>)
    ensures
        r@.len() == 8 * bytes@.len(),
        is_bit_seq(r@),
        forall|i: int| 0 <= i < r@.len() ==> r@[i] == spec_byte_bit(bytes@[i / 8], i % 8),
{
    let mut out: Vec<u8> = Vec::new();
    let mut b: usize = 0;
    while b < bytes.len()
        invariant
            b <= bytes.len(),
            out@.len() == 8 * b,
            forall|i: int| 0 <= i < out@.len() ==> out@[i] == spec_byte_bit(bytes@[i / 8], i % 8),
            forall|i: int| 0 <= i < out@.len() ==> out@[i] <= 1,
        decreases bytes.len() - b,
    {
        let byte = bytes[b];
        let mut k: usize = 0;
        while k < 8
            invariant
                k <= 8,
                byte == bytes@[b as int],
                b < bytes.len(),
                out@.len() == 8 * b + k,
                forall|i: int|
                    0 <= i < out@.len() ==> out@[i] == spec_byte_bit(bytes@[i / 8], i % 8),
                forall|i: int| 0 <= i < out@.len() ==> out@[i] <= 1,
            decreases 8 - k,
        {
            let bit = (byte >> (7 - k) as u8) & 1;
            proof {
                assert((byte >> (7 - k) as u8) & 1 <= 1) by (bit_vector);
            }
            out.push(bit);
            k = k + 1;
        }
        b = b + 1;
    }
    out
}

/// Reads a text of '0' and '1' characters (given as bytes) as a bit
/// sequence, one bit per character; any other character makes the whole
/// text invalid.
#[verifier::loop_isolation(false)]
pub fn bits_from_ascii(text: &[u8]) -> (r: Option<Vec<u8>>)
    ensures
        (match r {
            Some(v) => v@.len() == text@.len() && is_bit_seq(v@) && forall|i: int|
                0 <= i < v@.len() ==> v@[i] == text@[i] - 0x30,
            None => exists|i: int| 0 <= i < text@.len() && !(text@[i] == 0x30 || text@[i] == 0x31),
        }),
        r is Some <==> forall|i: int|
            0 <= i < text@.len() ==> text@[i] == 0x30 || text@[i] == 0x31,
{
    let mut out: Vec<u8> = Vec::new();
    let mut i: usize = 0;
    while i < text.len()
        invariant
            i <= text.len(),
            out@.len() == i,
            forall|j: int| 0 <= j < i ==> text@[j] == 0x30 || text@[j] == 0x31,
            forall|j: int| 0 <= j < i ==> out@[j] == text@[j] - 0x30,
            forall|j: int| 0 <= j < i ==> out@[j] <= 1,
        decreases text.len() - i,
    {
        let c = text[i];
        if c == 0x30 {
            out.push(0);
        } else if c == 0x31 {
            out.push(1);
        } else {
            return None;
        }
        i = i + 1;
    }
    Some(out)
}

} // verus!
