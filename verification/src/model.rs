//! The mathematical model of the BITS grammar: what each decoding routine
//! returns, stated over a ghost sequence of bits. The executable decoder's
//! contracts say that it computes exactly these functions.

use crate::packet::Header;
use crate::packet::Operation;
use crate::packet::SpecError;
use crate::packet::SpecPacket;
use crate::packet::spec_operation_of;
use vstd::arithmetic::power2::lemma2_to64;
use vstd::arithmetic::power2::lemma_pow2_adds;
use vstd::arithmetic::power2::pow2;
use vstd::prelude::*;

verus! {

/// The big-endian value of a bit sequence: the first bit read is the most
/// significant, the last bit is the units digit.
pub open spec fn bits_value(s: Seq<u8>) -> nat
    decreases s.len(),
{
    if s.len() == 0 {
        0
    } else {
        bits_value(s.drop_last()) * 2 + (s.last() as nat)
    }
}

/// Every element of the sequence is a single bit, 0 or 1.
pub open spec fn is_bit_seq(s: Seq<u8>) -> bool {
    forall|i: int| 0 <= i < s.len() ==> s[i] <= 1
}

/// Reading `n` bits at `pos`: the advanced position and the value read, or
/// the insufficient-bits error raised at `pos`.
pub open spec fn spec_read(bits: Seq<u8>, pos: nat, n: nat) -> Result<(nat, nat), SpecError> {
    if pos + n <= bits.len() {
        Ok((pos + n, bits_value(bits.subrange(pos as int, (pos + n) as int))))
    } else {
        Err(SpecError::InsufficientBits {
            requested: n,
            available: if pos <= bits.len() { (bits.len() - pos) as nat } else { 0 },
            offset: pos,
        })
    }
}

/// A packet header: 3 bits of version, then 3 bits of type tag.
pub open spec fn spec_parse_header(bits: Seq<u8>, pos: nat) -> Result<(nat, Header), SpecError> {
    match spec_read(bits, pos, 3) {
        Err(e) => Err(e),
        Ok((p1, version)) => match spec_read(bits, p1, 3) {
            Err(e) => Err(e),
            Ok((p2, type_id)) => Ok(
                (p2, Header { version: version as u8, type_id: type_id as u8 }),
            ),
        },
    }
}

/// The 4-bit groups of a literal body, in stream order: each group is led by
/// a continuation bit, and the group whose continuation bit is 0 is the last.
pub open spec fn spec_literal_groups(bits: Seq<u8>, pos: nat) -> Result<
    (nat, Seq<nat>),
    SpecError,
>
    decreases bits.len() - pos,
{
    match spec_read(bits, pos, 1) {
        Err(e) => Err(e),
        Ok((p1, cont)) => match spec_read(bits, p1, 4) {
            Err(e) => Err(e),
            Ok((p2, group)) => {
                if cont == 0 {
                    Ok((p2, seq![group]))
                } else {
                    match spec_literal_groups(bits, p2) {
                        Err(e) => Err(e),
                        Ok((p3, rest)) => Ok((p3, seq![group] + rest)),
                    }
                }
            },
        },
    }
}

/// The base-16 number whose digits are the groups, most significant first.
pub open spec fn groups_value(groups: Seq<nat>) -> nat
    decreases groups.len(),
{
    if groups.len() == 0 {
        0
    } else {
        groups_value(groups.drop_last()) * 16 + groups.last()
    }
}

/// A literal body: its value is the base-16 number formed by its groups,
/// wrapped to 64 bits. The format puts no cap on the number of groups, so a
/// pathological input can exceed 64 bits; the decoder keeps the value modulo
/// 2^64.
pub open spec fn spec_parse_literal(bits: Seq<u8>, pos: nat) -> Result<(nat, u64), SpecError> {
    match spec_literal_groups(bits, pos) {
        Err(e) => Err(e),
        Ok((p2, groups)) => Ok((p2, (groups_value(groups) % 0x1_0000_0000_0000_0000) as u64)),
    }
}

/// A whole packet: a header, then a literal body for tag 4, else an
/// operator body.
pub open spec fn spec_parse_packet(bits: Seq<u8>, pos: nat) -> Result<(nat, SpecPacket), SpecError>
    decreases bits.len() - pos, 0nat,
{
    match spec_parse_header(bits, pos) {
        Err(e) => Err(e),
        Ok((p1, h)) => {
            if h.type_id == 4 {
                match spec_parse_literal(bits, p1) {
                    Err(e) => Err(e),
                    Ok((p2, value)) => Ok(
                        (p2, SpecPacket::Literal { version: h.version, value }),
                    ),
                }
            } else {
                match spec_parse_operator(bits, p1, h.type_id) {
                    Err(e) => Err(e),
                    Ok((p2, sub)) => Ok(
                        (
                            p2,
                            SpecPacket::Operator {
                                version: h.version,
                                type_id: sub.1,
                                subpackets: sub.0,
                            },
                        ),
                    ),
                }
            }
        },
    }
}

/// An operator body, starting right after the header: a 1-bit framing mode,
/// then either a 15-bit total length of the children's encodings or an
/// 11-bit child count, then the children; last, the tag is mapped to its
/// operation, so a tag with no entry in the table degrades to a named error.
pub open spec fn spec_parse_operator(bits: Seq<u8>, pos: nat, type_tag: u8) -> Result<
    (nat, (Seq<SpecPacket>, Operation)),
    SpecError,
>
    decreases bits.len() - pos, 1nat,
{
    match spec_read(bits, pos, 1) {
        Err(e) => Err(e),
        Ok((p1, mode)) => {
            let sub = if mode == 0 {
                match spec_read(bits, p1, 15) {
                    Err(e) => Err(e),
                    Ok((p2, total)) => spec_parse_until(bits, p2, p2, total),
                }
            } else {
                match spec_read(bits, p1, 11) {
                    Err(e) => Err(e),
                    Ok((p2, count)) => spec_parse_children(bits, p2, count),
                }
            };
            match sub {
                Err(e) => Err(e),
                Ok((p3, children)) => match spec_operation_of(type_tag) {
                    Some(op) => Ok((p3, (children, op))),
                    None => Err(SpecError::InvalidTypeTag { tag: type_tag, offset: pos }),
                },
            }
        },
    }
}

/// Total-length mode: children are decoded until exactly `total` bits have
/// been consumed since `start`. A child that runs past the declared total is
/// a framing violation, detected at the first child boundary beyond it.
pub open spec fn spec_parse_until(bits: Seq<u8>, pos: nat, start: nat, total: nat) -> Result<
    (nat, Seq<SpecPacket>),
    SpecError,
>
    decreases bits.len() - pos, 2nat,
{
    if pos == start + total {
        Ok((pos, Seq::empty()))
    } else if pos > start + total {
        Err(SpecError::MalformedLength {
            expected_total_bits: total,
            actual_consumed: (pos - start) as nat,
            offset: pos,
        })
    } else {
        match spec_parse_packet(bits, pos) {
            Err(e) => Err(e),
            Ok((p2, packet)) => {
                // A packet consumes at least its 6-bit header, so its end
                // lies strictly beyond `pos` and within the stream;
                // `lemma_parse_packet_advances` shows the other branch is
                // never taken.
                if pos < p2 <= bits.len() {
                    match spec_parse_until(bits, p2, start, total) {
                        Err(e) => Err(e),
                        Ok((p3, rest)) => Ok((p3, seq![packet] + rest)),
                    }
                } else {
                    arbitrary()
                }
            },
        }
    }
}

/// Count mode: exactly `count` children are decoded, in encounter order,
/// with no check on the bits they span.
pub open spec fn spec_parse_children(bits: Seq<u8>, pos: nat, count: nat) -> Result<
    (nat, Seq<SpecPacket>),
    SpecError,
>
    decreases bits.len() - pos, 2nat,
{
    if count == 0 {
        Ok((pos, Seq::empty()))
    } else {
        match spec_parse_packet(bits, pos) {
            Err(e) => Err(e),
            Ok((p2, packet)) => {
                // As in `spec_parse_until`, a packet always ends strictly
                // beyond where it began and within the stream.
                if pos < p2 <= bits.len() {
                    match spec_parse_children(bits, p2, (count - 1) as nat) {
                        Err(e) => Err(e),
                        Ok((p3, rest)) => Ok((p3, seq![packet] + rest)),
                    }
                } else {
                    arbitrary()
                }
            },
        }
    }
}

/// A bit sequence's value is bounded by two to its length.
pub proof fn lemma_bits_value_bound(s: Seq<u8>)
    requires
        is_bit_seq(s),
    ensures
        bits_value(s) < pow2(s.len()),
    decreases s.len(),
{
    if s.len() == 0 {
        lemma2_to64();
    } else {
        lemma_bits_value_bound(s.drop_last());
        lemma_pow2_adds(1, (s.len() - 1) as nat);
        lemma2_to64();
    }
}

/// A successfully decoded packet ends strictly beyond where it began, and
/// within the stream.
pub proof fn lemma_parse_packet_advances(bits: Seq<u8>, pos: nat)
    ensures
        spec_parse_packet(bits, pos) matches Ok(r) ==> pos < r.0 <= bits.len(),
    decreases bits.len() - pos, 0nat,
{
    match spec_parse_header(bits, pos) {
        Err(_) => {},
        Ok((p1, h)) => {
            if h.type_id == 4 {
                lemma_literal_groups_advances(bits, p1);
            } else {
                lemma_parse_operator_advances(bits, p1, h.type_id);
            }
        },
    }
}

/// The groups of a literal body span at least five bits, and end within the
/// stream.
pub proof fn lemma_literal_groups_advances(bits: Seq<u8>, pos: nat)
    ensures
        spec_literal_groups(bits, pos) matches Ok(r) ==> pos < r.0 <= bits.len(),
    decreases bits.len() - pos,
{
    if pos + 5 <= bits.len() {
        lemma_literal_groups_advances(bits, pos + 5);
    }
}

/// A successfully decoded operator body ends strictly beyond where it
/// began, and within the stream.
pub proof fn lemma_parse_operator_advances(bits: Seq<u8>, pos: nat, type_tag: u8)
    ensures
        spec_parse_operator(bits, pos, type_tag) matches Ok(r) ==> pos < r.0 <= bits.len(),
    decreases bits.len() - pos, 1nat,
{
    match spec_read(bits, pos, 1) {
        Err(_) => {},
        Ok((p1, mode)) => {
            if mode == 0 {
                match spec_read(bits, p1, 15) {
                    Err(_) => {},
                    Ok((p2, total)) => lemma_parse_until_advances(bits, p2, p2, total),
                }
            } else {
                match spec_read(bits, p1, 11) {
                    Err(_) => {},
                    Ok((p2, count)) => lemma_parse_children_advances(bits, p2, count),
                }
            }
        },
    }
}

/// Total-length mode never moves the position backward, and stays within
/// the stream.
pub proof fn lemma_parse_until_advances(bits: Seq<u8>, pos: nat, start: nat, total: nat)
    requires
        pos <= bits.len(),
    ensures
        spec_parse_until(bits, pos, start, total) matches Ok(r) ==> pos <= r.0 <= bits.len(),
    decreases bits.len() - pos, 2nat,
{
    if pos == start + total {
    } else if pos > start + total {
    } else {
        match spec_parse_packet(bits, pos) {
            Err(_) => {},
            Ok((p2, _)) => {
                lemma_parse_packet_advances(bits, pos);
                lemma_parse_until_advances(bits, p2, start, total);
            },
        }
    }
}

/// Count mode never moves the position backward, and stays within the
/// stream.
pub proof fn lemma_parse_children_advances(bits: Seq<u8>, pos: nat, count: nat)
    requires
        pos <= bits.len(),
    ensures
        spec_parse_children(bits, pos, count) matches Ok(r) ==> pos <= r.0 <= bits.len(),
    decreases bits.len() - pos, 2nat,
{
    if count > 0 {
        match spec_parse_packet(bits, pos) {
            Err(_) => {},
            Ok((p2, _)) => {
                lemma_parse_packet_advances(bits, pos);
                lemma_parse_children_advances(bits, p2, (count - 1) as nat);
            },
        }
    }
}

} // verus!
