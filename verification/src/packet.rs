//! The data model of the decoder: packets, headers, operations, and the
//! errors a decode can surface.

use vstd::arithmetic::mul::lemma_mul_inequality;
use vstd::arithmetic::power2::lemma2_to64;
use vstd::arithmetic::power2::lemma2_to64_rest;
use vstd::arithmetic::power2::lemma_pow2_strictly_increases;
use vstd::arithmetic::power2::pow2;
use vstd::bits::lemma_u64_shl_is_mul;
use vstd::prelude::*;

verus! {

/// A tree structure that represents some number. Can be parsed out of its
/// binary encoding.
#[derive(Debug, PartialEq, Eq)]
pub enum Packet {
    /// Leaf node. Represents a number directly.
    Literal { version: u8, value: u64 },
    /// Internal node. Represents the number you get from running the given
    /// operation on the given subpackets.
    Operator { version: u8, type_id: Operation, subpackets: Vec<Packet> },
}

/// Each operator packet has an operation which it runs on the values of its
/// subpackets.
#[derive(Debug, PartialEq, Eq, Structural, Clone, Copy)]
pub enum Operation {
    Sum,
    Product,
    Min,
    Max,
    Greater,
    Less,
    Equal,
}

/// Every packet has a header: a 3-bit version and a 3-bit type tag.
#[derive(Debug, PartialEq, Eq, Structural, Clone, Copy)]
pub struct Header {
    pub version: u8,
    pub type_id: u8,
}

/// A failed decode. Every variant carries the bit offset at which the
/// failure was detected.
#[derive(Debug, PartialEq, Eq, Structural, Clone, Copy)]
pub enum DecodeError {
    /// A read of `requested` bits found only `available` bits left.
    InsufficientBits { requested: usize, available: usize, offset: usize },
    /// In total-length mode, a child packet ran past the declared total:
    /// `actual_consumed` bits of children were decoded where exactly
    /// `expected_total_bits` were announced.
    MalformedLength { expected_total_bits: usize, actual_consumed: usize, offset: usize },
    /// A type tag with no operation reached the operator reader. Tags are
    /// three bits wide, so this can only happen through a caller that made
    /// up a tag of its own.
    InvalidTypeTag { tag: u8, offset: usize },
}

/// The ghost counterpart of `Packet`: the tree a decode is specified to
/// produce, with children as a mathematical sequence.
#[verifier::ext_equal]
pub enum SpecPacket {
    Literal { version: u8, value: u64 },
    Operator { version: u8, type_id: Operation, subpackets: Seq<SpecPacket> },
}

/// The ghost counterpart of `DecodeError`, over unbounded integers.
pub enum SpecError {
    InsufficientBits { requested: nat, available: nat, offset: nat },
    MalformedLength { expected_total_bits: nat, actual_consumed: nat, offset: nat },
    InvalidTypeTag { tag: u8, offset: nat },
}

impl View for DecodeError {
    type V = SpecError;

    open spec fn view(&self) -> SpecError {
        match *self {
            DecodeError::InsufficientBits { requested, available, offset } =>
                SpecError::InsufficientBits {
                    requested: requested as nat,
                    available: available as nat,
                    offset: offset as nat,
                },
            DecodeError::MalformedLength { expected_total_bits, actual_consumed, offset } =>
                SpecError::MalformedLength {
                    expected_total_bits: expected_total_bits as nat,
                    actual_consumed: actual_consumed as nat,
                    offset: offset as nat,
                },
            DecodeError::InvalidTypeTag { tag, offset } =>
                SpecError::InvalidTypeTag { tag, offset: offset as nat },
        }
    }
}

impl Packet {
    /// The ghost tree this packet stands for.
    pub open spec fn deep_view(&self) -> SpecPacket
        decreases *self,
    {
        match self {
            Packet::Literal { version, value } =>
                SpecPacket::Literal { version: *version, value: *value },
            Packet::Operator { version, type_id, subpackets } =>
                SpecPacket::Operator {
                    version: *version,
                    type_id: *type_id,
                    subpackets: deep_view_seq(subpackets@),
                },
        }
    }
}

/// The ghost trees a sequence of packets stands for, in order.
pub open spec fn deep_view_seq(s: Seq<Packet>) -> Seq<SpecPacket>
    decreases s,
{
    if s.len() == 0 {
        Seq::empty()
    } else {
        seq![s[0].deep_view()] + deep_view_seq(s.subrange(1, s.len() as int))
    }
}

/// `deep_view_seq` maps a sequence of packets element by element.
pub proof fn lemma_deep_view_seq(s: Seq<Packet>)
    ensures
        deep_view_seq(s).len() == s.len(),
        forall|i: int| 0 <= i < s.len() ==> #[trigger] deep_view_seq(s)[i] == s[i].deep_view(),
    decreases s,
{
    if s.len() > 0 {
        lemma_deep_view_seq(s.subrange(1, s.len() as int));
    }
}

/// Appending a packet appends its ghost tree.
pub proof fn lemma_deep_view_seq_push(s: Seq<Packet>, p: Packet)
    ensures
        deep_view_seq(s.push(p)) == deep_view_seq(s).push(p.deep_view()),
{
    lemma_deep_view_seq(s.push(p));
    lemma_deep_view_seq(s);
    assert(deep_view_seq(s.push(p)) =~= deep_view_seq(s).push(p.deep_view()));
}

/// The fixed table from a packet's 3-bit type tag to its operation. Tag 4
/// marks a literal, not an operator, so it has no entry; neither does any
/// tag outside the 3-bit range.
pub open spec fn spec_operation_of(tag: u8) -> Option<Operation> {
    if tag == 0 {
        Some(Operation::Sum)
    } else if tag == 1 {
        Some(Operation::Product)
    } else if tag == 2 {
        Some(Operation::Min)
    } else if tag == 3 {
        Some(Operation::Max)
    } else if tag == 5 {
        Some(Operation::Greater)
    } else if tag == 6 {
        Some(Operation::Less)
    } else if tag == 7 {
        Some(Operation::Equal)
    } else {
        None
    }
}

impl Operation {
    /// The operation a type tag stands for, or `None` for tag 4 (a literal)
    /// and for tags outside the 3-bit range, so that an impossible tag
    /// degrades to a named error instead of an abort.
    pub fn from_type_tag(tag: u8) -> (r: Option<Operation>)
        ensures
            r == spec_operation_of(tag),
    {
        match tag {
            0 => Some(Operation::Sum),
            1 => Some(Operation::Product),
            2 => Some(Operation::Min),
            3 => Some(Operation::Max),
            5 => Some(Operation::Greater),
            6 => Some(Operation::Less),
            7 => Some(Operation::Equal),
            _ => None,
        }
    }
}

/// A nibble is a u4 (half a byte), stored in a u8. Shifting it into column
/// `i` of a base-16 number gives its contribution to the assembled literal
/// value.
pub fn from_nibble(group: (usize, u8)) -> (r: u64)
    requires
        group.0 < 16,
        group.1 < 16,
    ensures
        r == group.1 * pow2((4 * group.0) as nat),
{
    let (i, nibble) = group;
    proof {
        lemma2_to64();
        lemma2_to64_rest();
        if 4 * i < 60 {
            lemma_pow2_strictly_increases(4 * i as nat, 60);
        }
        lemma_mul_inequality(nibble as int, 15, pow2(4 * i as nat) as int);
        lemma_u64_shl_is_mul(nibble as u64, (4 * i) as u64);
    }
    (nibble as u64) << (4 * i as u64)
}

} // verus!
