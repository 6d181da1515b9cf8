//! Decoder for the BITS format: a bit-packed encoding of a tree of typed
//! packets, where each packet is either a literal integer or an operator node
//! whose children follow one of two framing disciplines (a declared total bit
//! length, or a declared child count).
//!
//! The ghost model in `model` states what every routine returns; the
//! executable decoder in `decode` is proved to compute exactly that; the
//! laws in `laws` state the round trips and framing guarantees once and for
//! all.

mod bits;
mod decode;
mod laws;
mod model;
mod packet;

pub use bits::BitCursor;
pub use bits::bits_from_ascii;
pub use bits::bits_from_bytes;
pub use bits::spec_byte_bit;
pub use decode::parse;
pub use decode::read_header;
pub use decode::read_literal;
pub use decode::read_operator;
pub use laws::encode_field;
pub use laws::encode_groups_bits;
pub use laws::encode_literal;
pub use laws::encode_literal_groups;
pub use laws::lemma_bits_value_single;
pub use laws::lemma_children_count;
pub use laws::lemma_count_mode_exact;
pub use laws::lemma_encode_field;
pub use laws::lemma_header_round_trip;
pub use laws::lemma_literal_round_trip;
pub use laws::lemma_short_header;
pub use laws::lemma_total_length_exact;
pub use laws::lemma_total_mode_children;
pub use laws::lemma_until_ends_at_total;
pub use model::bits_value;
pub use model::groups_value;
pub use model::is_bit_seq;
pub use model::lemma_bits_value_bound;
pub use model::lemma_parse_packet_advances;
pub use model::spec_literal_groups;
pub use model::spec_parse_children;
pub use model::spec_parse_header;
pub use model::spec_parse_literal;
pub use model::spec_parse_operator;
pub use model::spec_parse_packet;
pub use model::spec_parse_until;
pub use model::spec_read;
pub use packet::DecodeError;
pub use packet::Header;
pub use packet::Operation;
pub use packet::Packet;
pub use packet::SpecError;
pub use packet::SpecPacket;
pub use packet::deep_view_seq;
pub use packet::from_nibble;
pub use packet::lemma_deep_view_seq;
pub use packet::spec_operation_of;
