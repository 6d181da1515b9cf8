//! The laws the decoder obeys, stated over the ghost model and proved once
//! and for all: round trips for headers and literals, and the exactness of
//! the two framing modes.

use crate::model::bits_value;
use crate::model::groups_value;
use crate::model::is_bit_seq;
use crate::model::lemma_literal_groups_advances;
use crate::model::lemma_parse_children_advances;
use crate::model::lemma_parse_operator_advances;
use crate::model::lemma_parse_packet_advances;
use crate::model::lemma_parse_until_advances;
use crate::model::spec_literal_groups;
use crate::model::spec_parse_children;
use crate::model::spec_parse_header;
use crate::model::spec_parse_packet;
use crate::model::spec_parse_literal;
use crate::model::spec_parse_operator;
use crate::model::spec_parse_until;
use crate::model::spec_read;
use crate::packet::Header;
use crate::packet::Operation;
use crate::packet::SpecError;
use crate::packet::SpecPacket;
use crate::packet::spec_operation_of;
use vstd::arithmetic::div_mod::lemma_fundamental_div_mod;
use vstd::arithmetic::div_mod::lemma_mod_breakdown;
use vstd::arithmetic::div_mod::lemma_small_mod;
use vstd::arithmetic::power2::lemma2_to64;
use vstd::arithmetic::power2::lemma_pow2_adds;
use vstd::arithmetic::power2::lemma_pow2_pos;
use vstd::arithmetic::power2::pow2;
use vstd::prelude::*;

verus! {

/// The big-endian encoding of `value` in `width` bits: the bits of
/// `value % 2^width`, most significant first.
pub open spec fn encode_field(value: nat, width: nat) -> Seq<u8>
    decreases width,
{
    if width == 0 {
        Seq::empty()
    } else {
        encode_field(value / 2, (width - 1) as nat).push((value % 2) as u8)
    }
}

/// A one-bit sequence reads back as its bit.
pub proof fn lemma_bits_value_single(b: u8)
    ensures
        bits_value(seq![b]) == b,
{
    assert(seq![b].drop_last() =~= Seq::<u8>::empty());
    assert(bits_value(Seq::<u8>::empty()) == 0);
}

/// `encode_field` produces `width` bits whose value is `value % 2^width`.
pub proof fn lemma_encode_field(value: nat, width: nat)
    ensures
        encode_field(value, width).len() == width,
        is_bit_seq(encode_field(value, width)),
        bits_value(encode_field(value, width)) == value % pow2(width),
    decreases width,
{
    lemma2_to64();
    if width == 0 {
        lemma_small_mod(0, 1);
        assert(value % pow2(0) == 0) by {
            assert(pow2(0) == 1);
            assert(value % 1 == 0) by {
                lemma_fundamental_div_mod(value as int, 1);
            }
        }
    } else {
        lemma_encode_field(value / 2, (width - 1) as nat);
        assert(encode_field(value, width).drop_last() =~= encode_field(
            value / 2,
            (width - 1) as nat,
        ));
        lemma_pow2_adds(1, (width - 1) as nat);
        lemma_pow2_pos((width - 1) as nat);
        lemma_mod_breakdown(value as int, 2, pow2((width - 1) as nat) as int);
    }
}

/// Header round trip: decoding the concatenated 3-bit encodings of any
/// version and type tag yields exactly that header and advances the
/// position by exactly 6 bits, whatever follows.
pub proof fn lemma_header_round_trip(version: u8, type_tag: u8, rest: Seq<u8>)
    requires
        version < 8,
        type_tag < 8,
    ensures
        spec_parse_header(
            encode_field(version as nat, 3) + encode_field(type_tag as nat, 3) + rest,
            0,
        ) == Ok::<(nat, Header), SpecError>((6, Header { version, type_id: type_tag })),
{
    let bits = encode_field(version as nat, 3) + encode_field(type_tag as nat, 3) + rest;
    lemma_encode_field(version as nat, 3);
    lemma_encode_field(type_tag as nat, 3);
    lemma2_to64();
    lemma_small_mod(version as nat, 8);
    lemma_small_mod(type_tag as nat, 8);
    assert(bits.subrange(0, 3) =~= encode_field(version as nat, 3));
    assert(bits.subrange(3, 6) =~= encode_field(type_tag as nat, 3));
}

/// In total-length mode, a successful child run ends exactly at the
/// declared boundary.
pub proof fn lemma_until_ends_at_total(bits: Seq<u8>, pos: nat, start: nat, total: nat)
    ensures
        spec_parse_until(bits, pos, start, total) matches Ok(r) ==> r.0 == start + total,
    decreases bits.len() - pos,
{
    if pos == start + total {
    } else if pos > start + total {
    } else {
        match spec_parse_packet(bits, pos) {
            Err(_) => {},
            Ok((p2, _)) => {
                lemma_parse_packet_advances(bits, pos);
                lemma_until_ends_at_total(bits, p2, start, total);
            },
        }
    }
}

/// In count mode, a successful decode yields exactly the declared number of
/// children, in encounter order, whatever their widths.
pub proof fn lemma_children_count(bits: Seq<u8>, pos: nat, count: nat)
    ensures
        spec_parse_children(bits, pos, count) matches Ok(r) ==> r.1.len() == count,
    decreases count,
{
    if count > 0 {
        match spec_parse_packet(bits, pos) {
            Err(_) => {},
            Ok((p2, _)) => {
                lemma_parse_packet_advances(bits, pos);
                lemma_children_count(bits, p2, (count - 1) as nat);
            },
        }
    }
}

/// Total-length-mode exactness: when the framing mode bit at the start of
/// an operator body is 0, a successful decode of the body consumes exactly
/// the mode bit, the 15-bit length field, and the declared number of bits
/// of children.
pub proof fn lemma_total_length_exact(bits: Seq<u8>, pos: nat, type_tag: u8)
    requires
        pos < bits.len(),
        bits[pos as int] == 0,
    ensures
        spec_parse_operator(bits, pos, type_tag) matches Ok(r) ==> r.0 == pos + 16 + bits_value(
            bits.subrange(pos + 1 as int, pos + 16 as int),
        ),
{
    assert(bits.subrange(pos as int, (pos + 1) as int) =~= seq![bits[pos as int]]);
    lemma_bits_value_single(bits[pos as int]);
    if pos + 16 <= bits.len() {
        let total = bits_value(bits.subrange(pos + 1 as int, pos + 16 as int));
        lemma_until_ends_at_total(bits, pos + 16, pos + 16, total);
    }
}

/// Count-mode exactness: when the framing mode bit at the start of an
/// operator body is 1, a successful decode of the body yields exactly the
/// number of children declared by the 11-bit count field.
pub proof fn lemma_count_mode_exact(bits: Seq<u8>, pos: nat, type_tag: u8)
    requires
        pos < bits.len(),
        bits[pos as int] == 1,
    ensures
        spec_parse_operator(bits, pos, type_tag) matches Ok(r) ==> r.1.0.len() == bits_value(
            bits.subrange(pos + 1 as int, pos + 12 as int),
        ),
{
    assert(bits.subrange(pos as int, (pos + 1) as int) =~= seq![bits[pos as int]]);
    lemma_bits_value_single(bits[pos as int]);
    if pos + 12 <= bits.len() {
        let count = bits_value(bits.subrange(pos + 1 as int, pos + 12 as int));
        lemma_children_count(bits, pos + 12, count);
    }
}

/// The base-16 digits of a value, most significant first: one zero digit
/// for zero, else the digits of the quotient followed by the last digit.
pub open spec fn encode_literal_groups(v: nat) -> Seq<nat>
    decreases v,
{
    if v < 16 {
        seq![v]
    } else {
        encode_literal_groups(v / 16).push(v % 16)
    }
}

/// The bit encoding of a run of groups: each group is one continuation bit
/// (1 for all but the last, 0 for the last) followed by its 4-bit value.
pub open spec fn encode_groups_bits(groups: Seq<nat>) -> Seq<u8>
    decreases groups.len(),
{
    if groups.len() == 0 {
        Seq::empty()
    } else {
        let cont: u8 = if groups.len() == 1 {
            0
        } else {
            1
        };
        seq![cont] + encode_field(groups[0], 4) + encode_groups_bits(
            groups.subrange(1, groups.len() as int),
        )
    }
}

/// The literal grouping rule applied to `v`: 5-bit groups, most
/// significant nibble first, ended by the group whose continuation bit
/// is 0.
pub open spec fn encode_literal(v: nat) -> Seq<u8> {
    encode_groups_bits(encode_literal_groups(v))
}

/// A run of groups encodes to five bits per group, all of them bits.
proof fn lemma_encode_groups_len(groups: Seq<nat>)
    ensures
        encode_groups_bits(groups).len() == 5 * groups.len(),
        is_bit_seq(encode_groups_bits(groups)),
    decreases groups.len(),
{
    if groups.len() > 0 {
        lemma_encode_field(groups[0], 4);
        lemma_encode_groups_len(groups.subrange(1, groups.len() as int));
    }
}

/// Groups written by `encode_groups_bits` read back exactly, five bits per
/// group.
proof fn lemma_groups_decode(bits: Seq<u8>, pos: nat, groups: Seq<nat>)
    requires
        groups.len() >= 1,
        forall|i: int| 0 <= i < groups.len() ==> groups[i] < 16,
        pos + 5 * groups.len() <= bits.len(),
        bits.subrange(pos as int, pos as int + 5 * groups.len()) == encode_groups_bits(groups),
    ensures
        spec_literal_groups(bits, pos) == Ok::<(nat, Seq<nat>), SpecError>(
            (pos + 5 * groups.len(), groups),
        ),
    decreases groups.len(),
{
    let k = groups.len() as int;
    let enc = encode_groups_bits(groups);
    let cont: u8 = if k == 1 {
        0
    } else {
        1
    };
    let tail = groups.subrange(1, k);
    lemma_encode_field(groups[0], 4);
    lemma_encode_groups_len(tail);
    lemma2_to64();
    lemma_small_mod(groups[0] as nat, 16);
    let window = bits.subrange(pos as int, pos as int + 5 * groups.len());
    assert(bits.subrange(pos as int, (pos + 1) as int) =~= window.subrange(0, 1));
    assert(enc.subrange(0, 1) =~= seq![cont]);
    lemma_bits_value_single(cont);
    assert(bits.subrange((pos + 1) as int, (pos + 5) as int) =~= window.subrange(1, 5));
    assert(enc.subrange(1, 5) =~= encode_field(groups[0], 4));
    if k == 1 {
        assert(seq![groups[0]] =~= groups);
    } else {
        assert(bits.subrange((pos + 5) as int, (pos + 5) as int + 5 * tail.len())
            =~= window.subrange(5, 5 + 5 * tail.len() as int));
        assert(enc.subrange(5, 5 + 5 * tail.len() as int) =~= encode_groups_bits(tail));
        lemma_groups_decode(bits, (pos + 5) as nat, tail);
        assert(seq![groups[0]] + tail =~= groups);
    }
}

/// The base-16 digits of a value read back as that value.
proof fn lemma_literal_groups_value(v: nat)
    ensures
        encode_literal_groups(v).len() >= 1,
        forall|i: int|
            0 <= i < encode_literal_groups(v).len() ==> #[trigger] encode_literal_groups(v)[i]
                < 16,
        groups_value(encode_literal_groups(v)) == v,
    decreases v,
{
    if v < 16 {
        assert(seq![v].drop_last() =~= Seq::<nat>::empty());
        assert(groups_value(Seq::<nat>::empty()) == 0);
    } else {
        lemma_literal_groups_value(v / 16);
        let gs = encode_literal_groups(v);
        assert(gs.drop_last() =~= encode_literal_groups(v / 16));
        lemma_fundamental_div_mod(v as int, 16);
    }
}

/// Literal round trip: encoding any 64-bit value by the literal grouping
/// rule and decoding it again returns exactly that value, and advances the
/// position by exactly five bits per group, whatever bits follow.
pub proof fn lemma_literal_round_trip(v: u64, rest: Seq<u8>)
    ensures
        encode_literal(v as nat).len() == 5 * encode_literal_groups(v as nat).len(),
        spec_parse_literal(encode_literal(v as nat) + rest, 0) == Ok::<(nat, u64), SpecError>(
            (encode_literal(v as nat).len(), v),
        ),
{
    let gs = encode_literal_groups(v as nat);
    let enc = encode_literal(v as nat);
    let bits = enc + rest;
    lemma_literal_groups_value(v as nat);
    lemma_encode_groups_len(gs);
    assert(bits.subrange(0, 5 * gs.len() as int) =~= enc);
    lemma_groups_decode(bits, 0, gs);
    lemma_small_mod(v as nat, 0x1_0000_0000_0000_0000);
}

/// Two streams agree on spans of `n` bits starting at `pos1` and `pos2`.
spec fn spans_agree(bits1: Seq<u8>, pos1: nat, bits2: Seq<u8>, pos2: nat, n: nat) -> bool {
    pos1 + n <= bits1.len() && pos2 + n <= bits2.len() && bits1.subrange(
        pos1 as int,
        pos1 as int + n,
    ) == bits2.subrange(pos2 as int, pos2 as int + n)
}

/// Agreement on a span restricts to agreement on any sub-span.
proof fn lemma_spans_agree_sub(
    bits1: Seq<u8>,
    pos1: nat,
    bits2: Seq<u8>,
    pos2: nat,
    n: nat,
    off: nat,
    m: nat,
)
    requires
        spans_agree(bits1, pos1, bits2, pos2, n),
        off + m <= n,
    ensures
        spans_agree(bits1, pos1 + off, bits2, pos2 + off, m),
{
    let s1 = bits1.subrange(pos1 as int, pos1 as int + n);
    let s2 = bits2.subrange(pos2 as int, pos2 as int + n);
    assert(bits1.subrange((pos1 + off) as int, (pos1 + off) as int + m) =~= s1.subrange(
        off as int,
        off as int + m,
    ));
    assert(bits2.subrange((pos2 + off) as int, (pos2 + off) as int + m) =~= s2.subrange(
        off as int,
        off as int + m,
    ));
}

/// A header decodes the same from any stream that carries the same 6 bits.
proof fn lemma_frame_header(bits1: Seq<u8>, pos1: nat, bits2: Seq<u8>, pos2: nat)
    requires
        spec_parse_header(bits1, pos1) is Ok,
        spans_agree(bits1, pos1, bits2, pos2, 6),
    ensures
        spec_parse_header(bits1, pos1) matches Ok(r) ==> spec_parse_header(bits2, pos2) == Ok::<
            (nat, Header),
            SpecError,
        >((pos2 + 6, r.1)),
{
    lemma_spans_agree_sub(bits1, pos1, bits2, pos2, 6, 0, 3);
    lemma_spans_agree_sub(bits1, pos1, bits2, pos2, 6, 3, 3);
}

/// A literal body decodes the same from any stream that carries the same
/// bits over its span.
proof fn lemma_frame_groups(
    bits1: Seq<u8>,
    pos1: nat,
    bits2: Seq<u8>,
    pos2: nat,
    end1: nat,
    gs: Seq<nat>,
)
    requires
        spec_literal_groups(bits1, pos1) == Ok::<(nat, Seq<nat>), SpecError>((end1, gs)),
        spans_agree(bits1, pos1, bits2, pos2, (end1 - pos1) as nat),
    ensures
        spec_literal_groups(bits2, pos2) == Ok::<(nat, Seq<nat>), SpecError>(
            ((pos2 + (end1 - pos1)) as nat, gs),
        ),
    decreases bits1.len() - pos1,
{
    lemma_literal_groups_advances(bits1, pos1);
    let n = (end1 - pos1) as nat;
    lemma_spans_agree_sub(bits1, pos1, bits2, pos2, n, 0, 1);
    match spec_read(bits1, pos1, 1) {
        Err(_) => {},
        Ok((pa, cont)) => {
            match spec_read(bits1, pa, 4) {
                Err(_) => {},
                Ok((pb, _group)) => {
                    if cont == 0 {
                        lemma_spans_agree_sub(bits1, pos1, bits2, pos2, n, 1, 4);
                    } else {
                        match spec_literal_groups(bits1, pb) {
                            Err(_) => {},
                            Ok((e, rest)) => {
                                lemma_literal_groups_advances(bits1, pb);
                                lemma_spans_agree_sub(bits1, pos1, bits2, pos2, n, 1, 4);
                                lemma_spans_agree_sub(
                                    bits1,
                                    pos1,
                                    bits2,
                                    pos2,
                                    n,
                                    5,
                                    (end1 - pos1 - 5) as nat,
                                );
                                lemma_frame_groups(bits1, pb, bits2, (pos2 + 5) as nat, e, rest);
                            },
                        }
                    }
                },
            }
        },
    }
}

/// A whole packet decodes the same from any stream that carries the same
/// bits over its span.
proof fn lemma_frame_packet(
    bits1: Seq<u8>,
    pos1: nat,
    bits2: Seq<u8>,
    pos2: nat,
    end1: nat,
    p: SpecPacket,
)
    requires
        spec_parse_packet(bits1, pos1) == Ok::<(nat, SpecPacket), SpecError>((end1, p)),
        spans_agree(bits1, pos1, bits2, pos2, (end1 - pos1) as nat),
    ensures
        spec_parse_packet(bits2, pos2) == Ok::<(nat, SpecPacket), SpecError>(
            ((pos2 + (end1 - pos1)) as nat, p),
        ),
    decreases bits1.len() - pos1, 0nat,
{
    lemma_parse_packet_advances(bits1, pos1);
    let n = (end1 - pos1) as nat;
    match spec_parse_header(bits1, pos1) {
        Err(_) => {},
        Ok((ph, h)) => {
            if h.type_id == 4 {
                match spec_literal_groups(bits1, ph) {
                    Err(_) => {},
                    Ok((eg, gs)) => {
                        lemma_literal_groups_advances(bits1, ph);
                        lemma_spans_agree_sub(bits1, pos1, bits2, pos2, n, 0, 6);
                        lemma_frame_header(bits1, pos1, bits2, pos2);
                        lemma_spans_agree_sub(
                            bits1,
                            pos1,
                            bits2,
                            pos2,
                            n,
                            6,
                            (end1 - pos1 - 6) as nat,
                        );
                        lemma_frame_groups(bits1, ph, bits2, (pos2 + 6) as nat, eg, gs);
                    },
                }
            } else {
                match spec_parse_operator(bits1, ph, h.type_id) {
                    Err(_) => {},
                    Ok((eo, sub)) => {
                        lemma_parse_operator_advances(bits1, ph, h.type_id);
                        lemma_spans_agree_sub(bits1, pos1, bits2, pos2, n, 0, 6);
                        lemma_frame_header(bits1, pos1, bits2, pos2);
                        lemma_spans_agree_sub(
                            bits1,
                            pos1,
                            bits2,
                            pos2,
                            n,
                            6,
                            (end1 - pos1 - 6) as nat,
                        );
                        lemma_frame_operator(
                            bits1,
                            ph,
                            bits2,
                            (pos2 + 6) as nat,
                            eo,
                            sub.0,
                            sub.1,
                            h.type_id,
                        );
                    },
                }
            }
        },
    }
}

/// An operator body decodes the same from any stream that carries the same
/// bits over its span.
proof fn lemma_frame_operator(
    bits1: Seq<u8>,
    pos1: nat,
    bits2: Seq<u8>,
    pos2: nat,
    end1: nat,
    kids: Seq<SpecPacket>,
    op: Operation,
    tag: u8,
)
    requires
        spec_parse_operator(bits1, pos1, tag) == Ok::<(nat, (Seq<SpecPacket>, Operation)), SpecError>(
            (end1, (kids, op)),
        ),
        spans_agree(bits1, pos1, bits2, pos2, (end1 - pos1) as nat),
    ensures
        spec_parse_operator(bits2, pos2, tag) == Ok::<
            (nat, (Seq<SpecPacket>, Operation)),
            SpecError,
        >(((pos2 + (end1 - pos1)) as nat, (kids, op))),
    decreases bits1.len() - pos1, 1nat,
{
    lemma_parse_operator_advances(bits1, pos1, tag);
    let n = (end1 - pos1) as nat;
    lemma_spans_agree_sub(bits1, pos1, bits2, pos2, n, 0, 1);
    match spec_read(bits1, pos1, 1) {
        Err(_) => {},
        Ok((pa, mode)) => {
            if mode == 0 {
                match spec_read(bits1, pa, 15) {
                    Err(_) => {},
                    Ok((pb, total)) => {
                        match spec_parse_until(bits1, pb, pb, total) {
                            Err(_) => {},
                            Ok((eu, kds)) => {
                                lemma_until_ends_at_total(bits1, pb, pb, total);
                                lemma_spans_agree_sub(bits1, pos1, bits2, pos2, n, 1, 15);
                                lemma_spans_agree_sub(
                                    bits1,
                                    pos1,
                                    bits2,
                                    pos2,
                                    n,
                                    16,
                                    (end1 - pos1 - 16) as nat,
                                );
                                lemma_frame_until(
                                    bits1,
                                    pb,
                                    bits2,
                                    (pos2 + 16) as nat,
                                    pb,
                                    (pos2 + 16) as nat,
                                    total,
                                    eu,
                                    kds,
                                );
                            },
                        }
                    },
                }
            } else {
                match spec_read(bits1, pa, 11) {
                    Err(_) => {},
                    Ok((pb, count)) => {
                        match spec_parse_children(bits1, pb, count) {
                            Err(_) => {},
                            Ok((ec, kds)) => {
                                lemma_parse_children_advances(bits1, pb, count);
                                lemma_spans_agree_sub(bits1, pos1, bits2, pos2, n, 1, 11);
                                lemma_spans_agree_sub(
                                    bits1,
                                    pos1,
                                    bits2,
                                    pos2,
                                    n,
                                    12,
                                    (end1 - pos1 - 12) as nat,
                                );
                                lemma_frame_children(
                                    bits1,
                                    pb,
                                    bits2,
                                    (pos2 + 12) as nat,
                                    count,
                                    ec,
                                    kds,
                                );
                            },
                        }
                    },
                }
            }
        },
    }
}

/// A total-length-mode child run decodes the same from any stream that
/// carries the same bits over its span, relative to its own boundary.
proof fn lemma_frame_until(
    bits1: Seq<u8>,
    q1: nat,
    bits2: Seq<u8>,
    q2: nat,
    s1: nat,
    s2: nat,
    total: nat,
    e1: nat,
    kids: Seq<SpecPacket>,
)
    requires
        spec_parse_until(bits1, q1, s1, total) == Ok::<(nat, Seq<SpecPacket>), SpecError>(
            (e1, kids),
        ),
        s1 <= q1,
        s2 <= q2,
        q1 - s1 == q2 - s2,
        spans_agree(bits1, q1, bits2, q2, (e1 - q1) as nat),
    ensures
        spec_parse_until(bits2, q2, s2, total) == Ok::<(nat, Seq<SpecPacket>), SpecError>(
            ((q2 + (e1 - q1)) as nat, kids),
        ),
    decreases bits1.len() - q1, 2nat,
{
    lemma_until_ends_at_total(bits1, q1, s1, total);
    if q1 == s1 + total {
    } else if q1 > s1 + total {
    } else {
        match spec_parse_packet(bits1, q1) {
            Err(_) => {},
            Ok((p2, pk)) => {
                lemma_parse_packet_advances(bits1, q1);
                match spec_parse_until(bits1, p2, s1, total) {
                    Err(_) => {},
                    Ok((e2, rest)) => {
                        lemma_parse_until_advances(bits1, p2, s1, total);
                        lemma_spans_agree_sub(
                            bits1,
                            q1,
                            bits2,
                            q2,
                            (e1 - q1) as nat,
                            0,
                            (p2 - q1) as nat,
                        );
                        lemma_frame_packet(bits1, q1, bits2, q2, p2, pk);
                        lemma_spans_agree_sub(
                            bits1,
                            q1,
                            bits2,
                            q2,
                            (e1 - q1) as nat,
                            (p2 - q1) as nat,
                            (e1 - p2) as nat,
                        );
                        lemma_frame_until(
                            bits1,
                            p2,
                            bits2,
                            (q2 + (p2 - q1)) as nat,
                            s1,
                            s2,
                            total,
                            e1,
                            rest,
                        );
                    },
                }
            },
        }
    }
}

/// A count-mode child run decodes the same from any stream that carries
/// the same bits over its span.
proof fn lemma_frame_children(
    bits1: Seq<u8>,
    q1: nat,
    bits2: Seq<u8>,
    q2: nat,
    count: nat,
    e1: nat,
    kids: Seq<SpecPacket>,
)
    requires
        spec_parse_children(bits1, q1, count) == Ok::<(nat, Seq<SpecPacket>), SpecError>(
            (e1, kids),
        ),
        spans_agree(bits1, q1, bits2, q2, (e1 - q1) as nat),
    ensures
        spec_parse_children(bits2, q2, count) == Ok::<(nat, Seq<SpecPacket>), SpecError>(
            ((q2 + (e1 - q1)) as nat, kids),
        ),
    decreases bits1.len() - q1, 2nat,
{
    if count == 0 {
    } else {
        match spec_parse_packet(bits1, q1) {
            Err(_) => {},
            Ok((p2, pk)) => {
                lemma_parse_packet_advances(bits1, q1);
                match spec_parse_children(bits1, p2, (count - 1) as nat) {
                    Err(_) => {},
                    Ok((e2, rest)) => {
                        lemma_parse_children_advances(bits1, p2, (count - 1) as nat);
                        lemma_spans_agree_sub(
                            bits1,
                            q1,
                            bits2,
                            q2,
                            (e1 - q1) as nat,
                            0,
                            (p2 - q1) as nat,
                        );
                        lemma_frame_packet(bits1, q1, bits2, q2, p2, pk);
                        lemma_spans_agree_sub(
                            bits1,
                            q1,
                            bits2,
                            q2,
                            (e1 - q1) as nat,
                            (p2 - q1) as nat,
                            (e1 - p2) as nat,
                        );
                        lemma_frame_children(
                            bits1,
                            p2,
                            bits2,
                            (q2 + (p2 - q1)) as nat,
                            (count - 1) as nat,
                            e1,
                            rest,
                        );
                    },
                }
            },
        }
    }
}

/// A run of children parsed at consecutive split positions is exactly what
/// total-length mode decodes between its boundaries.
proof fn lemma_until_splits(
    bits: Seq<u8>,
    splits: Seq<nat>,
    kids: Seq<SpecPacket>,
    start: nat,
    total: nat,
)
    requires
        splits.len() == kids.len() + 1,
        splits.last() == start + total,
        forall|i: int|
            0 <= i < kids.len() ==> #[trigger] spec_parse_packet(bits, splits[i]) == Ok::<
                (nat, SpecPacket),
                SpecError,
            >((splits[i + 1], kids[i])),
    ensures
        spec_parse_until(bits, splits[0], start, total) == Ok::<
            (nat, Seq<SpecPacket>),
            SpecError,
        >((start + total, kids)),
        splits[0] <= splits.last(),
    decreases kids.len(),
{
    if kids.len() == 0 {
        assert(kids =~= Seq::<SpecPacket>::empty());
    } else {
        assert(spec_parse_packet(bits, splits[0]) == Ok::<(nat, SpecPacket), SpecError>(
            (splits[1], kids[0]),
        ));
        lemma_parse_packet_advances(bits, splits[0]);
        let stail = splits.subrange(1, splits.len() as int);
        let ktail = kids.subrange(1, kids.len() as int);
        assert(stail.last() == splits.last());
        assert forall|i: int| 0 <= i < ktail.len() implies #[trigger] spec_parse_packet(
            bits,
            stail[i],
        ) == Ok::<(nat, SpecPacket), SpecError>((stail[i + 1], ktail[i])) by {
            assert(spec_parse_packet(bits, splits[i + 1]) == Ok::<(nat, SpecPacket), SpecError>(
                (splits[i + 2], kids[i + 1]),
            ));
        }
        lemma_until_splits(bits, stail, ktail, start, total);
        assert(seq![kids[0]] + ktail =~= kids);
    }
}

/// Total-length-mode exactness over an encoded run of children: when the
/// declared total equals the exact concatenated bit length of the
/// children's encodings, decoding the operator body succeeds, consumes
/// exactly the mode bit, the length field, and `total` more bits, yields
/// those children in encounter order, and each child decodes identically
/// from its own sub-slice taken independently.
pub proof fn lemma_total_mode_children(
    bits: Seq<u8>,
    pos: nat,
    type_tag: u8,
    splits: Seq<nat>,
    kids: Seq<SpecPacket>,
)
    requires
        splits.len() == kids.len() + 1,
        pos + 16 <= bits.len(),
        bits[pos as int] == 0,
        splits[0] == pos + 16,
        bits_value(bits.subrange(pos + 1 as int, pos + 16 as int)) == splits.last() - splits[0],
        spec_operation_of(type_tag) is Some,
        forall|i: int|
            0 <= i < kids.len() ==> #[trigger] spec_parse_packet(bits, splits[i]) == Ok::<
                (nat, SpecPacket),
                SpecError,
            >((splits[i + 1], kids[i])),
    ensures
        spec_parse_operator(bits, pos, type_tag) == Ok::<
            (nat, (Seq<SpecPacket>, Operation)),
            SpecError,
        >((splits.last(), (kids, spec_operation_of(type_tag).unwrap()))),
        forall|i: int|
            0 <= i < kids.len() ==> #[trigger] spec_parse_packet(
                bits.subrange(splits[i] as int, splits[i + 1] as int),
                0,
            ) == Ok::<(nat, SpecPacket), SpecError>(((splits[i + 1] - splits[i]) as nat, kids[i])),
{
    let total = (splits.last() - splits[0]) as nat;
    assert(bits.subrange(pos as int, (pos + 1) as int) =~= seq![bits[pos as int]]);
    lemma_bits_value_single(bits[pos as int]);
    lemma_until_splits(bits, splits, kids, splits[0], total);
    assert forall|i: int| 0 <= i < kids.len() implies #[trigger] spec_parse_packet(
        bits.subrange(splits[i] as int, splits[i + 1] as int),
        0,
    ) == Ok::<(nat, SpecPacket), SpecError>(((splits[i + 1] - splits[i]) as nat, kids[i])) by {
        lemma_parse_packet_advances(bits, splits[i]);
        let sub = bits.subrange(splits[i] as int, splits[i + 1] as int);
        assert(sub.subrange(0, sub.len() as int) =~= sub);
        lemma_frame_packet(bits, splits[i], sub, 0, splits[i + 1], kids[i]);
    }
}

/// Decoding a header from a stream with fewer than 6 bits left fails with
/// an insufficient-bits error naming the read that fell short.
pub proof fn lemma_short_header(bits: Seq<u8>, pos: nat)
    requires
        pos <= bits.len(),
        bits.len() < pos + 6,
    ensures
        bits.len() - pos < 3 ==> spec_parse_header(bits, pos) == Err::<(nat, Header), SpecError>(
            SpecError::InsufficientBits {
                requested: 3,
                available: (bits.len() - pos) as nat,
                offset: pos,
            },
        ),
        bits.len() - pos >= 3 ==> spec_parse_header(bits, pos) == Err::<(nat, Header), SpecError>(
            SpecError::InsufficientBits {
                requested: 3,
                available: (bits.len() - pos - 3) as nat,
                offset: pos + 3,
            },
        ),
{
}

} // verus!
