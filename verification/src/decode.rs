//! The executable decoder: a recursive-descent parser over a bit cursor,
//! proved to compute exactly the functions of the ghost model.

use crate::bits::BitCursor;
use crate::model::groups_value;
use crate::model::is_bit_seq;
use crate::model::lemma_bits_value_bound;
use crate::model::lemma_parse_packet_advances;
use crate::model::spec_literal_groups;
use crate::model::spec_parse_children;
use crate::model::spec_parse_header;
use crate::model::spec_parse_literal;
use crate::model::spec_parse_operator;
use crate::model::spec_parse_packet;
use crate::model::spec_parse_until;
use crate::packet::DecodeError;
use crate::packet::Header;
use crate::packet::Operation;
use crate::packet::Packet;
use crate::packet::SpecError;
use crate::packet::SpecPacket;
use crate::packet::deep_view_seq;
use crate::packet::lemma_deep_view_seq_push;
use vstd::arithmetic::div_mod::lemma_add_mod_noop;
use vstd::arithmetic::div_mod::lemma_mod_self_0;
use vstd::arithmetic::div_mod::lemma_mul_mod_noop_left;
use vstd::arithmetic::div_mod::lemma_small_mod;
use vstd::arithmetic::power2::lemma2_to64;
use vstd::prelude::*;

verus! {

/// The 3-bit fields of a header are bits of the stream.
proof fn lemma_field_is_bit_seq(bits: Seq<u8>, lo: int, hi: int)
    requires
        is_bit_seq(bits),
        0 <= lo <= hi <= bits.len(),
    ensures
        is_bit_seq(bits.subrange(lo, hi)),
{
}

/// Reads a packet header: 3 bits of version, then 3 bits of type tag.
pub fn read_header<'a>(cursor: BitCursor<'a>) -> (r: Result<(BitCursor<'a>, Header), DecodeError>)
    requires
        cursor.wf(),
    ensures
        (match r {
            Ok(ok) => ok.0.wf() && ok.0.stream() == cursor.stream() && spec_parse_header(
                cursor.stream(),
                cursor.position() as nat,
            ) == Ok::<(nat, Header), SpecError>((ok.0.position() as nat, ok.1)),
            Err(e) => spec_parse_header(cursor.stream(), cursor.position() as nat) == Err::<
                (nat, Header),
                SpecError,
            >(e@),
        }),
{
    let (c1, version) = match cursor.read_bits(3) {
        Ok(x) => x,
        Err(e) => return Err(e),
    };
    let (c2, type_id) = match c1.read_bits(3) {
        Ok(x) => x,
        Err(e) => return Err(e),
    };
    proof {
        lemma2_to64();
        let s = cursor.stream();
        lemma_field_is_bit_seq(s, cursor.position() as int, cursor.position() + 3);
        lemma_field_is_bit_seq(s, c1.position() as int, c1.position() + 3);
        lemma_bits_value_bound(s.subrange(cursor.position() as int, cursor.position() + 3));
        lemma_bits_value_bound(s.subrange(c1.position() as int, c1.position() + 3));
    }
    Ok((c2, Header { version: version as u8, type_id: type_id as u8 }))
}

/// Reads a literal body: 5-bit groups until one is led by a 0 continuation
/// bit. The value is the base-16 number formed by the 4-bit groups in read
/// order; the format caps nothing, so the value is kept modulo 2^64.
#[verifier::loop_isolation(false)]
pub fn read_literal<'a>(cursor: BitCursor<'a>) -> (r: Result<(BitCursor<'a>, u64), DecodeError>)
    requires
        cursor.wf(),
    ensures
        (match r {
            Ok(ok) => ok.0.wf() && ok.0.stream() == cursor.stream() && spec_parse_literal(
                cursor.stream(),
                cursor.position() as nat,
            ) == Ok::<(nat, u64), SpecError>((ok.0.position() as nat, ok.1)),
            Err(e) => spec_parse_literal(cursor.stream(), cursor.position() as nat) == Err::<
                (nat, u64),
                SpecError,
            >(e@),
        }),
{
    let ghost stream0 = cursor.stream();
    let ghost pos0 = cursor.position() as nat;
    let mut cur = cursor;
    let mut acc: u64 = 0;
    let ghost mut groups: Seq<nat> = Seq::empty();
    proof {
        lemma_mod_self_0(0x1_0000_0000_0000_0000);
    }
    loop
        invariant
            cur.wf(),
            cur.stream() == stream0,
            acc == groups_value(groups) % 0x1_0000_0000_0000_0000,
            (match spec_literal_groups(stream0, cur.position() as nat) {
                Ok(r2) => spec_literal_groups(stream0, pos0) == Ok::<(nat, Seq<nat>), SpecError>(
                    (r2.0, groups + r2.1),
                ),
                Err(e) => spec_literal_groups(stream0, pos0) == Err::<(nat, Seq<nat>), SpecError>(
                    e,
                ),
            }),
        decreases stream0.len() - cur.position(),
    {
        let (c1, cont) = match cur.read_bits(1) {
            Ok(x) => x,
            Err(e) => return Err(e),
        };
        let (c2, group16) = match c1.read_bits(4) {
            Ok(x) => x,
            Err(e) => return Err(e),
        };
        proof {
            lemma2_to64();
            lemma_field_is_bit_seq(stream0, c1.position() as int, c1.position() + 4);
            lemma_bits_value_bound(stream0.subrange(c1.position() as int, c1.position() + 4));
        }
        let group = group16 as u64;
        let ghost old_groups = groups;
        let ghost old_acc = acc;
        let ghost g = group as nat;
        proof {
            groups = groups.push(g);
            let m: int = 0x1_0000_0000_0000_0000;
            assert(groups.drop_last() =~= old_groups);
            lemma_mul_mod_noop_left(groups_value(old_groups) as int, 16, m);
            lemma_add_mod_noop((groups_value(old_groups) * 16) as int, g as int, m);
            lemma_small_mod(g, m as nat);
            lemma_small_mod((old_acc as nat * 16 + g) % (m as nat), m as nat);
            assert(groups_value(groups) == groups_value(old_groups) * 16 + g);
        }
        acc = acc.wrapping_mul(16).wrapping_add(group);
        cur = c2;
        if cont == 0 {
            proof {
                assert(old_groups + seq![g] =~= groups);
            }
            return Ok((cur, acc));
        }
        proof {
            match spec_literal_groups(stream0, cur.position() as nat) {
                Ok(r2) => {
                    assert(old_groups + (seq![g] + r2.1) =~= groups + r2.1);
                },
                Err(_) => {},
            }
        }
    }
}

/// Decodes one whole packet at the cursor: a header, then a literal body
/// for type tag 4, else an operator body with its children. This is the
/// single recursive entry point; children at any depth go through it.
pub fn parse<'a>(cursor: BitCursor<'a>) -> (r: Result<(BitCursor<'a>, Packet), DecodeError>)
    requires
        cursor.wf(),
    ensures
        (match r {
            Ok(ok) => ok.0.wf() && ok.0.stream() == cursor.stream() && spec_parse_packet(
                cursor.stream(),
                cursor.position() as nat,
            ) == Ok::<(nat, SpecPacket), SpecError>((ok.0.position() as nat, ok.1.deep_view())),
            Err(e) => spec_parse_packet(cursor.stream(), cursor.position() as nat) == Err::<
                (nat, SpecPacket),
                SpecError,
            >(e@),
        }),
    decreases cursor.stream().len() - cursor.position(),
{
    let (c1, header) = match read_header(cursor) {
        Ok(x) => x,
        Err(e) => return Err(e),
    };
    if header.type_id == 4 {
        match read_literal(c1) {
            Ok(ok) => Ok((ok.0, Packet::Literal { version: header.version, value: ok.1 })),
            Err(e) => Err(e),
        }
    } else {
        match read_operator(c1, header.type_id) {
            Ok(ok) => {
                let (kids, op) = ok.1;
                Ok(
                    (
                        ok.0,
                        Packet::Operator {
                            version: header.version,
                            type_id: op,
                            subpackets: kids,
                        },
                    ),
                )
            },
            Err(e) => Err(e),
        }
    }
}

/// Decodes an operator body, starting right after the header: the 1-bit
/// framing mode, the 15-bit total length or 11-bit child count, the
/// children, and last the mapping of the tag to its operation. Tag 4 marks
/// a literal and must never reach this routine; the dispatcher in `parse`
/// guarantees that.
#[verifier::loop_isolation(false)]
pub fn read_operator<'a>(cursor: BitCursor<'a>, type_tag: u8) -> (r: Result<
    (BitCursor<'a>, (Vec<Packet>, Operation)),
    DecodeError,
>)
    requires
        cursor.wf(),
        type_tag != 4,
    ensures
        (match r {
            Ok(ok) => ok.0.wf() && ok.0.stream() == cursor.stream() && spec_parse_operator(
                cursor.stream(),
                cursor.position() as nat,
                type_tag,
            ) == Ok::<(nat, (Seq<SpecPacket>, Operation)), SpecError>(
                (ok.0.position() as nat, (deep_view_seq(ok.1.0@), ok.1.1)),
            ),
            Err(e) => spec_parse_operator(cursor.stream(), cursor.position() as nat, type_tag)
                == Err::<(nat, (Seq<SpecPacket>, Operation)), SpecError>(e@),
        }),
    decreases cursor.stream().len() - cursor.position(),
{
    let ghost stream0 = cursor.stream();
    let (c1, mode) = match cursor.read_bits(1) {
        Ok(x) => x,
        Err(e) => return Err(e),
    };
    if mode == 0 {
        let (c2, total16) = match c1.read_bits(15) {
            Ok(x) => x,
            Err(e) => return Err(e),
        };
        let total = total16 as usize;
        let ghost start_pos = c2.position() as nat;
        let ghost total_n = total as nat;
        let start_rem = c2.bits_remaining();
        let mut cur = c2;
        let mut kids: Vec<Packet> = Vec::new();
        proof {
            assert(deep_view_seq(kids@) =~= Seq::<SpecPacket>::empty());
            match spec_parse_until(stream0, start_pos, start_pos, total_n) {
                Ok(r2) => {
                    assert(deep_view_seq(kids@) + r2.1 =~= r2.1);
                },
                Err(_) => {},
            }
        }
        while start_rem - cur.bits_remaining() < total
            invariant
                cur.wf(),
                cur.stream() == stream0,
                start_pos <= cur.position(),
                (match spec_parse_until(stream0, cur.position() as nat, start_pos, total_n) {
                    Ok(r2) => spec_parse_until(stream0, start_pos, start_pos, total_n) == Ok::<
                        (nat, Seq<SpecPacket>),
                        SpecError,
                    >((r2.0, deep_view_seq(kids@) + r2.1)),
                    Err(e) => spec_parse_until(stream0, start_pos, start_pos, total_n) == Err::<
                        (nat, Seq<SpecPacket>),
                        SpecError,
                    >(e),
                }),
            decreases stream0.len() - cur.position(),
        {
            let (c_next, pk) = match parse(cur) {
                Ok(x) => x,
                Err(e) => return Err(e),
            };
            proof {
                lemma_parse_packet_advances(stream0, cur.position() as nat);
                lemma_deep_view_seq_push(kids@, pk);
                match spec_parse_until(stream0, c_next.position() as nat, start_pos, total_n) {
                    Ok(r2) => {
                        assert(deep_view_seq(kids@) + (seq![pk.deep_view()] + r2.1)
                            =~= deep_view_seq(kids@.push(pk)) + r2.1);
                    },
                    Err(_) => {},
                }
            }
            kids.push(pk);
            cur = c_next;
        }
        let consumed = start_rem - cur.bits_remaining();
        if consumed > total {
            return Err(
                DecodeError::MalformedLength {
                    expected_total_bits: total,
                    actual_consumed: consumed,
                    offset: cur.position(),
                },
            );
        }
        proof {
            match spec_parse_until(stream0, cur.position() as nat, start_pos, total_n) {
                Ok(r2) => {
                    assert(deep_view_seq(kids@) + r2.1 =~= deep_view_seq(kids@));
                },
                Err(_) => {},
            }
        }
        match Operation::from_type_tag(type_tag) {
            Some(op) => Ok((cur, (kids, op))),
            None => Err(DecodeError::InvalidTypeTag { tag: type_tag, offset: cursor.position() }),
        }
    } else {
        let (c2, count16) = match c1.read_bits(11) {
            Ok(x) => x,
            Err(e) => return Err(e),
        };
        let count = count16 as usize;
        let ghost start_pos = c2.position() as nat;
        let mut cur = c2;
        let mut kids: Vec<Packet> = Vec::new();
        let mut done: usize = 0;
        proof {
            assert(deep_view_seq(kids@) =~= Seq::<SpecPacket>::empty());
            match spec_parse_children(stream0, start_pos, count as nat) {
                Ok(r2) => {
                    assert(deep_view_seq(kids@) + r2.1 =~= r2.1);
                },
                Err(_) => {},
            }
        }
        while done < count
            invariant
                cur.wf(),
                cur.stream() == stream0,
                done <= count,
                start_pos <= cur.position(),
                (match spec_parse_children(
                    stream0,
                    cur.position() as nat,
                    (count - done) as nat,
                ) {
                    Ok(r2) => spec_parse_children(stream0, start_pos, count as nat) == Ok::<
                        (nat, Seq<SpecPacket>),
                        SpecError,
                    >((r2.0, deep_view_seq(kids@) + r2.1)),
                    Err(e) => spec_parse_children(stream0, start_pos, count as nat) == Err::<
                        (nat, Seq<SpecPacket>),
                        SpecError,
                    >(e),
                }),
            decreases count - done,
        {
            let (c_next, pk) = match parse(cur) {
                Ok(x) => x,
                Err(e) => return Err(e),
            };
            proof {
                lemma_parse_packet_advances(stream0, cur.position() as nat);
                lemma_deep_view_seq_push(kids@, pk);
                match spec_parse_children(
                    stream0,
                    c_next.position() as nat,
                    (count - done - 1) as nat,
                ) {
                    Ok(r2) => {
                        assert(deep_view_seq(kids@) + (seq![pk.deep_view()] + r2.1)
                            =~= deep_view_seq(kids@.push(pk)) + r2.1);
                    },
                    Err(_) => {},
                }
            }
            kids.push(pk);
            cur = c_next;
            done = done + 1;
        }
        proof {
            match spec_parse_children(stream0, cur.position() as nat, 0) {
                Ok(r2) => {
                    assert(deep_view_seq(kids@) + r2.1 =~= deep_view_seq(kids@));
                },
                Err(_) => {},
            }
        }
        match Operation::from_type_tag(type_tag) {
            Some(op) => Ok((cur, (kids, op))),
            None => Err(DecodeError::InvalidTypeTag { tag: type_tag, offset: cursor.position() }),
        }
    }
}

} // verus!
