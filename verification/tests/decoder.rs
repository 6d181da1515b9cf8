use bits_decoder::BitCursor;
use bits_decoder::DecodeError;
use bits_decoder::Header;
use bits_decoder::Operation;
use bits_decoder::Packet;
use bits_decoder::bits_from_ascii;
use bits_decoder::bits_from_bytes;
use bits_decoder::from_nibble;
use bits_decoder::parse;
use bits_decoder::read_header;
use bits_decoder::read_literal;
use bits_decoder::read_operator;

/// The literal grouping rule in plain form: 5-bit groups, most significant
/// nibble first, continuation bit 0 on the last group.
fn literal_bit_string(v: u64) -> String {
    let mut digits = Vec::new();
    let mut x = v;
    loop {
        digits.push((x % 16) as u8);
        x /= 16;
        if x == 0 {
            break;
        }
    }
    digits.reverse();
    let mut s = String::new();
    for (i, d) in digits.iter().enumerate() {
        s.push(if i + 1 == digits.len() { '0' } else { '1' });
        for k in (0..4).rev() {
            s.push(if (d >> k) & 1 == 1 { '1' } else { '0' });
        }
    }
    s
}

#[test]
fn test_take_bit() {
    let bits = bits_from_bytes(&[0b10101010]);
    let input = BitCursor::new(&bits);
    let (input, first_bit) = input.read_bits(1).unwrap();
    assert_eq!(first_bit, 1); // First bit is 1
    let (_input, second_bit) = input.read_bits(1).unwrap();
    assert_eq!(second_bit, 0); // Second bit is 0
}

#[test]
fn test_take_nibble() {
    let bits = bits_from_bytes(&[0b1010_1111]);
    let input = BitCursor::new(&bits);
    let (_input, actual_nibble) = input.read_bits(4).unwrap();
    let expected_nibble = 0b1010;
    assert_eq!(actual_nibble, expected_nibble);
}

#[test]
fn test_parse_literal_packet() {
    let expected = Packet::Literal { version: 6, value: 2021 };
    let bits = bits_from_ascii("110100101111111000101000".as_bytes()).unwrap();
    let actual = parse(BitCursor::new(&bits)).unwrap().1;
    assert_eq!(actual, expected);
}

#[test]
fn test_parse_recursive_packet() {
    let expected = Packet::Operator {
        version: 1,
        type_id: Operation::Less,
        subpackets: vec![
            Packet::Literal { version: 6, value: 10 },
            Packet::Literal { version: 2, value: 20 },
        ],
    };
    let bits =
        bits_from_ascii("00111000000000000110111101000101001010010001001000000000".as_bytes())
            .unwrap();
    let actual = parse(BitCursor::new(&bits)).unwrap().1;
    assert_eq!(actual, expected)
}

#[test]
fn test_parse_header() {
    let expected = Header { version: 6, type_id: 4 };
    let bits = bits_from_ascii("110100101111111000101000".as_bytes()).unwrap();
    let actual = read_header(BitCursor::new(&bits)).unwrap().1;
    assert_eq!(actual, expected);
}

#[test]
fn test_header_round_trip_all_fields() {
    for version in 0u8..8 {
        for type_id in 0u8..8 {
            let text = format!("{:03b}{:03b}", version, type_id);
            let bits = bits_from_ascii(text.as_bytes()).unwrap();
            let (rest, header) = read_header(BitCursor::new(&bits)).unwrap();
            assert_eq!(header, Header { version, type_id });
            assert_eq!(rest.position(), 6);
        }
    }
}

#[test]
fn test_literal_round_trip_values() {
    for v in [0u64, 1, 15, 16, 255, 2021, 0xdead_beef, u64::MAX] {
        let text = literal_bit_string(v);
        let bits = bits_from_ascii(text.as_bytes()).unwrap();
        let (rest, value) = read_literal(BitCursor::new(&bits)).unwrap();
        assert_eq!(value, v);
        assert_eq!(rest.position(), text.len());
        assert_eq!(text.len() % 5, 0);
    }
}

#[test]
fn test_literal_wraps_past_64_bits() {
    // 17 groups spell 16^16 == 2^64, which wraps to 0 in the 64-bit value.
    let mut text = String::from("10001");
    for _ in 0..15 {
        text.push_str("10000");
    }
    text.push_str("00000");
    let bits = bits_from_ascii(text.as_bytes()).unwrap();
    let (rest, value) = read_literal(BitCursor::new(&bits)).unwrap();
    assert_eq!(value, 0);
    assert_eq!(rest.position(), 85);
}

#[test]
fn test_count_mode_packet() {
    // Version 7, operation Max, count mode with three literal children.
    let bits = bits_from_bytes(&[0xEE, 0x00, 0xD4, 0x0C, 0x82, 0x30, 0x60]);
    let expected = Packet::Operator {
        version: 7,
        type_id: Operation::Max,
        subpackets: vec![
            Packet::Literal { version: 2, value: 1 },
            Packet::Literal { version: 4, value: 2 },
            Packet::Literal { version: 1, value: 3 },
        ],
    };
    let actual = parse(BitCursor::new(&bits)).unwrap().1;
    assert_eq!(actual, expected);
}

#[test]
fn test_nested_operators() {
    // An operator whose only child is an operator whose only child is an
    // operator holding one literal.
    let bits = bits_from_bytes(&[0x8A, 0x00, 0x4A, 0x80, 0x1A, 0x80, 0x02, 0xF4, 0x78]);
    let expected = Packet::Operator {
        version: 4,
        type_id: Operation::Min,
        subpackets: vec![Packet::Operator {
            version: 1,
            type_id: Operation::Min,
            subpackets: vec![Packet::Operator {
                version: 5,
                type_id: Operation::Min,
                subpackets: vec![Packet::Literal { version: 6, value: 15 }],
            }],
        }],
    };
    let actual = parse(BitCursor::new(&bits)).unwrap().1;
    assert_eq!(actual, expected);
}

#[test]
fn test_total_length_consumption() {
    // Header (6) + mode bit (1) + length field (15) + declared 27 bits of
    // children: exactly 49 bits consumed, 7 pad bits left.
    let bits =
        bits_from_ascii("00111000000000000110111101000101001010010001001000000000".as_bytes())
            .unwrap();
    let (rest, _) = parse(BitCursor::new(&bits)).unwrap();
    assert_eq!(rest.position(), 49);
    assert_eq!(rest.bits_remaining(), 7);
}

#[test]
fn test_literal_packet_consumption() {
    let bits = bits_from_ascii("110100101111111000101000".as_bytes()).unwrap();
    let (rest, _) = parse(BitCursor::new(&bits)).unwrap();
    assert_eq!(rest.position(), 21);
    assert_eq!(rest.bits_remaining(), 3);
}

#[test]
fn test_insufficient_bits_empty_input() {
    let bits = bits_from_ascii("".as_bytes()).unwrap();
    let err = parse(BitCursor::new(&bits)).unwrap_err();
    assert_eq!(err, DecodeError::InsufficientBits { requested: 3, available: 0, offset: 0 });
}

#[test]
fn test_insufficient_bits_short_header() {
    // Five bits: the version is read, the type tag falls short.
    let bits = bits_from_ascii("10101".as_bytes()).unwrap();
    let err = read_header(BitCursor::new(&bits)).unwrap_err();
    assert_eq!(err, DecodeError::InsufficientBits { requested: 3, available: 2, offset: 3 });
}

#[test]
fn test_insufficient_bits_in_literal() {
    // A literal whose group is cut off after the continuation bit.
    let bits = bits_from_ascii("11010010".as_bytes()).unwrap();
    let err = parse(BitCursor::new(&bits)).unwrap_err();
    assert_eq!(err, DecodeError::InsufficientBits { requested: 4, available: 1, offset: 7 });
}

#[test]
fn test_malformed_length() {
    // An operator declares 10 bits of children, but its first child is an
    // 11-bit literal: the child boundary misses the declared total.
    let bits = bits_from_ascii("000000000000000000101000010000000".as_bytes()).unwrap();
    let err = parse(BitCursor::new(&bits)).unwrap_err();
    assert_eq!(
        err,
        DecodeError::MalformedLength { expected_total_bits: 10, actual_consumed: 11, offset: 33 }
    );
}

#[test]
fn test_invalid_type_tag() {
    // The operator reader maps the tag only after the children; a tag
    // outside the table degrades to the named error.
    let bits = bits_from_ascii("100000000000".as_bytes()).unwrap();
    let err = read_operator(BitCursor::new(&bits), 9).unwrap_err();
    assert_eq!(err, DecodeError::InvalidTypeTag { tag: 9, offset: 0 });
}

#[test]
fn test_operation_mapping() {
    assert_eq!(Operation::from_type_tag(0), Some(Operation::Sum));
    assert_eq!(Operation::from_type_tag(1), Some(Operation::Product));
    assert_eq!(Operation::from_type_tag(2), Some(Operation::Min));
    assert_eq!(Operation::from_type_tag(3), Some(Operation::Max));
    assert_eq!(Operation::from_type_tag(4), None);
    assert_eq!(Operation::from_type_tag(5), Some(Operation::Greater));
    assert_eq!(Operation::from_type_tag(6), Some(Operation::Less));
    assert_eq!(Operation::from_type_tag(7), Some(Operation::Equal));
    assert_eq!(Operation::from_type_tag(8), None);
    assert_eq!(Operation::from_type_tag(255), None);
}

#[test]
fn test_from_nibble() {
    assert_eq!(from_nibble((0, 15)), 15);
    assert_eq!(from_nibble((1, 2)), 32);
    assert_eq!(from_nibble((3, 5)), 5 * 16 * 16 * 16);
    assert_eq!(from_nibble((15, 15)), 15 << 60);
}

#[test]
fn test_children_decode_from_sub_slices() {
    // In total-length mode the children of an operator decode identically
    // when each child's bit span is taken out and decoded on its own.
    let text = "00111000000000000110111101000101001010010001001000000000";
    let bits = bits_from_ascii(text.as_bytes()).unwrap();
    let whole = parse(BitCursor::new(&bits)).unwrap().1;
    let subpackets = match whole {
        Packet::Operator { subpackets, .. } => subpackets,
        _ => panic!("expected an operator"),
    };
    // The children start after the 22-bit preamble and span 11 and 16 bits.
    let first = bits_from_ascii(text[22..33].as_bytes()).unwrap();
    let second = bits_from_ascii(text[33..49].as_bytes()).unwrap();
    let (rest1, child1) = parse(BitCursor::new(&first)).unwrap();
    let (rest2, child2) = parse(BitCursor::new(&second)).unwrap();
    assert_eq!(vec![child1, child2], subpackets);
    assert_eq!(rest1.bits_remaining(), 0);
    assert_eq!(rest2.bits_remaining(), 0);
}

#[test]
fn test_bits_from_bytes_unpacks_msb_first() {
    assert_eq!(bits_from_bytes(&[0b1011_0000]), vec![1, 0, 1, 1, 0, 0, 0, 0]);
    assert_eq!(bits_from_bytes(&[0xFF, 0x00]).len(), 16);
    assert_eq!(bits_from_bytes(&[]), Vec::<u8>::new());
}

#[test]
fn test_bits_from_ascii_accepts_only_binary_text() {
    assert_eq!(bits_from_ascii("0110".as_bytes()), Some(vec![0, 1, 1, 0]));
    assert_eq!(bits_from_ascii("0102".as_bytes()), None);
    assert_eq!(bits_from_ascii(" 01".as_bytes()), None);
}
