//! Worked examples for the packet decoder.

use submarine::packets::{bits_of, parse_input, Content, Packet};

fn decode(hex: &str) -> (Packet, usize) {
    let bits = bits_of(parse_input(&String::from(hex)).as_str()).unwrap();
    Packet::from_bin(&bits).unwrap()
}

#[test]
fn parseinput_literal() {
    assert_eq!(
        parse_input(&String::from("D2FE28")),
        String::from("110100101111111000101000")
    );
    assert_eq!(
        parse_input(&String::from("38006F45291200")),
        String::from("00111000000000000110111101000101001010010001001000000000")
    );
    assert_eq!(
        parse_input(&String::from("EE00D40C823060")),
        String::from("11101110000000001101010000001100100000100011000001100000")
    );
}

#[test]
fn packet_literal() {
    let (packet, end) = decode("D2FE28");
    assert_eq!(packet.version, 6);
    assert!(matches!(packet.op, Content::Literal(x) if x == 2021));
    assert!(
        end == 21,
        "Bad end return value, expected 21, got {end}\nfrom {:#?}",
        packet
    );

    assert!(
        packet.version_sum() == 6,
        "Bad sum of packet versions, for {:#?}",
        packet
    )
}

#[test]
fn packet_operator_length_type_0() {
    let (packet, _) = decode("38006F45291200");
    assert_eq!(packet.version, 1);

    if let Content::Operator(operation, ref sub_packets) = packet.op {
        assert_eq!(operation, 6);
        assert_eq!(sub_packets.len(), 2);

        assert_eq!(sub_packets[0].version, 6);
        assert!(matches!(sub_packets[0].op, Content::Literal(x) if x == 10));

        assert_eq!(sub_packets[1].version, 2);
        assert!(matches!(sub_packets[1].op, Content::Literal(x) if x == 20));
    } else {
        panic!("Got bad op {:?}, failing!", packet.op);
    }

    assert!(
        packet.version_sum() == 9,
        "Bad sum of packet versions, for {:#?}",
        packet
    )
}

#[test]
fn packet_operator_length_type_1() {
    let (packet, _) = decode("EE00D40C823060");

    assert_eq!(packet.version, 7);
    if let Content::Operator(operation, ref sub_packets) = packet.op {
        assert!(
            operation == 3,
            "Incorrect operation value, got {}",
            operation
        );

        assert!(
            sub_packets.len() == 3,
            "Incorrect number of sub_packets, got {:#?}",
            sub_packets
        );

        assert!(
            sub_packets[0].version == 2,
            "Incorrect version in first subpacket, got {:#?}",
            sub_packets
        );
        assert!(
            matches!(sub_packets[0].op, Content::Literal(x) if x == 1),
            "Incorrect literal value in first subpacket, got {:#?}",
            sub_packets
        );

        assert!(
            sub_packets[1].version == 4,
            "Incorrect version in second subpacket, got {:#?}",
            sub_packets
        );
        assert!(
            matches!(sub_packets[1].op, Content::Literal(x) if x == 2),
            "Incorrect Content in second subpacket, got {:#?}",
            sub_packets
        );

        assert!(
            sub_packets[2].version == 1,
            "Incorrect version in second subpacket, got {:#?}",
            sub_packets
        );
        assert!(
            matches!(sub_packets[2].op, Content::Literal(x) if x == 3),
            "Incorrect Content in third subpacket, got {:#?}",
            sub_packets
        );
    } else {
        panic!("Got bad op {:#?}, failing!", packet.op);
    }

    assert!(
        packet.version_sum() == 14,
        "Bad sum of packet versions, for {:#?}",
        packet
    )
}

#[test]
fn nested_operator_3_deep() {
    let (packet, _) = decode("8A004A801A8002F478");

    assert!(
        packet.version == 4,
        "bad version, got {}\n for{:#?}",
        packet.version,
        packet,
    );

    if let Content::Operator(_operation, ref sub_packets) = packet.op {
        assert!(
            sub_packets.len() == 1,
            "Bad subpacket length, got {}\nfor{:#?}",
            sub_packets.len(),
            sub_packets,
        );
        if let Content::Operator(_operation2, ref sub_packets2) = sub_packets[0].op {
            assert_eq!(sub_packets2.len(), 1);
            assert_eq!(sub_packets2[0].version, 5);

            if let Content::Operator(_operation3, ref sub_packets3) = sub_packets2[0].op {
                assert_eq!(sub_packets3[0].version, 6);
                assert!(
                    std::mem::discriminant(&sub_packets3[0].op)
                        == std::mem::discriminant(&Content::Literal(0)),
                    "Unexpected innermost packet type, Expected Content::Literal, got\n{:#?}",
                    sub_packets3[0]
                );
            } else {
                panic!(
                    "subpacket did not have a subpacket as expected, got {:#?}",
                    sub_packets2[0]
                );
            }
        } else {
            panic!(
                "subpacket did not have a subpacket as expected, got {:#?}",
                sub_packets[0]
            );
        }
    } else {
        panic!(
            "Outer Packet expected to contain operator! got {:#?}",
            packet
        );
    }

    assert_eq!(packet.version_sum(), 16);
}

#[test]
fn nested_operators_3deep_2wide() {
    let (packet, _) = decode("620080001611562C8802118E34");
    assert_eq!(packet.version_sum(), 12);
}

#[test]
fn nested_operators_3deep_2pair_2wide_differing_type_id() {
    let (packet, end) = decode("C0015000016115A2E0802F182340");
    assert_eq!(packet.version_sum(), 23);
    assert!(
        end == 106,
        "End of Package mismatch. expected 106, got {end}"
    );
}

#[test]
fn nested_operators_3deep_5wide() {
    let (packet, end) = decode("A0016C880162017C3686B18A3D4780");
    assert_eq!(packet.version_sum(), 31);
    assert!(
        end == 113,
        "End of Package mismatch. expected 106, got {end}"
    );
}

#[test]
fn packet_sum() {
    let (packet, _end) = decode("C200B40A82");
    assert_eq!(packet.execute(), 3u64);
}

#[test]
fn packet_product() {
    let (packet, _end) = decode("04005AC33890");
    assert_eq!(packet.execute(), 54u64);
}

#[test]
fn packet_min() {
    let (packet, _end) = decode("880086C3E88112");
    assert_eq!(packet.execute(), 7u64);
}

#[test]
fn packet_max() {
    let (packet, _end) = decode("CE00C43D881120");
    assert_eq!(packet.execute(), 9u64);
}

#[test]
fn packet_lessthan() {
    let (packet, _end) = decode("D8005AC2A8F0");
    assert_eq!(packet.execute(), 1u64);
}

#[test]
fn packet_greaterthan() {
    let (packet, _end) = decode("F600BC2D8F");
    assert_eq!(packet.execute(), 0u64);
}

#[test]
fn packet_equalto() {
    let (packet, _end) = decode("9C005AC2F8F0");
    assert_eq!(packet.execute(), 0u64);
}

#[test]
fn packet_equalto_2deep_2pair() {
    let (packet, _end) = decode("9C0141080250320F1802104A08");
    assert_eq!(packet.execute(), 1u64);
}
