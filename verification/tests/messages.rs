use packets::packetable::join_payloads;
use packets::{Packet, PacketError, PacketSerializer, Packetable};

#[test]
fn hello_survives_a_large_bound() {
    let text = String::from("hello");
    let data = text.to_packet_data(100);
    assert_eq!(data, vec![1, 5, 104, 101, 108, 108, 111, 0, 0, 2, 20]);
    assert_eq!(String::from_packet_data(&data), Ok(text));
}

#[test]
fn text_survives_every_bound() {
    let text = String::from("The quick brown fox — ᾠ ᾡ ᾢ — адяявея, 12124; 🦀!");
    for size in 1..=255u8 {
        let data = text.to_packet_data(size);
        assert_eq!(String::from_packet_data(&data).as_ref(), Ok(&text));
    }
}

#[test]
fn long_text_survives_every_bound() {
    let text: String = "żółw 🐢 ".repeat(100);
    for size in 1..=255u8 {
        let data = text.to_packet_data(size);
        let frames = (text.len() + size as usize - 1) / size as usize;
        assert_eq!(data.len(), text.len() + 6 * frames);
        assert_eq!(String::from_packet_data(&data).as_ref(), Ok(&text));
    }
}

#[test]
fn empty_text_has_no_frames() {
    let text = String::new();
    assert!(text.to_packets(3).next().is_none());
    assert!(text.to_packets(3).collect().is_empty());
    assert!(text.to_packet_data(3).is_empty());
    assert!(text.to_packet_data(0).is_empty());
    assert_eq!(String::from_packet_data(&[]), Ok(String::new()));
}

#[test]
fn packet_data_is_the_frames_in_order() {
    let data = String::from("rbcd").to_packet_data(3);
    assert_eq!(data, vec![1, 3, 114, 98, 99, 0, 0, 1, 55, 1, 1, 100, 0, 0, 0, 100]);
}

#[test]
fn frames_partition_the_buffer() {
    let source: Vec<u8> = (0..=255u8).cycle().take(1000).collect();
    for size in [1u8, 2, 3, 7, 64, 254, 255] {
        let packets = PacketSerializer::new(&source, size).collect();
        assert_eq!(packets.len(), (source.len() + size as usize - 1) / size as usize);
        let mut joined: Vec<u8> = Vec::new();
        for (index, packet) in packets.iter().enumerate() {
            if index + 1 < packets.len() {
                assert_eq!(packet.payload().len(), size as usize);
            } else {
                assert!(packet.payload().len() >= 1 && packet.payload().len() <= size as usize);
            }
            joined.extend_from_slice(packet.payload());
        }
        assert_eq!(joined, source);
    }
}

#[test]
fn stepping_yields_each_frame_once() {
    let text = String::from("asdf");
    let mut serializer = text.to_packets(3);
    let first = serializer.next().unwrap();
    assert_eq!(first.payload(), b"asd");
    assert_eq!(first.serialize(), vec![1, 3, 97, 115, 100, 0, 0, 1, 56]);
    let second = serializer.next().unwrap();
    assert_eq!(second.payload(), b"f");
    assert!(serializer.next().is_none());
    assert!(serializer.next().is_none());
}

#[test]
fn stepping_and_collecting_agree() {
    let text = String::from("messageсда");
    let collected = text.to_packets(4).collect();
    let mut serializer = text.to_packets(4);
    let mut stepped: Vec<Packet> = Vec::new();
    while let Some(packet) = serializer.next() {
        stepped.push(packet);
    }
    assert_eq!(collected, stepped);
    assert_eq!(collected.len(), 4);
}

#[test]
fn joined_payloads_are_the_content() {
    let content: Vec<u8> = (0..=255u8).rev().collect();
    let mut data: Vec<u8> = Vec::new();
    for packet in PacketSerializer::new(&content, 50).collect() {
        data.extend(packet.serialize());
    }
    assert_eq!(join_payloads(&data), Ok(content));
}

#[test]
fn payloads_that_are_not_text_are_corrupted() {
    let (packet, _) = Packet::from_source(&[0xff], 1);
    let data = packet.serialize();
    assert_eq!(join_payloads(&data), Ok(vec![0xff]));
    assert_eq!(String::from_packet_data(&data), Err(PacketError::CorruptedMessage));
}

#[test]
fn dropped_frame_inside_a_character_is_corrupted() {
    let text = String::from("дя");
    let data = text.to_packet_data(1);
    assert_eq!(data.len(), 4 * 7);
    assert_eq!(String::from_packet_data(&data[7..]), Err(PacketError::CorruptedMessage));
    assert_eq!(String::from_packet_data(&data[14..]), Ok(String::from("я")));
}

#[test]
fn joined_bytes_become_the_text_they_encode() {
    let (packet, _) = Packet::from_source(&[0xd0, 0xb4, 0x21], 3);
    assert_eq!(String::from_packet_data(&packet.serialize()), Ok(String::from("д!")));
}

#[test]
fn first_failing_frame_decides() {
    let text = String::from("abcdefgh");
    let data = text.to_packet_data(4);
    assert_eq!(data.len(), 20);

    let mut bad_second_version = data.clone();
    bad_second_version[10] = 9;
    assert_eq!(
        String::from_packet_data(&bad_second_version),
        Err(PacketError::UnknownProtocolVersion)
    );

    let mut bad_both = data.clone();
    bad_both[2] ^= 1;
    bad_both[10] = 9;
    assert_eq!(String::from_packet_data(&bad_both), Err(PacketError::InvalidChecksum));

    assert_eq!(String::from_packet_data(&data[..19]), Err(PacketError::InvalidPacket));
    assert_eq!(String::from_packet_data(&data[..13]), Err(PacketError::InvalidPacket));
}

#[test]
fn frame_error_wins_over_bad_text() {
    let (bad_text, _) = Packet::from_source(&[0xff], 1);
    let mut data = bad_text.serialize();
    data.extend_from_slice(&[1, 0, 0, 0, 0, 1]);
    assert_eq!(String::from_packet_data(&data), Err(PacketError::InvalidChecksum));
}
