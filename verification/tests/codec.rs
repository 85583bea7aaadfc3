use utp::packet::{Extension, ExtensionType, Packet, PacketType, HEADER_SIZE};

#[test]
fn round_trips_a_bare_header() {
    let mut packet = Packet::new();
    packet.set_type(PacketType::State);
    packet.set_connection_id(0x1234);
    packet.set_timestamp_microseconds(0xDEADBEEF);
    packet.set_timestamp_difference_microseconds(77);
    packet.set_wnd_size(1500);
    packet.set_seq_nr(400);
    packet.set_ack_nr(65535);

    let bytes = packet.bytes();
    assert_eq!(bytes.len(), HEADER_SIZE);
    assert_eq!(bytes[0], 0x21);

    let back = Packet::decode(&bytes).expect("a bare header decodes");
    assert_eq!(back.get_type(), PacketType::State);
    assert_eq!(back.connection_id(), 0x1234);
    assert_eq!(back.timestamp_microseconds(), 0xDEADBEEF);
    assert_eq!(back.timestamp_difference_microseconds(), 77);
    assert_eq!(back.wnd_size(), 1500);
    assert_eq!(back.seq_nr(), 400);
    assert_eq!(back.ack_nr(), 65535);
    assert!(back.payload.is_empty());
    assert!(back.extensions.is_empty());
}

#[test]
fn round_trips_extensions_and_payload() {
    let mut packet = Packet::new();
    packet.set_type(PacketType::Data);
    packet.set_connection_id(9);
    packet.set_seq_nr(3);
    packet.set_ack_nr(2);
    packet.set_sack(Some(vec![12, 0, 0, 0]));
    packet.extensions.push(Extension { ty: 0xCC, data: vec![7, 8] });
    packet.payload = vec![1, 2, 3, 4, 5];

    let bytes = packet.bytes();
    assert_eq!(bytes.len(), HEADER_SIZE + (2 + 4) + (2 + 2) + 5);
    // the second header byte names the first extension of the chain
    assert_eq!(bytes[1], 1);

    let back = Packet::decode(&bytes).expect("well-formed packet decodes");
    assert_eq!(back.extensions.len(), 2);
    assert_eq!(back.extensions[0].ty, 1);
    assert_eq!(back.extensions[0].get_type(), ExtensionType::SelectiveAck);
    assert_eq!(back.extensions[0].data, vec![12, 0, 0, 0]);
    assert_eq!(back.extensions[1].ty, 0xCC);
    assert_eq!(back.extensions[1].get_type(), ExtensionType::Unknown);
    assert_eq!(back.extensions[1].data, vec![7, 8]);
    assert_eq!(back.payload, vec![1, 2, 3, 4, 5]);
    assert_eq!(back.seq_nr(), 3);
    assert_eq!(back.ack_nr(), 2);

    // bit-exact round trip of the wire form too
    assert_eq!(back.bytes(), bytes);
}

#[test]
fn decodes_a_live_syn_capture() {
    let raw = [
        0x41, 0x00, 0x41, 0xa7, 0x00, 0x00, 0x00, 0x27, 0x00, 0x00, 0x00, 0x00, 0x00, 0x10, 0x00,
        0x00, 0x3a, 0xf1, 0x00, 0x00,
    ];
    let packet = Packet::decode(&raw).expect("capture decodes");
    assert_eq!(packet.get_type(), PacketType::Syn);
    assert_eq!(packet.connection_id(), 0x41a7);
    assert_eq!(packet.timestamp_microseconds(), 0x27);
    assert_eq!(packet.wnd_size(), 0x100000);
    assert_eq!(packet.seq_nr(), 0x3af1);
    assert_eq!(packet.ack_nr(), 0);
    assert!(packet.extensions.is_empty());
    assert!(packet.payload.is_empty());
    assert_eq!(packet.bytes(), raw.to_vec());
}

#[test]
fn rejects_malformed_wire_forms() {
    // too short for a header
    assert!(Packet::decode(&[0u8; 19]).is_none());
    // wrong version nibble
    let mut bad_version = [0u8; 20];
    bad_version[0] = 0x02;
    assert!(Packet::decode(&bad_version).is_none());
    // unknown type code in the upper nibble
    let mut bad_type = [0u8; 20];
    bad_type[0] = 0x51;
    assert!(Packet::decode(&bad_type).is_none());
    // extension chain running past the end of the datagram
    let mut bad_ext = [0u8; 22];
    bad_ext[0] = 0x01;
    bad_ext[1] = 1; // first extension tag
    bad_ext[20] = 0; // no further extension
    bad_ext[21] = 200; // claims 200 data bytes that are not there
    assert!(Packet::decode(&bad_ext).is_none());
}

#[test]
fn selective_ack_bits_read_in_little_endian_order() {
    let ext = Extension { ty: 1, data: vec![12, 0, 0, 0] };
    assert_eq!(ext.bit_count(), 32);
    let set: Vec<usize> = (0..32).filter(|&i| ext.bit_at(i)).collect();
    assert_eq!(set, vec![2, 3]);
}

#[test]
fn wire_length_counts_header_extensions_and_payload() {
    let mut packet = Packet::new();
    assert_eq!(packet.len(), HEADER_SIZE);
    packet.payload = vec![0; 100];
    packet.set_sack(Some(vec![0, 0, 0, 0]));
    assert_eq!(packet.len(), HEADER_SIZE + 100 + 6);
    assert!(packet.check_wire_size());
    packet.extensions.push(Extension { ty: 0, data: vec![] });
    assert!(!packet.check_wire_size());
}
