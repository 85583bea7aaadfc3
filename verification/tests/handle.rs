use utp::packet::{Packet, PacketType};
use utp::socket::UtpSocket;
use utp::BUF_SIZE;

#[test]
fn test_handle_packet() {
    let initial_connection_id: u16 = rand::random();
    let sender_connection_id = initial_connection_id.wrapping_add(1);
    let mut socket = UtpSocket::bind();

    let mut packet = Packet::new();
    packet.set_wnd_size(BUF_SIZE as u32);
    packet.set_type(PacketType::Syn);
    packet.set_connection_id(initial_connection_id);

    // Do we have a response?
    let response = socket.handle_packet(&packet, 1_000);
    assert!(response.is_ok());
    let response = response.unwrap();
    assert!(response.is_some());

    // Is is of the correct type?
    let response = response.unwrap();
    assert!(response.get_type() == PacketType::State);

    // Same connection id on both ends during connection establishment
    assert!(response.connection_id() == packet.connection_id());

    // Response acknowledges SYN
    assert!(response.ack_nr() == packet.seq_nr());

    // No payload?
    assert!(response.payload.is_empty());

    let old_packet = packet;
    let old_response = response;

    let mut packet = Packet::new();
    packet.set_type(PacketType::Data);
    packet.set_connection_id(sender_connection_id);
    packet.set_seq_nr(old_packet.seq_nr() + 1);
    packet.set_ack_nr(old_response.seq_nr());

    let response = socket.handle_packet(&packet, 2_000);
    assert!(response.is_ok());
    let response = response.unwrap();
    assert!(response.is_some());

    let response = response.unwrap();
    assert!(response.get_type() == PacketType::State);

    // Sender (i.e., who initated connection and sent SYN) has connection id
    // equal to initial connection id + 1
    // Receiver (i.e., who accepted connection) has connection id equal to
    // initial connection id
    assert!(response.connection_id() == initial_connection_id);
    assert!(response.connection_id() == packet.connection_id().wrapping_sub(1));

    // Previous packets should be ack'ed
    assert!(response.ack_nr() == packet.seq_nr());

    // Responses with no payload should not increase the sequence number
    assert!(response.payload.is_empty());
    assert!(response.seq_nr() == old_response.seq_nr());

    let old_packet = packet;
    let old_response = response;

    let mut packet = Packet::new();
    packet.set_type(PacketType::Fin);
    packet.set_connection_id(sender_connection_id);
    packet.set_seq_nr(old_packet.seq_nr() + 1);
    packet.set_ack_nr(old_response.seq_nr());

    let response = socket.handle_packet(&packet, 3_000);
    assert!(response.is_ok());
    let response = response.unwrap();
    assert!(response.is_some());

    let response = response.unwrap();

    assert!(response.get_type() == PacketType::State);

    // FIN packets have no payload but the sequence number shouldn't increase
    assert!(packet.seq_nr() == old_packet.seq_nr() + 1);

    // Nor should the ACK packet's sequence number
    assert!(response.seq_nr() == old_response.seq_nr());

    // FIN should be acknowledged
    assert!(response.ack_nr() == packet.seq_nr());
}

#[test]
fn test_response_to_keepalive_ack() {
    // Boilerplate test setup
    let initial_connection_id: u16 = rand::random();
    let mut socket = UtpSocket::bind();

    // Establish connection
    let mut packet = Packet::new();
    packet.set_wnd_size(BUF_SIZE as u32);
    packet.set_type(PacketType::Syn);
    packet.set_connection_id(initial_connection_id);

    let response = socket.handle_packet(&packet, 1_000);
    assert!(response.is_ok());
    let response = response.unwrap();
    assert!(response.is_some());
    let response = response.unwrap();
    assert!(response.get_type() == PacketType::State);

    let old_packet = packet;
    let old_response = response;

    // Now, send a keepalive packet
    let mut packet = Packet::new();
    packet.set_wnd_size(BUF_SIZE as u32);
    packet.set_type(PacketType::State);
    packet.set_connection_id(initial_connection_id);
    packet.set_seq_nr(old_packet.seq_nr() + 1);
    packet.set_ack_nr(old_response.seq_nr());

    let response = socket.handle_packet(&packet, 2_000);
    assert!(response.is_ok());
    let response = response.unwrap();
    assert!(response.is_none());

    // Send a second keepalive packet, identical to the previous one
    let response = socket.handle_packet(&packet, 3_000);
    assert!(response.is_ok());
    let response = response.unwrap();
    assert!(response.is_none());
}

#[test]
fn test_response_to_wrong_connection_id() {
    // Boilerplate test setup
    let initial_connection_id: u16 = rand::random();
    let mut socket = UtpSocket::bind();

    // Establish connection
    let mut packet = Packet::new();
    packet.set_wnd_size(BUF_SIZE as u32);
    packet.set_type(PacketType::Syn);
    packet.set_connection_id(initial_connection_id);

    let response = socket.handle_packet(&packet, 1_000);
    assert!(response.is_ok());
    let response = response.unwrap();
    assert!(response.is_some());
    assert!(response.unwrap().get_type() == PacketType::State);

    // Now, disrupt connection with a packet with an incorrect connection id
    let new_connection_id = initial_connection_id.wrapping_mul(2);

    let mut packet = Packet::new();
    packet.set_wnd_size(BUF_SIZE as u32);
    packet.set_type(PacketType::State);
    packet.set_connection_id(new_connection_id);

    let response = socket.handle_packet(&packet, 2_000);
    assert!(response.is_ok());
    let response = response.unwrap();
    assert!(response.is_some());

    let response = response.unwrap();
    assert!(response.get_type() == PacketType::Reset);
    assert!(response.ack_nr() == packet.seq_nr());
}

#[test]
fn test_unordered_packets() {
    // Boilerplate test setup
    let initial_connection_id: u16 = rand::random();
    let mut socket = UtpSocket::bind();

    // Establish connection
    let mut packet = Packet::new();
    packet.set_wnd_size(BUF_SIZE as u32);
    packet.set_type(PacketType::Syn);
    packet.set_connection_id(initial_connection_id);

    let response = socket.handle_packet(&packet, 1_000);
    assert!(response.is_ok());
    let response = response.unwrap();
    assert!(response.is_some());
    let response = response.unwrap();
    assert!(response.get_type() == PacketType::State);

    let old_packet = packet;
    let old_response = response;

    let mut window: Vec<Packet> = Vec::new();

    let mut packet = Packet::new();
    packet.set_wnd_size(BUF_SIZE as u32);
    packet.set_type(PacketType::Data);
    packet.set_connection_id(initial_connection_id);
    packet.set_seq_nr(old_packet.seq_nr() + 1);
    packet.set_ack_nr(old_response.seq_nr());
    packet.payload = vec![1, 2, 3];
    window.push(packet);

    let mut packet = Packet::new();
    packet.set_wnd_size(BUF_SIZE as u32);
    packet.set_type(PacketType::Data);
    packet.set_connection_id(initial_connection_id);
    packet.set_seq_nr(old_packet.seq_nr() + 2);
    packet.set_ack_nr(old_response.seq_nr());
    packet.payload = vec![4, 5, 6];
    window.push(packet);

    // Send packets in reverse order
    let response = socket.handle_packet(&window[1], 2_000);
    assert!(response.is_ok());
    let response = response.unwrap();
    assert!(response.is_some());
    let response = response.unwrap();
    assert!(response.ack_nr() != window[1].seq_nr());

    let response = socket.handle_packet(&window[0], 3_000);
    assert!(response.is_ok());
    let response = response.unwrap();
    assert!(response.is_some());
}

#[test]
fn test_sorted_buffer_insertion() {
    let mut socket = UtpSocket::bind();

    let mut packet = Packet::new();
    packet.set_seq_nr(1);

    assert!(socket.incoming_buffer.is_empty());

    socket.insert_into_buffer(packet.clone());
    assert_eq!(socket.incoming_buffer.len(), 1);

    packet.set_seq_nr(2);
    packet.set_timestamp_microseconds(128);

    socket.insert_into_buffer(packet.clone());
    assert_eq!(socket.incoming_buffer.len(), 2);
    assert_eq!(socket.incoming_buffer[1].seq_nr(), 2);
    assert_eq!(socket.incoming_buffer[1].timestamp_microseconds(), 128);

    packet.set_seq_nr(3);
    packet.set_timestamp_microseconds(256);

    socket.insert_into_buffer(packet.clone());
    assert_eq!(socket.incoming_buffer.len(), 3);
    assert_eq!(socket.incoming_buffer[2].seq_nr(), 3);
    assert_eq!(socket.incoming_buffer[2].timestamp_microseconds(), 256);

    // Replace a packet with a more recent version
    packet.set_seq_nr(2);
    packet.set_timestamp_microseconds(456);

    socket.insert_into_buffer(packet.clone());
    assert_eq!(socket.incoming_buffer.len(), 3);
    assert_eq!(socket.incoming_buffer[1].seq_nr(), 2);
    assert_eq!(socket.incoming_buffer[1].timestamp_microseconds(), 456);
}
