use utp::packet::{Packet, PacketType};
use utp::socket::{SocketError, SocketState, UtpSocket, FAST_RESEND_COUNT, INITIAL_CONGESTION_TIMEOUT};
use utp::BUF_SIZE;

/// One direction of the simulated network: encoded datagrams in flight.
type Wire = Vec<Vec<u8>>;

/// Encodes and transmits every queued packet the inflight budget admits.
fn transmit_ready(sock: &mut UtpSocket, now: u32, wire: &mut Wire) {
    while sock.can_transmit_next() {
        let p = sock.take_next_for_transmit(now);
        wire.push(p.bytes());
    }
}

/// Hands one datagram to a socket, as a blocking receive would: replies and
/// retransmissions go out on `reverse`, delivered stream bytes onto `read`.
fn deliver(
    sock: &mut UtpSocket,
    datagram: &[u8],
    now: u32,
    reverse: &mut Wire,
    read: &mut Vec<u8>,
) -> Result<(), SocketError> {
    sock.recv_gate()?;
    let packet = Packet::decode(datagram).expect("datagram decodes");
    assert!(packet.check_wire_size());
    let outcome = sock.process_incoming(packet, now);
    for p in sock.take_pending_resends() {
        reverse.push(p.bytes());
    }
    if let Some(reply) = outcome? {
        reverse.push(reply.bytes());
    }
    read.extend(sock.flush_incoming_buffer(BUF_SIZE));
    Ok(())
}

/// Runs the initiator handshake between two fresh endpoints.
fn handshake(client: &mut UtpSocket, server: &mut UtpSocket) {
    let syn = client.syn_packet(1);
    client.mark_syn_sent();
    let mut to_client: Wire = Vec::new();
    let mut scrap: Vec<u8> = Vec::new();
    deliver(server, &syn.bytes(), 2, &mut to_client, &mut scrap).unwrap();
    assert_eq!(to_client.len(), 1);
    let mut to_server: Wire = Vec::new();
    deliver(client, &to_client[0], 3, &mut to_server, &mut scrap).unwrap();
    assert!(to_server.is_empty());
    assert!(scrap.is_empty());
}

/// Shuttles datagrams both ways until the wires drain and the client has
/// nothing left to transmit.
fn pump(
    client: &mut UtpSocket,
    server: &mut UtpSocket,
    c2s: &mut Wire,
    s2c: &mut Wire,
    client_read: &mut Vec<u8>,
    server_read: &mut Vec<u8>,
) {
    let mut rounds: usize = 0;
    loop {
        let mut now: u32 = 1_000 + rounds as u32;
        transmit_ready(client, now, c2s);
        let pending_c2s: Vec<Vec<u8>> = c2s.drain(..).collect();
        for d in pending_c2s {
            now += 1;
            let _ = deliver(server, &d, now, s2c, server_read);
        }
        let pending_s2c: Vec<Vec<u8>> = s2c.drain(..).collect();
        for d in pending_s2c {
            now += 1;
            let _ = deliver(client, &d, now, c2s, client_read);
        }
        if c2s.is_empty() && s2c.is_empty() && !client.can_transmit_next() {
            break;
        }
        rounds += 1;
        assert!(rounds < 200, "the simulated transfer did not settle");
    }
}

/// Closes from the client side: Fin out, the acknowledgment back.
fn close_from_client(client: &mut UtpSocket, server: &mut UtpSocket) {
    let mut s2c: Wire = Vec::new();
    let mut c2s: Wire = Vec::new();
    let mut scrap: Vec<u8> = Vec::new();
    let fin = client.fin_packet(90_000);
    client.mark_fin_sent();
    deliver(server, &fin.bytes(), 90_001, &mut s2c, &mut scrap).unwrap();
    for d in s2c.drain(..) {
        let _ = deliver(client, &d, 90_002, &mut c2s, &mut scrap);
    }
}

#[test]
fn handshake_mirrors_connection_ids() {
    let mut client = UtpSocket::bind();
    let mut server = UtpSocket::bind();
    assert_eq!(client.state, SocketState::New);
    assert_eq!(server.state, SocketState::New);
    assert_eq!(client.sender_connection_id, client.receiver_connection_id.wrapping_add(1));

    handshake(&mut client, &mut server);

    assert_eq!(client.state, SocketState::Connected);
    assert_eq!(server.state, SocketState::Connected);
    // the acceptor's identifiers mirror the initiator's
    assert_eq!(server.receiver_connection_id, server.sender_connection_id.wrapping_add(1));
    assert_eq!(server.sender_connection_id, client.receiver_connection_id);
    // the initiator acknowledged the acceptor's randomized sequence number
    assert_eq!(client.ack_nr, server.seq_nr);
}

#[test]
fn ordered_transfer_reassembles_the_stream() {
    let mut client = UtpSocket::bind();
    let mut server = UtpSocket::bind();
    handshake(&mut client, &mut server);

    let data: Vec<u8> = (0..1024usize).map(|i| i as u8).collect();
    client.queue_data(&data).unwrap();
    let mut c2s: Wire = Vec::new();
    let mut s2c: Wire = Vec::new();
    let mut client_read: Vec<u8> = Vec::new();
    let mut server_read: Vec<u8> = Vec::new();
    pump(&mut client, &mut server, &mut c2s, &mut s2c, &mut client_read, &mut server_read);

    assert_eq!(server_read.len(), 1024);
    assert_eq!(server_read, data);
    assert!(!client.awaiting_final_ack());

    close_from_client(&mut client, &mut server);
    assert_eq!(client.state, SocketState::Closed);
    assert_eq!(server.state, SocketState::Closed);
}

#[test]
fn reordered_transfer_reassembles_the_stream() {
    let mut client = UtpSocket::bind();
    let mut server = UtpSocket::bind();
    handshake(&mut client, &mut server);

    let chunks: [[u8; 3]; 4] = [[1, 2, 3], [4, 5, 6], [7, 8, 9], [10, 11, 12]];
    let mut window: Vec<Packet> = Vec::new();
    for chunk in chunks.iter() {
        let mut p = Packet::new();
        p.set_wnd_size(BUF_SIZE as u32);
        p.set_type(PacketType::Data);
        p.set_connection_id(client.sender_connection_id);
        p.set_seq_nr(client.seq_nr);
        p.set_ack_nr(client.ack_nr);
        p.payload = chunk.to_vec();
        window.push(p);
        client.seq_nr = client.seq_nr.wrapping_add(1);
    }
    let mut fin = Packet::new();
    fin.set_wnd_size(BUF_SIZE as u32);
    fin.set_type(PacketType::Fin);
    fin.set_connection_id(client.sender_connection_id);
    fin.set_seq_nr(client.seq_nr);
    fin.set_ack_nr(client.ack_nr);
    window.push(fin);

    let mut s2c: Wire = Vec::new();
    let mut read: Vec<u8> = Vec::new();
    // data arrives in the order 4, 3, 2, 1, then the Fin
    for &i in [3usize, 2, 1, 0, 4].iter() {
        deliver(&mut server, &window[i].bytes(), 100 + i as u32, &mut s2c, &mut read).unwrap();
    }

    let expected: Vec<u8> = (1..=12u8).collect();
    assert_eq!(read, expected);
    assert_eq!(server.state, SocketState::Closed);
}

#[test]
fn duplicate_data_is_delivered_once() {
    let mut client = UtpSocket::bind();
    let mut server = UtpSocket::bind();
    handshake(&mut client, &mut server);

    let mut p = Packet::new();
    p.set_wnd_size(BUF_SIZE as u32);
    p.set_type(PacketType::Data);
    p.set_connection_id(client.sender_connection_id);
    p.set_seq_nr(client.seq_nr);
    p.set_ack_nr(client.ack_nr);
    p.payload = vec![1, 2, 3];

    let mut s2c: Wire = Vec::new();
    let mut read: Vec<u8> = Vec::new();
    // two copies with different send timestamps
    p.set_timestamp_microseconds(111);
    deliver(&mut server, &p.bytes(), 200, &mut s2c, &mut read).unwrap();
    p.set_timestamp_microseconds(222);
    deliver(&mut server, &p.bytes(), 300, &mut s2c, &mut read).unwrap();

    assert_eq!(read, vec![1, 2, 3]);
    assert_eq!(s2c.len(), 2);
}

#[test]
fn selective_ack_repairs_dropped_packets() {
    let mut client = UtpSocket::bind();
    let mut server = UtpSocket::bind();
    handshake(&mut client, &mut server);

    const LEN: usize = 1024 * 10;
    let data: Vec<u8> = (0..LEN).map(|i| i as u8).collect();
    client.queue_data(&data).unwrap();
    // widen the budget so the whole burst is in flight at once
    client.cwnd = 100_000;
    client.remote_wnd_size = 100_000;

    let mut c2s: Wire = Vec::new();
    let mut s2c: Wire = Vec::new();
    let mut client_read: Vec<u8> = Vec::new();
    let mut server_read: Vec<u8> = Vec::new();
    transmit_ready(&mut client, 500, &mut c2s);
    assert_eq!(c2s.len(), 8);

    let burst: Vec<Vec<u8>> = c2s.drain(..).collect();
    // the first two arrive; three consecutive datagrams are lost; the tail arrives
    for d in [&burst[0], &burst[1], &burst[5], &burst[6], &burst[7]] {
        deliver(&mut server, d, 600, &mut s2c, &mut server_read).unwrap();
    }
    for d in s2c.drain(..).collect::<Vec<_>>() {
        let _ = deliver(&mut client, &d, 700, &mut c2s, &mut client_read);
    }

    // the selective-ack repair request, as the peer would word it
    let mut sackp = Packet::new();
    sackp.set_wnd_size(BUF_SIZE as u32);
    sackp.set_type(PacketType::State);
    sackp.set_connection_id(server.sender_connection_id);
    sackp.set_seq_nr(server.seq_nr);
    sackp.set_ack_nr(server.ack_nr.wrapping_sub(1));
    sackp.set_sack(Some(vec![12, 0, 0, 0]));
    deliver(&mut client, &sackp.bytes(), 800, &mut c2s, &mut client_read).unwrap();
    assert!(!c2s.is_empty(), "the repair request must trigger retransmissions");

    pump(&mut client, &mut server, &mut c2s, &mut s2c, &mut client_read, &mut server_read);
    assert_eq!(server_read.len(), LEN);
    assert_eq!(server_read, data);
}

#[test]
fn triple_duplicate_ack_retransmits_the_burst() {
    let mut client = UtpSocket::bind();
    let mut server = UtpSocket::bind();
    handshake(&mut client, &mut server);

    const LEN: usize = 1024;
    let data: Vec<u8> = (0..LEN).map(|i| i as u8).collect();
    client.queue_data(&data).unwrap();
    let mut c2s: Wire = Vec::new();
    transmit_ready(&mut client, 500, &mut c2s);
    assert_eq!(c2s.len(), 1);
    let first = Packet::decode(&c2s[0]).unwrap();
    assert_eq!(first.get_type(), PacketType::Data);
    assert_eq!(first.payload, data);
    c2s.clear();

    // three identical acknowledgments for the packet before the burst
    let mut ack = Packet::new();
    ack.set_wnd_size(BUF_SIZE as u32);
    ack.set_type(PacketType::State);
    ack.set_connection_id(server.sender_connection_id);
    ack.set_seq_nr(server.seq_nr);
    ack.set_ack_nr(first.seq_nr().wrapping_sub(1));
    let mut client_read: Vec<u8> = Vec::new();
    for i in 0..3u32 {
        deliver(&mut client, &ack.bytes(), 600 + i, &mut c2s, &mut client_read).unwrap();
    }

    // the identified packet went out again, payload identical
    assert_eq!(c2s.len(), 1);
    let again = Packet::decode(&c2s[0]).unwrap();
    assert_eq!(again.get_type(), PacketType::Data);
    assert_eq!(again.seq_nr(), first.seq_nr());
    assert_eq!(again.payload, first.payload);
}

#[test]
fn receive_timeout_recovers_a_lost_packet() {
    let mut client = UtpSocket::bind();
    let mut server = UtpSocket::bind();
    handshake(&mut client, &mut server);

    const LEN: usize = 512;
    let data: Vec<u8> = (0..LEN).map(|i| i as u8).collect();
    client.queue_data(&data).unwrap();
    let mut c2s: Wire = Vec::new();
    let mut s2c: Wire = Vec::new();
    transmit_ready(&mut client, 500, &mut c2s);
    assert_eq!(c2s.len(), 1);
    // the datagram is lost at the datagram layer
    c2s.clear();

    // the receive deadline expires: zero bytes for the caller, the timeout
    // doubles, and a fast-resend request goes out three times
    let mut server_read: Vec<u8> = Vec::new();
    assert!(server_read.is_empty());
    server.handle_receive_timeout();
    assert_eq!(server.congestion_timeout, 2 * INITIAL_CONGESTION_TIMEOUT);
    let mut i: usize = 0;
    while i < FAST_RESEND_COUNT {
        s2c.push(server.fast_resend_packet(600 + i as u32).bytes());
        i += 1;
    }

    let mut client_read: Vec<u8> = Vec::new();
    for d in s2c.drain(..).collect::<Vec<_>>() {
        deliver(&mut client, &d, 700, &mut c2s, &mut client_read).unwrap();
    }
    // the three identical acknowledgments made the client retransmit
    assert_eq!(c2s.len(), 1);
    for d in c2s.drain(..).collect::<Vec<_>>() {
        deliver(&mut server, &d, 800, &mut s2c, &mut server_read).unwrap();
    }
    assert_eq!(server_read, data);
}

#[test]
fn wrong_connection_id_draws_a_reset() {
    let mut client = UtpSocket::bind();
    let mut server = UtpSocket::bind();
    handshake(&mut client, &mut server);

    let mut evil = Packet::new();
    evil.set_wnd_size(BUF_SIZE as u32);
    evil.set_type(PacketType::State);
    evil.set_connection_id(server.sender_connection_id.wrapping_add(2));
    evil.set_seq_nr(server.ack_nr);

    let mut s2c: Wire = Vec::new();
    let mut read: Vec<u8> = Vec::new();
    deliver(&mut server, &evil.bytes(), 400, &mut s2c, &mut read).unwrap();

    assert_eq!(s2c.len(), 1);
    let reset = Packet::decode(&s2c[0]).unwrap();
    assert_eq!(reset.get_type(), PacketType::Reset);
    assert_eq!(reset.ack_nr(), evil.seq_nr());
    assert_eq!(server.state, SocketState::Connected);
}

#[test]
fn sequence_numbers_wrap_across_the_counter_range() {
    let mut client = UtpSocket::bind();
    let mut server = UtpSocket::bind();
    // start close enough to the top of the range to wrap mid-transfer
    client.seq_nr = u16::MAX - 2;
    handshake(&mut client, &mut server);

    const LEN: usize = BUF_SIZE * 4;
    let data: Vec<u8> = (0..LEN).map(|i| i as u8).collect();
    client.queue_data(&data).unwrap();
    client.cwnd = 100_000;
    client.remote_wnd_size = 100_000;

    let mut c2s: Wire = Vec::new();
    let mut s2c: Wire = Vec::new();
    let mut client_read: Vec<u8> = Vec::new();
    let mut server_read: Vec<u8> = Vec::new();
    pump(&mut client, &mut server, &mut c2s, &mut s2c, &mut client_read, &mut server_read);

    assert_eq!(server_read.len(), LEN);
    assert_eq!(server_read, data);
    assert!(client.seq_nr < 50);

    close_from_client(&mut client, &mut server);
    assert_eq!(client.state, SocketState::Closed);
    assert_eq!(server.state, SocketState::Closed);
}

#[test]
fn errors_surface_per_state() {
    // a reset packet poisons the connection
    let mut client = UtpSocket::bind();
    let mut server = UtpSocket::bind();
    handshake(&mut client, &mut server);
    let mut reset = Packet::new();
    reset.set_type(PacketType::Reset);
    reset.set_connection_id(server.sender_connection_id);
    let mut s2c: Wire = Vec::new();
    let mut read: Vec<u8> = Vec::new();
    assert_eq!(
        deliver(&mut server, &reset.bytes(), 400, &mut s2c, &mut read),
        Err(SocketError::ConnectionReset)
    );
    assert_eq!(server.state, SocketState::ResetReceived);
    // and later reads report the connection as gone
    assert_eq!(server.recv_gate(), Err(SocketError::Closed));

    // a non-State reply to the handshake fails the connection
    let mut connecting = UtpSocket::bind();
    let syn = connecting.syn_packet(1);
    connecting.mark_syn_sent();
    let mut junk = Packet::new();
    junk.set_type(PacketType::Data);
    junk.set_connection_id(syn.connection_id());
    assert!(matches!(
        connecting.handle_packet(&junk, 500),
        Err(SocketError::ConnectionFailed)
    ));

    // a closed socket refuses reads and writes
    let mut closed = UtpSocket::bind();
    closed.state = SocketState::Closed;
    assert_eq!(closed.recv_gate(), Err(SocketError::EndOfFile));
    assert_eq!(closed.queue_data(&[1, 2, 3]), Err(SocketError::Closed));
}

#[test]
fn small_read_buffers_drain_a_payload_in_pieces() {
    let mut server = UtpSocket::bind();
    let mut p = Packet::new();
    p.set_type(PacketType::Data);
    p.set_seq_nr(1);
    p.payload = (0..12u8).collect();
    server.insert_into_buffer(p);

    assert_eq!(server.flush_incoming_buffer(5), (0..5u8).collect::<Vec<u8>>());
    assert_eq!(server.flush_incoming_buffer(5), (5..10u8).collect::<Vec<u8>>());
    assert_eq!(server.flush_incoming_buffer(5), (10..12u8).collect::<Vec<u8>>());
    assert_eq!(server.ack_nr, 1);
    assert!(server.incoming_buffer.is_empty());
    assert!(server.flush_incoming_buffer(5).is_empty());
}

#[test]
fn queueing_nothing_sends_nothing() {
    let mut client = UtpSocket::bind();
    let seq = client.seq_nr;
    client.queue_data(&[]).unwrap();
    assert_eq!(client.seq_nr, seq);
    assert!(client.unsent_queue.is_empty());
    assert!(!client.can_transmit_next());
}
