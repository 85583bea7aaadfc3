use utp::packet::{Packet, PacketType};
use utp::socket::{UtpSocket, INITIAL_CONGESTION_TIMEOUT, MIN_CWND, MSS};
use utp::BUF_SIZE;

#[test]
fn timeout_update_follows_the_smoothing_formula() {
    let mut socket = UtpSocket::bind();
    assert_eq!(socket.congestion_timeout, INITIAL_CONGESTION_TIMEOUT);

    // from rtt = 0, variance = 0 and one 100 ms sample:
    // variance += (|0 - 100| - 0) / 4 = 25; rtt += (100 - 0) / 8 = 12;
    // timeout = clamp(12 + 4 * 25, 500, 60000) = 500
    socket.update_congestion_timeout(100);
    assert_eq!(socket.rtt_variance, 25);
    assert_eq!(socket.rtt, 12);
    assert_eq!(socket.congestion_timeout, 500);

    // a much larger sample pushes the timeout off the lower clamp:
    // variance: 25 + (|12 - 10000| - 25) / 4 = 25 + 2490 = 2515
    // rtt: 12 + (10000 - 12) / 8 = 12 + 1248 = 1260
    // timeout = 1260 + 4 * 2515 = 11320
    socket.update_congestion_timeout(10_000);
    assert_eq!(socket.rtt_variance, 2515);
    assert_eq!(socket.rtt, 1260);
    assert_eq!(socket.congestion_timeout, 11_320);
}

#[test]
fn timeout_clamps_a_negative_smoothed_sum_to_the_floor() {
    let mut socket = UtpSocket::bind();
    // a long run of identical negative samples drives the smoothed time
    // toward the sample while the variance decays, leaving a negative sum
    let mut i: usize = 0;
    while i < 200 {
        socket.update_congestion_timeout(-1000);
        i += 1;
    }
    assert!(socket.rtt < 0);
    assert!(socket.rtt + 4 * socket.rtt_variance < 0);
    assert_eq!(socket.congestion_timeout, 500);
}

#[test]
fn receive_timeout_doubles_the_deadline_and_shrinks_the_window() {
    let mut socket = UtpSocket::bind();
    socket.handle_receive_timeout();
    assert_eq!(socket.congestion_timeout, 2 * INITIAL_CONGESTION_TIMEOUT);
    assert_eq!(socket.cwnd, MSS);
    socket.handle_receive_timeout();
    assert_eq!(socket.congestion_timeout, 4 * INITIAL_CONGESTION_TIMEOUT);

    let resend = socket.fast_resend_packet(9_999);
    assert_eq!(resend.get_type(), PacketType::State);
    assert_eq!(resend.seq_nr(), socket.seq_nr);
    assert_eq!(resend.ack_nr(), socket.ack_nr);
    assert_eq!(resend.wnd_size(), BUF_SIZE as u32);
    assert_eq!(resend.timestamp_microseconds(), 9_999);
}

#[test]
fn filtered_delay_is_the_ewma_of_the_samples() {
    let mut socket = UtpSocket::bind();
    assert_eq!(socket.filtered_current_delay(), 0);

    // one sample of 100: (333 * 100 + 667 * 0) / 1000 = 33
    socket.update_current_delay(100, 10);
    assert_eq!(socket.filtered_current_delay(), 33);

    // a second sample of 100 at the same clock (the smoothed round-trip
    // time is still zero, so any older sample would be evicted):
    // (333 * 100 + 667 * 33) / 1000 = 55
    socket.update_current_delay(100, 10);
    assert_eq!(socket.filtered_current_delay(), 55);
}

#[test]
fn base_delay_keeps_the_minimum_of_the_current_minute() {
    let mut socket = UtpSocket::bind();
    assert_eq!(socket.min_base_delay(), 0);

    // first sample opens a slot: delay = 25 - 10 = 15
    socket.update_base_delay(10, 25);
    assert_eq!(socket.min_base_delay(), 15);

    // a smaller send clock within the same minute lowers the slot
    socket.update_base_delay(5, 30);
    assert_eq!(socket.min_base_delay(), 25);
    assert_eq!(socket.base_delays.len(), 1);

    // a larger one does not
    socket.update_base_delay(9, 40);
    assert_eq!(socket.min_base_delay(), 25);
    assert_eq!(socket.base_delays.len(), 1);
}

#[test]
fn congestion_window_never_falls_under_the_floor() {
    let mut socket = UtpSocket::bind();
    // nothing in flight: the window clamps down to the floor
    socket.update_congestion_window(0, 20);
    assert_eq!(socket.cwnd, MIN_CWND * MSS);
    // far past the target delay the increment is zero and the clamps still hold
    socket.update_congestion_window(1_000_000, 20);
    assert_eq!(socket.cwnd, MIN_CWND * MSS);
}

#[test]
fn selective_ack_bitmap_marks_buffered_packets() {
    let mut socket = UtpSocket::bind();
    // ack_nr is 0; buffered packets 4 and 6 map to bits 2 and 4
    let mut p = Packet::new();
    p.set_type(PacketType::Data);
    p.set_seq_nr(4);
    socket.insert_into_buffer(p.clone());
    p.set_seq_nr(6);
    socket.insert_into_buffer(p);
    assert_eq!(socket.build_selective_ack(), vec![0b10100, 0, 0, 0]);
}

#[test]
fn empty_buffer_gives_no_bitmap() {
    let socket = UtpSocket::bind();
    assert_eq!(socket.build_selective_ack(), Vec::<u8>::new());
}
