//! The connection state machine: handshake, data exchange, teardown, and the
//! counters and windows they maintain.
//!
//! The socket owns no datagram socket and reads no clock: callers hand in
//! decoded packets together with a microsecond timestamp, and transmit the
//! packets the state machine returns (a direct reply, queued retransmissions
//! under [`UtpSocket::take_pending_resends`], and queued outbound data under
//! [`UtpSocket::take_next_for_transmit`]).

use vstd::prelude::*;

use crate::congestion::{
    abs_int, base_delays_after, current_delays_after, cwnd_after, ewma_diffs, min_base, rtt_after,
    rtt_var_after, timeout_after, trunc_div,
};
use crate::packet::{
    encodable, spec_bit, spec_len, Packet, PacketModel, PacketType, HEADER_SIZE,
    SELECTIVE_ACK_TYPE,
};
use crate::sack::{
    count_set_bits, ext_flags_loss, ext_resend_seqs, lemma_sack_nth_seq, lemma_sack_seqs_take_step,
    sack_bit_set, sack_flags_loss, sack_nth_seq, sack_resend_seqs, sack_scan, SACK_MAX_BYTES,
};
use crate::window::{find_seq, lemma_find_seq_props, window_after_ack};
use crate::BUF_SIZE;

verus! {

/// Maximum segment size: bytes per packet on the wire, header included.
pub const MSS: u32 = 1400;

/// Floor of the congestion window, in segments.
pub const MIN_CWND: u32 = 2;

/// Initial congestion window, in segments.
pub const INIT_CWND: u32 = 2;

/// Initial congestion timeout in milliseconds.
pub const INITIAL_CONGESTION_TIMEOUT: u64 = 1000;

/// Lower clamp of the congestion timeout in milliseconds.
pub const MIN_CONGESTION_TIMEOUT: u64 = 500;

/// Upper clamp of the congestion timeout in milliseconds.
pub const MAX_CONGESTION_TIMEOUT: u64 = 60_000;

/// Number of one-minute slots of base-delay history.
pub const BASE_HISTORY: usize = 10;

/// How many identical State packets a fast-resend request sends in a row.
pub const FAST_RESEND_COUNT: usize = 3;

/// Target queuing delay of the delay-based controller, in microseconds.
pub const TARGET: i64 = 100_000;

/// Segments the congestion window may run ahead of the bytes in flight.
pub const ALLOWED_INCREASE: u32 = 1;

/// Bound kept on the smoothed round-trip time, in milliseconds.
pub const RTT_BOUND: i32 = 2_000_000;

/// Bound kept on the round-trip-time variance, in milliseconds.
pub const RTT_VAR_BOUND: i32 = 4_000_000;

/// Lifecycle of a connection.
#[derive(Clone, Copy, PartialEq, Eq, Structural, Debug)]
pub enum SocketState {
    New,
    Connected,
    SynSent,
    FinReceived,
    FinSent,
    ResetReceived,
    Closed,
}

/// The errors a connection surfaces to its caller.
#[derive(Clone, Copy, PartialEq, Eq, Structural, Debug)]
pub enum SocketError {
    /// Operation on a socket whose connection already closed.
    EndOfFile,
    /// The connection is no longer usable.
    Closed,
    /// The handshake got an invalid reply or ran out of retries.
    ConnectionFailed,
    /// The peer sent a Reset packet.
    ConnectionReset,
}

/// One base-delay slot: the local receive clock and the peer's send clock of
/// the minimal sample of one minute.
pub struct DelaySample {
    pub received_at: i64,
    pub sent_at: i64,
}

/// One current-delay sample: the local receive clock and the peer-reported
/// delay difference.
pub struct DelayDifferenceSample {
    pub received_at: i64,
    pub difference: i64,
}

/// Relies on rand::random: draws a value of a samplable type from the thread
/// local generator. Nothing is assumed of the value drawn.
pub assume_specification<T>[ rand::random::<T> ]() -> (r: T)
    where
        rand::distr::StandardUniform: rand::distr::Distribution<T>,
;

/// `a + 1` on 16-bit sequence numbers, wrapping.
pub open spec fn wrap_inc(a: u16) -> u16 {
    if a == 0xffff {
        0
    } else {
        (a + 1) as u16
    }
}

/// `a - b` on 16-bit sequence numbers, wrapping.
pub open spec fn wrap_diff(a: u16, b: u16) -> u16 {
    if a >= b {
        (a - b) as u16
    } else {
        (a - b + 0x10000) as u16
    }
}

/// Total wire length of a window of packets.
pub open spec fn window_bytes(w: Seq<Packet>) -> int
    decreases w.len(),
{
    if w.len() == 0 {
        0
    } else {
        spec_len(w[0]@) + window_bytes(w.drop_first())
    }
}

/// Strictly ascending sequence numbers: the reorder-buffer order.
pub open spec fn sorted_by_seq(w: Seq<Packet>) -> bool {
    forall|i: int, j: int| 0 <= i < j < w.len() ==> w[i].seq_nr < w[j].seq_nr
}

/// A packet the state machine may store and later retransmit: writable to
/// the wire, with a length the window arithmetic can hold.
pub open spec fn storable(p: PacketModel) -> bool {
    encodable(p) && spec_len(p) <= u32::MAX
}

/// A uTP connection endpoint: the state machine of one connection.
///
/// Outbound transmission is pull-based: the caller drains
/// [`Self::take_pending_resends`] after feeding a packet in, and drives
/// queued data out with [`Self::can_transmit_next`] and
/// [`Self::take_next_for_transmit`].
pub struct UtpSocket {
    /// Connection id stamped on outbound packets.
    pub sender_connection_id: u16,
    /// Connection id expected on inbound packets.
    pub receiver_connection_id: u16,
    /// Sequence number of the next outbound data or Fin packet.
    pub seq_nr: u16,
    /// Highest contiguous inbound sequence number received.
    pub ack_nr: u16,
    /// Lifecycle state.
    pub state: SocketState,
    /// Received packets ahead of `ack_nr`, ascending by sequence number.
    pub incoming_buffer: Vec<Packet>,
    /// Sent packets not yet cumulatively acknowledged.
    pub send_window: Vec<Packet>,
    /// Packets composed but not yet transmitted.
    pub unsent_queue: Vec<Packet>,
    /// Consecutive State packets carrying the same acknowledgment number.
    pub duplicate_ack_count: u32,
    /// Highest inbound acknowledgment number observed.
    pub last_acked: u16,
    /// Microsecond clock when `last_acked` last changed.
    pub last_acked_timestamp: u32,
    /// Sequence number of a received Fin, once seen.
    pub fin_seq_nr: u16,
    /// Smoothed round-trip time, milliseconds.
    pub rtt: i32,
    /// Mean absolute deviation of the round-trip time, milliseconds.
    pub rtt_variance: i32,
    /// Tail of a partially delivered packet payload.
    pub pending_data: Vec<u8>,
    /// Bytes in flight: the wire length of the send window.
    pub curr_window: u32,
    /// Receive window the peer advertised, bytes.
    pub remote_wnd_size: u32,
    /// One-minute minima of the one-way delay, most recent first.
    pub base_delays: Vec<DelaySample>,
    /// Recent delay-difference samples, oldest first.
    pub current_delays: Vec<DelayDifferenceSample>,
    /// Retransmission timeout, milliseconds.
    pub congestion_timeout: u64,
    /// Congestion window, bytes.
    pub cwnd: u32,
    /// Retransmissions decided but not yet handed to the caller.
    pub pending_resends: Vec<Packet>,
}

impl UtpSocket {
    /// The invariants every operation of the socket preserves: the reorder
    /// buffer is strictly ascending; a pending tail exists only while the
    /// head packet is partially consumed, and is then the unconsumed suffix
    /// of the head's payload; `curr_window` is the wire length of the send
    /// window; stored packets can be re-encoded; the congestion window never
    /// falls under one segment; the congestion timeout never falls under its
    /// clamp; the delay state stays within clock range.
    pub open spec fn wf(&self) -> bool {
        &&& sorted_by_seq(self.incoming_buffer@)
        &&& (self.pending_data@.len() > 0 ==> self.incoming_buffer@.len() > 0
            && self.pending_data@.len() <= self.incoming_buffer@[0].payload@.len()
            && self.pending_data@ == self.incoming_buffer@[0].payload@.skip(
            self.incoming_buffer@[0].payload@.len() - self.pending_data@.len(),
        ))
        &&& self.curr_window == window_bytes(self.send_window@)
        &&& (forall|i: int|
            0 <= i < self.send_window@.len() ==> storable(#[trigger] self.send_window@[i]@))
        &&& (forall|i: int|
            0 <= i < self.unsent_queue@.len() ==> storable(#[trigger] self.unsent_queue@[i]@)
                && self.unsent_queue@[i]@.ty == PacketType::Data && spec_len(
                self.unsent_queue@[i]@,
            ) <= MSS)
        &&& (forall|i: int|
            0 <= i < self.pending_resends@.len() ==> storable(
                #[trigger] self.pending_resends@[i]@,
            ))
        &&& self.cwnd >= MSS
        &&& self.congestion_timeout >= MIN_CONGESTION_TIMEOUT
        &&& -RTT_BOUND <= self.rtt <= RTT_BOUND
        &&& 0 <= self.rtt_variance <= RTT_VAR_BOUND
        &&& (forall|i: int|
            0 <= i < self.base_delays@.len() ==> 0 <= #[trigger] self.base_delays@[i].received_at
                <= u32::MAX)
        &&& (forall|i: int|
            0 <= i < self.base_delays@.len() ==> 0 <= #[trigger] self.base_delays@[i].sent_at
                <= u32::MAX)
        &&& self.base_delays@.len() <= BASE_HISTORY
        &&& (forall|i: int|
            0 <= i < self.current_delays@.len() ==> 0
                <= #[trigger] self.current_delays@[i].received_at <= u32::MAX)
        &&& (forall|i: int|
            0 <= i < self.current_delays@.len() ==> 0
                <= #[trigger] self.current_delays@[i].difference <= u32::MAX)
    }

    /// Creates the state of a fresh endpoint: state New, sequence number 1,
    /// and freshly drawn connection identifiers with
    /// `send_id = recv_id + 1` (the initiator role).
    pub fn bind() -> (r: UtpSocket)
        ensures
            r.wf(),
            r.state == SocketState::New,
            r.sender_connection_id == wrap_inc(r.receiver_connection_id),
            r.seq_nr == 1,
            r.ack_nr == 0,
            r.last_acked == 0,
            r.duplicate_ack_count == 0,
            r.cwnd == INIT_CWND * MSS,
            r.congestion_timeout == INITIAL_CONGESTION_TIMEOUT,
            r.incoming_buffer@.len() == 0,
            r.send_window@.len() == 0,
            r.unsent_queue@.len() == 0,
            r.pending_resends@.len() == 0,
            r.pending_data@.len() == 0,
            r.curr_window == 0,
            r.remote_wnd_size == 0,
    {
        let connection_id: u16 = rand::random::<u16>();
        UtpSocket {
            sender_connection_id: connection_id.wrapping_add(1),
            receiver_connection_id: connection_id,
            seq_nr: 1,
            ack_nr: 0,
            state: SocketState::New,
            incoming_buffer: Vec::new(),
            send_window: Vec::new(),
            unsent_queue: Vec::new(),
            duplicate_ack_count: 0,
            last_acked: 0,
            last_acked_timestamp: 0,
            fin_seq_nr: 0,
            rtt: 0,
            rtt_variance: 0,
            pending_data: Vec::new(),
            curr_window: 0,
            remote_wnd_size: 0,
            base_delays: Vec::new(),
            current_delays: Vec::new(),
            congestion_timeout: INITIAL_CONGESTION_TIMEOUT,
            cwnd: INIT_CWND * MSS,
            pending_resends: Vec::new(),
        }
    }

    /// The reply owed to `original`: type `t`, our ids and counters, stamped
    /// with the local clock `now` and the wrapping clock difference. A reply
    /// never advances `seq_nr`.
    pub fn prepare_reply(&self, original: &Packet, t: PacketType, now: u32) -> (r: Packet)
        ensures
            r@.ty == t,
            r@.connection_id == self.sender_connection_id,
            r@.seq_nr == self.seq_nr,
            r@.ack_nr == self.ack_nr,
            r@.timestamp_microseconds == now,
            r@.timestamp_difference_microseconds == now.wrapping_sub(
                original@.timestamp_microseconds,
            ),
            r@.wnd_size == 0,
            r@.extensions.len() == 0,
            r@.payload.len() == 0,
            storable(r@),
            spec_len(r@) == HEADER_SIZE,
    {
        let mut resp = Packet::new();
        resp.set_type(t);
        resp.set_timestamp_microseconds(now);
        resp.set_timestamp_difference_microseconds(now.wrapping_sub(
            original.timestamp_microseconds(),
        ));
        resp.set_connection_id(self.sender_connection_id);
        resp.set_seq_nr(self.seq_nr);
        resp.set_ack_nr(self.ack_nr);
        resp
    }

    /// Whether the socket still holds bytes a caller has not read: either a
    /// partially delivered payload or buffered packets.
    pub fn no_pending_data(&self) -> (r: bool)
        ensures
            r == (self.pending_data@.len() == 0 && self.incoming_buffer@.len() == 0),
    {
        self.pending_data.is_empty() && self.incoming_buffer.is_empty()
    }

    /// Hands out the retransmissions decided by earlier packet handling, in
    /// the order they were decided, leaving the queue empty.
    pub fn take_pending_resends(&mut self) -> (r: Vec<Packet>)
        requires
            old(self).wf(),
        ensures
            final(self).wf(),
            r@ == old(self).pending_resends@,
            final(self).pending_resends@.len() == 0,
            *final(self) == (UtpSocket { pending_resends: final(self).pending_resends, ..*old(self) }),
    {
        let mut out: Vec<Packet> = Vec::new();
        std::mem::swap(&mut out, &mut self.pending_resends);
        out
    }
}


/// `c + 1`, stopping at the top of the counter's range.
pub open spec fn sat_inc(c: u32) -> u32 {
    if c == u32::MAX {
        c
    } else {
        (c + 1) as u32
    }
}

/// Whether an inbound packet carries one of the connection's identifiers.
pub open spec fn conn_id_matches(s: UtpSocket, p: PacketModel) -> bool {
    p.connection_id == s.sender_connection_id || p.connection_id == s.receiver_connection_id
}

/// The (state, packet type) pairs the state machine handles; feeding in any
/// other pair is a protocol violation.
pub open spec fn handled_pair(s: SocketState, t: PacketType) -> bool {
    ||| (s == SocketState::New && t == PacketType::Syn)
    ||| s == SocketState::SynSent
    ||| s == SocketState::Connected
    ||| (s == SocketState::FinSent && t == PacketType::State)
    ||| t == PacketType::Reset
}

/// The header a reply to `p` carries in socket state `s`: our identifiers
/// and counters, the local clock, and the wrapping clock difference.
pub open spec fn reply_shape(
    s: UtpSocket,
    p: PacketModel,
    t: PacketType,
    now: u32,
    r: PacketModel,
) -> bool {
    &&& r.ty == t
    &&& r.connection_id == s.sender_connection_id
    &&& r.seq_nr == s.seq_nr
    &&& r.ack_nr == s.ack_nr
    &&& r.timestamp_microseconds == now
    &&& r.timestamp_difference_microseconds == now.wrapping_sub(p.timestamp_microseconds)
    &&& r.payload.len() == 0
}

/// The extensions of the State reply to a Data packet: empty when the packet
/// directly extends the stream, else one selective-ack bitmap reporting
/// exactly the buffered packets past `ack_nr` (omitted when no buffered
/// packet is in the bitmap's reach).
pub open spec fn data_reply_exts(s: UtpSocket, p: PacketModel, rep: PacketModel) -> bool {
    if wrap_diff(p.seq_nr, s.ack_nr) > 1 {
        &&& rep.extensions.len() <= 1
        &&& (rep.extensions.len() == 1 ==> {
            let bm = rep.extensions[0].1;
            &&& rep.extensions[0].0 == SELECTIVE_ACK_TYPE
            &&& bm.len() % 4 == 0
            &&& bm.len() <= SACK_MAX_BYTES
            &&& bm.len() > 0
            &&& (forall|i: int|
                0 <= i < bm.len() * 8 ==> #[trigger] spec_bit(bm, i) == sack_bit_set(
                    s.incoming_buffer@,
                    s.ack_nr,
                    i,
                ))
            &&& (forall|i: int|
                bm.len() * 8 <= i < SACK_MAX_BYTES * 8 ==> !sack_bit_set(
                    s.incoming_buffer@,
                    s.ack_nr,
                    i,
                ))
        })
        &&& (rep.extensions.len() == 0 ==> forall|i: int|
            0 <= i < SACK_MAX_BYTES * 8 ==> !sack_bit_set(s.incoming_buffer@, s.ack_nr, i))
    } else {
        rep.extensions.len() == 0
    }
}

/// Whether `q` is a copy of one of the in-flight packets of `win`.
pub open spec fn from_window(q: Packet, win: Seq<Packet>) -> bool {
    exists|j: int| 0 <= j < win.len() && q@ == win[j]@
}

/// Whether a retransmission of sequence number `sn` was queued past `n0`.
pub open spec fn resent_seq(resends: Seq<Packet>, n0: int, sn: u16) -> bool {
    exists|k: int| n0 <= k < resends.len() && resends[k].seq_nr == sn
}

/// The views of a row of packets, in order.
pub open spec fn packet_views(s: Seq<Packet>) -> Seq<PacketModel> {
    s.map_values(|q: Packet| q@)
}

/// Sequence numbers of the in-flight packets past a cumulative
/// acknowledgment, in window order: what a triple duplicate acknowledgment
/// retransmits.
pub open spec fn dup_resend_seqs(w: Seq<Packet>, ack: u16) -> Seq<u16>
    decreases w.len(),
{
    if w.len() == 0 {
        Seq::empty()
    } else {
        (if w[0].seq_nr > ack {
            seq![w[0].seq_nr]
        } else {
            Seq::empty()
        }) + dup_resend_seqs(w.drop_first(), ack)
    }
}

/// The copies a row of requested sequence numbers queues: each number with
/// an in-flight packet contributes that packet, an unknown number nothing.
pub open spec fn resolved_resends(seqs: Seq<u16>, w: Seq<Packet>) -> Seq<PacketModel>
    decreases seqs.len(),
{
    if seqs.len() == 0 {
        Seq::empty()
    } else {
        (if find_seq(w, seqs[0]) >= 0 {
            seq![w[find_seq(w, seqs[0])]@]
        } else {
            Seq::empty()
        }) + resolved_resends(seqs.drop_first(), w)
    }
}

/// Everything handling one State packet does to the socket, from state
/// `pre`: acknowledgment bookkeeping, the delay and congestion update chain,
/// selective-ack and triple-duplicate retransmission (queued on
/// `pending_resends`, each entry a copy of an in-flight packet), and the
/// cumulative advance of the send window.
pub open spec fn state_packet_post(
    pre: UtpSocket,
    post: UtpSocket,
    p: PacketModel,
    now: u32,
) -> bool {
    let base1 = base_delays_after(pre.base_delays@, p.timestamp_microseconds as int, now as int);
    let cur1 = current_delays_after(
        pre.current_delays@,
        p.timestamp_difference_microseconds as int,
        now as int,
        pre.rtt as int,
    );
    let qd = ewma_diffs(cur1) - abs_int(min_base(base1));
    let cwnd1 = cwnd_after(pre.cwnd, pre.curr_window, qd, spec_len(p) as u32);
    let halved: int = if cwnd1 / 2 >= MIN_CWND * MSS {
        cwnd1 / 2
    } else {
        MIN_CWND * MSS as int
    };
    let ot = trunc_div(TARGET - qd, TARGET as int);
    let cd = (TARGET - ot) / 1000;
    let dup1 = if p.ack_nr == pre.last_acked {
        sat_inc(pre.duplicate_ack_count)
    } else {
        1u32
    };
    let dup_loss = pre.send_window@.len() > 0 && dup1 == 3;
    let loss = dup_loss || sack_flags_loss(p.extensions, p.ack_nr, pre.send_window@);
    let asked = sack_resend_seqs(p.extensions, p.ack_nr, pre.send_window@) + (if dup_loss {
        dup_resend_seqs(pre.send_window@, p.ack_nr)
    } else {
        Seq::empty()
    });
    &&& post.last_acked == p.ack_nr
    &&& post.duplicate_ack_count == dup1
    &&& post.last_acked_timestamp == (if p.ack_nr == pre.last_acked {
        pre.last_acked_timestamp
    } else {
        now
    })
    &&& post.base_delays@ == base1
    &&& post.current_delays@ == cur1
    &&& post.rtt_variance == rtt_var_after(pre.rtt as int, pre.rtt_variance as int, cd)
    &&& post.rtt == rtt_after(pre.rtt as int, cd)
    &&& post.congestion_timeout == timeout_after(post.rtt as int, post.rtt_variance as int)
    &&& MIN_CONGESTION_TIMEOUT <= post.congestion_timeout <= MAX_CONGESTION_TIMEOUT
    &&& post.cwnd == (if loss {
        halved
    } else {
        cwnd1
    })
    &&& post.cwnd >= MSS
    &&& post.send_window@ == window_after_ack(pre.send_window@, p.ack_nr)
    &&& post.curr_window == window_bytes(post.send_window@)
    &&& post.state == pre.state
    &&& post.seq_nr == pre.seq_nr
    &&& post.ack_nr == pre.ack_nr
    &&& post.sender_connection_id == pre.sender_connection_id
    &&& post.receiver_connection_id == pre.receiver_connection_id
    &&& post.fin_seq_nr == pre.fin_seq_nr
    &&& post.incoming_buffer == pre.incoming_buffer
    &&& post.pending_data == pre.pending_data
    &&& post.unsent_queue == pre.unsent_queue
    &&& post.remote_wnd_size == pre.remote_wnd_size
    &&& post.pending_resends@.len() >= pre.pending_resends@.len()
    &&& post.pending_resends@.take(pre.pending_resends@.len() as int) == pre.pending_resends@
    &&& packet_views(post.pending_resends@.skip(pre.pending_resends@.len() as int))
        == resolved_resends(asked, pre.send_window@)
    &&& (forall|k: int|
        pre.pending_resends@.len() <= k < post.pending_resends@.len() ==> from_window(
            #[trigger] post.pending_resends@[k],
            pre.send_window@,
        ))
    &&& ((pre.send_window@.len() > 0 && dup1 == 3) ==> (forall|j: int|
        0 <= j < pre.send_window@.len() && (#[trigger] pre.send_window@[j]).seq_nr > p.ack_nr
            ==> resent_seq(
            post.pending_resends@,
            pre.pending_resends@.len() as int,
            pre.send_window@[j].seq_nr,
        )))
}

/// What handling a packet does to the socket and returns, from state `pre`:
/// one clause per (state, packet type) pair of the transition table, plus
/// the connection-id gate that answers any foreign packet with a Reset, and
/// the rule that the acknowledgment number advances by at most one outside
/// the handshake.
pub open spec fn handle_post(
    pre: UtpSocket,
    post: UtpSocket,
    p: PacketModel,
    now: u32,
    r: Result<Option<PacketModel>, SocketError>,
) -> bool {
    let acked = wrap_diff(p.seq_nr, pre.ack_nr) == 1;
    let a1: u16 = if acked {
        p.seq_nr
    } else {
        pre.ack_nr
    };
    let s0 = pre.state;
    let t = p.ty;
    let mismatch = !(s0 == SocketState::New && t == PacketType::Syn) && !conn_id_matches(pre, p);
    &&& (!(s0 == SocketState::New && t == PacketType::Syn) && !(s0 == SocketState::SynSent && t
        == PacketType::State) ==> post.ack_nr == pre.ack_nr || post.ack_nr == wrap_inc(
        pre.ack_nr,
    ))
    &&& (mismatch ==> {
        &&& post == (UtpSocket { ack_nr: a1, ..pre })
        &&& r matches Ok(Some(rep)) && reply_shape(post, p, PacketType::Reset, now, rep)
            && rep.extensions.len() == 0 && rep.wnd_size == 0
    })
    &&& (!mismatch ==> post.remote_wnd_size == p.wnd_size)
    &&& ((!mismatch && s0 == SocketState::New && t == PacketType::Syn) ==> {
        &&& post == (UtpSocket {
            ack_nr: p.seq_nr,
            seq_nr: post.seq_nr,
            sender_connection_id: p.connection_id,
            receiver_connection_id: wrap_inc(p.connection_id),
            state: SocketState::Connected,
            remote_wnd_size: p.wnd_size,
            ..pre
        })
        &&& r matches Ok(Some(rep)) && reply_shape(post, p, PacketType::State, now, rep)
            && rep.extensions.len() == 0 && rep.wnd_size == 0
    })
    &&& ((!mismatch && s0 == SocketState::SynSent && t == PacketType::State) ==> {
        &&& post == (UtpSocket {
            ack_nr: p.seq_nr,
            seq_nr: wrap_inc(pre.seq_nr),
            state: SocketState::Connected,
            last_acked: p.ack_nr,
            last_acked_timestamp: now,
            remote_wnd_size: p.wnd_size,
            ..pre
        })
        &&& r is Ok && r->Ok_0 is None
    })
    &&& ((!mismatch && s0 == SocketState::SynSent && t != PacketType::State) ==> {
        &&& post == (UtpSocket { ack_nr: a1, remote_wnd_size: p.wnd_size, ..pre })
        &&& r is Err && r->Err_0 == SocketError::ConnectionFailed
    })
    &&& ((!mismatch && s0 == SocketState::Connected && t == PacketType::Syn) ==> {
        &&& post == (UtpSocket { ack_nr: a1, remote_wnd_size: p.wnd_size, ..pre })
        &&& r is Ok && r->Ok_0 is None
    })
    &&& ((!mismatch && s0 == SocketState::Connected && t == PacketType::Data) ==> {
        &&& post == (UtpSocket { ack_nr: a1, remote_wnd_size: p.wnd_size, ..pre })
        &&& r matches Ok(Some(rep)) && reply_shape(post, p, PacketType::State, now, rep)
            && data_reply_exts(post, p, rep) && rep.wnd_size == 0
    })
    &&& ((!mismatch && s0 == SocketState::Connected && t == PacketType::State) ==> {
        &&& state_packet_post(
            (UtpSocket { ack_nr: a1, remote_wnd_size: p.wnd_size, ..pre }),
            post,
            p,
            now,
        )
        &&& r is Ok && r->Ok_0 is None
    })
    &&& ((!mismatch && s0 == SocketState::Connected && t == PacketType::Fin) ==> {
        let closing = pre.pending_data@.len() == 0 && pre.incoming_buffer@.len() == 0 && a1
            == p.seq_nr;
        &&& post == (UtpSocket {
            ack_nr: a1,
            remote_wnd_size: p.wnd_size,
            fin_seq_nr: p.seq_nr,
            state: if closing {
                SocketState::Closed
            } else {
                SocketState::FinReceived
            },
            ..pre
        })
        &&& (if closing {
            r matches Ok(Some(rep)) && reply_shape(post, p, PacketType::State, now, rep)
                && rep.extensions.len() == 0 && rep.wnd_size == 0
        } else {
            r is Ok && r->Ok_0 is None
        })
    })
    &&& ((!mismatch && s0 == SocketState::FinSent && t == PacketType::State) ==> {
        &&& post == (UtpSocket {
            ack_nr: a1,
            remote_wnd_size: p.wnd_size,
            state: if p.ack_nr == pre.seq_nr {
                SocketState::Closed
            } else {
                SocketState::FinSent
            },
            ..pre
        })
        &&& r is Ok && r->Ok_0 is None
    })
    &&& ((!mismatch && s0 != SocketState::SynSent && t == PacketType::Reset) ==> {
        &&& post == (UtpSocket {
            ack_nr: a1,
            remote_wnd_size: p.wnd_size,
            state: SocketState::ResetReceived,
            ..pre
        })
        &&& r is Err && r->Err_0 == SocketError::ConnectionReset
    })
}

/// Truncating division by a positive constant on 64-bit values.
fn div_trunc_i64(a: i64, d: u64) -> (r: i64)
    requires
        d > 0,
        a > i64::MIN,
    ensures
        r == trunc_div(a as int, d as int),
{
    if a >= 0 {
        ((a as u64) / d) as i64
    } else {
        let m: u64 = ((-a) as u64) / d;
        assert(m <= (-a) as u64) by (nonlinear_arith)
            requires
                m == ((-a) as u64) / (d as u64),
                d >= 1,
        ;
        -(m as i64)
    }
}

/// A retransmission queue that grew from `prev` by at most one copy of an
/// in-flight packet (stored at `jw` of the window) keeps its prefix and its
/// provenance.
proof fn lemma_resend_extends(
    prev: Seq<Packet>,
    cur: Seq<Packet>,
    win: Seq<Packet>,
    base: Seq<Packet>,
    n0: int,
    jw: int,
)
    requires
        n0 == base.len(),
        0 <= n0 <= prev.len(),
        prev.take(n0) == base,
        forall|k: int| n0 <= k < prev.len() ==> from_window(#[trigger] prev[k], win),
        cur == prev || (cur.len() == prev.len() + 1 && cur.take(prev.len() as int) == prev && 0
            <= jw < win.len() && cur.last()@ == win[jw]@),
    ensures
        cur.take(n0) == base,
        cur.len() >= n0,
        forall|k: int| n0 <= k < cur.len() ==> from_window(#[trigger] cur[k], win),
{
    if cur != prev {
        assert forall|k: int| 0 <= k < prev.len() implies cur[k] == prev[k] by {
            assert(cur.take(prev.len() as int)[k] == cur[k]);
            assert(prev[k] == cur.take(prev.len() as int)[k]);
        }
        assert(cur.take(n0) =~= base);
        assert forall|k: int| n0 <= k < cur.len() implies from_window(#[trigger] cur[k], win) by {
            if k < prev.len() {
                assert(cur[k] == prev[k]);
                assert(from_window(prev[k], win));
            } else {
                assert(k == cur.len() - 1);
                assert(cur[k] == cur.last());
                assert(0 <= jw < win.len() && cur[k]@ == win[jw]@);
                assert(from_window(cur[k], win));
            }
        }
    } else {
        assert forall|k: int| n0 <= k < cur.len() implies from_window(#[trigger] cur[k], win) by {
            assert(cur[k] == prev[k]);
            assert(from_window(prev[k], win));
        }
    }
}

/// A queued retransmission stays queued when the queue grows at the back.
proof fn lemma_resent_seq_monotone(prev: Seq<Packet>, cur: Seq<Packet>, n0: int, sn: u16)
    requires
        0 <= n0,
        resent_seq(prev, n0, sn),
        cur.len() == prev.len() + 1,
        cur.take(prev.len() as int) == prev,
    ensures
        resent_seq(cur, n0, sn),
{
    let k = choose|k: int| n0 <= k < prev.len() && prev[k].seq_nr == sn;
    assert(0 <= k < prev.len());
    assert(cur.take(prev.len() as int)[k] == cur[k]);
    assert(n0 <= k < cur.len() && cur[k].seq_nr == sn);
}

/// Resolving a concatenation of requests resolves each part in order.
proof fn lemma_resolved_append(xs: Seq<u16>, ys: Seq<u16>, w: Seq<Packet>)
    ensures
        resolved_resends(xs + ys, w) == resolved_resends(xs, w) + resolved_resends(ys, w),
    decreases xs.len(),
{
    if xs.len() == 0 {
        assert(xs + ys =~= ys);
        assert(resolved_resends(xs, w) + resolved_resends(ys, w) =~= resolved_resends(ys, w));
    } else {
        assert((xs + ys)[0] == xs[0]);
        assert((xs + ys).drop_first() =~= xs.drop_first() + ys);
        lemma_resolved_append(xs.drop_first(), ys, w);
        assert(resolved_resends(xs + ys, w) =~= resolved_resends(xs, w) + resolved_resends(
            ys,
            w,
        ));
    }
}

/// Scanning one more in-flight packet extends the triple-duplicate list by
/// its number exactly when it is past the acknowledgment.
proof fn lemma_dup_seqs_take_step(w: Seq<Packet>, i: int, ack: u16)
    requires
        0 <= i < w.len(),
    ensures
        dup_resend_seqs(w.take(i + 1), ack) == dup_resend_seqs(w.take(i), ack) + (if w[i].seq_nr
            > ack {
            seq![w[i].seq_nr]
        } else {
            Seq::empty()
        }),
    decreases i,
{
    let tail: Seq<u16> = if w[i].seq_nr > ack {
        seq![w[i].seq_nr]
    } else {
        Seq::empty()
    };
    if i == 0 {
        assert(w.take(0int) =~= Seq::<Packet>::empty());
        assert(w.take(1int)[0] == w[0]);
        assert(w.take(1int).drop_first() =~= Seq::<Packet>::empty());
        assert(dup_resend_seqs(w.take(1int), ack) =~= dup_resend_seqs(w.take(0int), ack) + tail);
    } else {
        assert(w.take(i + 1)[0] == w[0]);
        assert(w.take(i)[0] == w[0]);
        assert(w.take(i + 1).drop_first() =~= w.drop_first().take(i));
        assert(w.take(i).drop_first() =~= w.drop_first().take(i - 1));
        assert(w.drop_first()[i - 1] == w[i]);
        lemma_dup_seqs_take_step(w.drop_first(), i - 1, ack);
        assert(dup_resend_seqs(w.take(i + 1), ack) =~= dup_resend_seqs(w.take(i), ack) + tail);
    }
}

/// One retransmission request appends exactly the resolved copy of that
/// number to the queue past `n0`.
proof fn lemma_asked_one(
    prev: Seq<Packet>,
    cur: Seq<Packet>,
    w: Seq<Packet>,
    s: u16,
    n0: int,
    asked: Seq<u16>,
)
    requires
        0 <= n0 <= prev.len(),
        packet_views(prev.skip(n0)) == resolved_resends(asked, w),
        find_seq(w, s) < 0 ==> cur == prev,
        find_seq(w, s) >= 0 ==> cur.len() == prev.len() + 1 && cur.take(prev.len() as int) == prev
            && cur.last()@ == w[find_seq(w, s)]@,
    ensures
        packet_views(cur.skip(n0)) == resolved_resends(asked + seq![s], w),
{
    lemma_resolved_append(asked, seq![s], w);
    assert(seq![s].drop_first() =~= Seq::<u16>::empty());
    assert(seq![s][0] == s);
    assert(resolved_resends(Seq::<u16>::empty(), w) == Seq::<PacketModel>::empty());
    if find_seq(w, s) < 0 {
        assert(resolved_resends(seq![s], w) =~= Seq::<PacketModel>::empty());
        assert(packet_views(cur.skip(n0)) =~= resolved_resends(asked, w) + resolved_resends(
            seq![s],
            w,
        ));
    } else {
        assert(resolved_resends(seq![s], w) =~= seq![w[find_seq(w, s)]@]);
        assert forall|k: int| 0 <= k < prev.len() implies cur[k] == prev[k] by {
            assert(cur.take(prev.len() as int)[k] == cur[k]);
            assert(prev[k] == cur.take(prev.len() as int)[k]);
        }
        assert(packet_views(cur.skip(n0)) =~= resolved_resends(asked, w) + resolved_resends(
            seq![s],
            w,
        )) by {
            assert forall|k: int| 0 <= k < cur.len() - n0 implies #[trigger] packet_views(
                cur.skip(n0),
            )[k] == (resolved_resends(asked, w) + resolved_resends(seq![s], w))[k] by {
                assert(packet_views(cur.skip(n0))[k] == cur.skip(n0)[k]@);
                assert(cur.skip(n0)[k] == cur[n0 + k]);
                if n0 + k < prev.len() {
                    assert(cur[n0 + k] == prev[n0 + k]);
                    assert(prev.skip(n0)[k] == prev[n0 + k]);
                    assert(packet_views(prev.skip(n0))[k] == prev[n0 + k]@);
                } else {
                    assert(cur[n0 + k] == cur.last());
                }
            }
        }
    }
}

impl UtpSocket {
    /// The State reply owed to a Data packet: when the packet left a gap
    /// past `ack_nr`, the reply carries the selective-ack bitmap of the
    /// buffered packets (omitted when empty).
    pub fn handle_data_packet(&self, packet: &Packet, now: u32) -> (r: Option<Packet>)
        requires
            self.wf(),
        ensures
            r matches Some(rep) && reply_shape(*self, packet@, PacketType::State, now, rep@)
                && data_reply_exts(*self, packet@, rep@) && rep@.wnd_size == 0 && storable(rep@),
    {
        let mut reply = self.prepare_reply(packet, PacketType::State, now);
        proof {
            assert(packet.seq_nr.wrapping_sub(self.ack_nr) == wrap_diff(
                packet@.seq_nr,
                self.ack_nr,
            ));
        }
        if packet.seq_nr.wrapping_sub(self.ack_nr) > 1 {
            let sack = self.build_selective_ack();
            if sack.len() > 0 {
                let ghost bm = sack@;
                reply.set_sack(Some(sack));
                proof {
                    assert(reply@.extensions =~= seq![(SELECTIVE_ACK_TYPE, bm)]);
                    assert(encodable(reply@));
                    assert(reply@.extensions.drop_first() =~= Seq::<(u8, Seq<u8>)>::empty());
                    assert(reply@.extensions[0] == (SELECTIVE_ACK_TYPE, bm));
                    assert(crate::packet::ext_wire_len(Seq::<(u8, Seq<u8>)>::empty()) == 0);
                    assert(crate::packet::ext_wire_len(reply@.extensions) == 2 + bm.len());
                    assert(spec_len(reply@) == HEADER_SIZE + 2 + bm.len());
                    assert(data_reply_exts(*self, packet@, reply@));
                }
            }
        }
        Some(reply)
    }

    /// Processes one State packet: duplicate-acknowledgment bookkeeping, the
    /// delay and congestion update chain, selective-ack and triple-duplicate
    /// retransmission, and the cumulative advance of the send window.
    pub fn handle_state_packet(&mut self, packet: &Packet, now: u32)
        requires
            old(self).wf(),
            storable(packet@),
        ensures
            final(self).wf(),
            state_packet_post(*old(self), *final(self), packet@, now),
    {
        let ghost pre = *old(self);
        if packet.ack_nr == self.last_acked {
            if self.duplicate_ack_count < u32::MAX {
                self.duplicate_ack_count = self.duplicate_ack_count + 1;
            }
        } else {
            self.last_acked = packet.ack_nr;
            self.last_acked_timestamp = now;
            self.duplicate_ack_count = 1;
        }
        let now64: i64 = now as i64;
        self.update_base_delay(packet.timestamp_microseconds as i64, now64);
        self.update_current_delay(packet.timestamp_difference_microseconds as i64, now64);
        let qd: i64 = self.queuing_delay();
        proof {
            crate::packet::lemma_encode_len(packet@);
        }
        let bytes_newly_acked: u32 = packet.len() as u32;
        self.update_congestion_window(qd, bytes_newly_acked);
        let ot: i64 = div_trunc_i64(TARGET - qd, TARGET as u64);
        proof {
            assert(-43000 <= ot <= 43000) by (nonlinear_arith)
                requires
                    ot == trunc_div(TARGET - qd, TARGET as int),
                    -(u32::MAX as int) <= qd <= u32::MAX,
                    TARGET == 100_000,
            ;
        }
        let tmo: i64 = TARGET - ot;
        let cd: i32 = ((tmo as u64) / 1000) as i32;
        self.update_congestion_timeout(cd);
        let ghost mid = *self;
        let ghost a = packet@.ack_nr;
        let ghost w = pre.send_window@;
        let ghost exts = packet@.extensions;
        let mut packet_loss_detected: bool = self.send_window.len() > 0
            && self.duplicate_ack_count == 3;
        let ghost dup_loss = packet_loss_detected;
        let ghost n0 = self.pending_resends@.len() as int;
        let ghost mut asked: Seq<u16> = Seq::empty();
        proof {
            assert(self.pending_resends@.skip(n0) =~= Seq::<Packet>::empty());
            assert(packet_views(Seq::<Packet>::empty()) =~= Seq::<PacketModel>::empty());
            assert(exts.take(0int) =~= Seq::<(u8, Seq<u8>)>::empty());
        }
        let mut e: usize = 0;
        while e < packet.extensions.len()
            invariant
                self.wf(),
                storable(packet@),
                a == packet@.ack_nr,
                w == pre.send_window@,
                exts == packet@.extensions,
                self.pending_resends@.len() >= n0,
                n0 == pre.pending_resends@.len(),
                self.pending_resends@.take(n0) == pre.pending_resends@,
                forall|k: int|
                    n0 <= k < self.pending_resends@.len() ==> from_window(
                        #[trigger] self.pending_resends@[k],
                        pre.send_window@,
                    ),
                e <= exts.len(),
                asked == sack_resend_seqs(exts.take(e as int), a, w),
                packet_views(self.pending_resends@.skip(n0)) == resolved_resends(asked, w),
                packet_loss_detected == (dup_loss || sack_flags_loss(exts.take(e as int), a, w)),
                *self == (UtpSocket { pending_resends: self.pending_resends, ..mid }),
                mid.send_window == pre.send_window,
            decreases packet.extensions@.len() - e,
        {
            proof {
                assert(packet@.extensions[e as int] == packet.extensions@[e as int]@);
            }
            let ext = &packet.extensions[e];
            proof {
                assert(packet@.extensions[e as int].0 != 0 && packet@.extensions[e as int].1.len()
                    <= 255);
                assert(ext.data@.len() <= 255);
            }
            let ghost pre_ext_loss = packet_loss_detected;
            let ghost pre_ext_asked = asked;
            if ext.get_type() == crate::packet::ExtensionType::SelectiveAck {
                let ghost d = ext.data@;
                proof {
                    assert(d == exts[e as int].1 && exts[e as int].0 == SELECTIVE_ACK_TYPE);
                }
                let nbits: usize = ext.bit_count();
                let mut ones: usize = 0;
                let mut idx: usize = 0;
                while idx < nbits
                    invariant
                        nbits == d.len() * 8,
                        d == ext.data@,
                        idx <= nbits,
                        ones <= idx,
                        ones + count_set_bits(d, idx as int) == count_set_bits(d, 0),
                    decreases nbits - idx,
                {
                    if ext.bit_at(idx) {
                        ones = ones + 1;
                    }
                    idx = idx + 1;
                }
                proof {
                    assert(count_set_bits(d, nbits as int) == 0);
                    assert(ones == count_set_bits(d, 0));
                }
                let ghost head_list: Seq<u16> = if ones >= 3 {
                    seq![wrap_inc(a)]
                } else {
                    Seq::empty()
                };
                if ones >= 3 {
                    let ghost prevr = self.pending_resends@;
                    let lost: u16 = packet.ack_nr.wrapping_add(1);
                    proof {
                        assert(lost == wrap_inc(a));
                    }
                    self.resend_lost_packet(lost);
                    proof {
                        lemma_find_seq_props(pre.send_window@, lost);
                        lemma_resend_extends(
                            prevr,
                            self.pending_resends@,
                            pre.send_window@,
                            pre.pending_resends@,
                            n0,
                            find_seq(pre.send_window@, lost),
                        );
                        lemma_asked_one(prevr, self.pending_resends@, w, lost, n0, asked);
                        asked = asked + seq![lost];
                        assert(asked =~= pre_ext_asked + head_list);
                    }
                    packet_loss_detected = true;
                } else {
                    proof {
                        assert(asked =~= pre_ext_asked + head_list);
                    }
                }
                let ghost wlast: u16 = if w.len() > 0 {
                    w.last().seq_nr
                } else {
                    0
                };
                let ghost mut emitted: Seq<u16> = Seq::empty();
                proof {
                    assert(asked =~= (pre_ext_asked + head_list) + emitted);
                }
                let mut idx: usize = 0;
                while idx < nbits
                    invariant
                        nbits == d.len() * 8,
                        nbits <= 2040,
                        d == ext.data@,
                        idx <= nbits,
                        self.wf(),
                        a == packet@.ack_nr,
                        w == pre.send_window@,
                        wlast == (if w.len() > 0 {
                            w.last().seq_nr
                        } else {
                            0u16
                        }),
                        self.pending_resends@.len() >= n0,
                        n0 == pre.pending_resends@.len(),
                        self.pending_resends@.take(n0) == pre.pending_resends@,
                        forall|k: int|
                            n0 <= k < self.pending_resends@.len() ==> from_window(
                                #[trigger] self.pending_resends@[k],
                                pre.send_window@,
                            ),
                        asked == (pre_ext_asked + head_list) + emitted,
                        packet_views(self.pending_resends@.skip(n0)) == resolved_resends(asked, w),
                        w.len() > 0 ==> sack_scan(d, 0, a, wlast) == emitted + sack_scan(
                            d,
                            idx as int,
                            a,
                            wlast,
                        ),
                        w.len() == 0 ==> emitted == Seq::<u16>::empty(),
                        packet_loss_detected == (pre_ext_loss || ones >= 3 || emitted.len() > 0),
                        *self == (UtpSocket { pending_resends: self.pending_resends, ..mid }),
                        mid.send_window == pre.send_window,
                    ensures
                        self.wf(),
                        self.pending_resends@.len() >= n0,
                        self.pending_resends@.take(n0) == pre.pending_resends@,
                        forall|k: int|
                            n0 <= k < self.pending_resends@.len() ==> from_window(
                                #[trigger] self.pending_resends@[k],
                                pre.send_window@,
                            ),
                        asked == (pre_ext_asked + head_list) + emitted,
                        packet_views(self.pending_resends@.skip(n0)) == resolved_resends(asked, w),
                        w.len() > 0 ==> emitted == sack_scan(d, 0, a, wlast),
                        w.len() == 0 ==> emitted == Seq::<u16>::empty(),
                        packet_loss_detected == (pre_ext_loss || ones >= 3 || emitted.len() > 0),
                        *self == (UtpSocket { pending_resends: self.pending_resends, ..mid }),
                    decreases nbits - idx,
                {
                    let received = ext.bit_at(idx);
                    let sn: u16 = packet.ack_nr.wrapping_add(2).wrapping_add(idx as u16);
                    proof {
                        lemma_sack_nth_seq(a, idx as int);
                        assert(sn == sack_nth_seq(a, idx as int));
                    }
                    if received {
                        proof {
                            if w.len() > 0 {
                                assert(sack_scan(d, idx as int, a, wlast) == sack_scan(
                                    d,
                                    idx + 1,
                                    a,
                                    wlast,
                                ));
                            }
                        }
                    } else if self.send_window.len() > 0 && sn < self.send_window[
                        self.send_window.len() - 1].seq_nr {
                        proof {
                            assert(self.send_window@ == w);
                            assert(self.send_window@[self.send_window@.len() - 1] == w.last());
                            assert(sn < wlast);
                            assert(sack_scan(d, idx as int, a, wlast) == seq![sn] + sack_scan(
                                d,
                                idx + 1,
                                a,
                                wlast,
                            ));
                        }
                        let ghost prevr = self.pending_resends@;
                        self.resend_lost_packet(sn);
                        proof {
                            lemma_find_seq_props(pre.send_window@, sn);
                            lemma_resend_extends(
                                prevr,
                                self.pending_resends@,
                                pre.send_window@,
                                pre.pending_resends@,
                                n0,
                                find_seq(pre.send_window@, sn),
                            );
                            lemma_asked_one(prevr, self.pending_resends@, w, sn, n0, asked);
                            asked = asked + seq![sn];
                            emitted = emitted.push(sn);
                            assert(asked =~= (pre_ext_asked + head_list) + emitted);
                            assert(sack_scan(d, 0, a, wlast) =~= emitted + sack_scan(
                                d,
                                idx + 1,
                                a,
                                wlast,
                            ));
                        }
                        packet_loss_detected = true;
                    } else {
                        proof {
                            if w.len() > 0 {
                                assert(self.send_window@ == w);
                                assert(self.send_window@[self.send_window@.len() - 1] == w.last());
                                assert(!(sn < wlast));
                                assert(sack_scan(d, idx as int, a, wlast) == Seq::<u16>::empty());
                                assert(emitted + sack_scan(d, idx as int, a, wlast) =~= emitted);
                            }
                        }
                        break ;
                    }
                    idx = idx + 1;
                }
                proof {
                    if w.len() > 0 {
                        assert(sack_scan(d, nbits as int, a, wlast) == Seq::<u16>::empty());
                    }
                    let scan_part: Seq<u16> = if w.len() > 0 {
                        sack_scan(d, 0, a, wlast)
                    } else {
                        Seq::<u16>::empty()
                    };
                    assert(emitted == scan_part);
                    assert(ext_resend_seqs(exts[e as int], a, w) == head_list + scan_part);
                    lemma_sack_seqs_take_step(exts, e as int, a, w);
                    assert(asked =~= sack_resend_seqs(exts.take(e + 1), a, w));
                    assert(ext_flags_loss(exts[e as int], a, w) == (ones >= 3 || emitted.len()
                        > 0));
                    assert(packet_loss_detected == (dup_loss || sack_flags_loss(
                        exts.take(e + 1),
                        a,
                        w,
                    )));
                }
            } else {
                proof {
                    assert(exts[e as int].0 != SELECTIVE_ACK_TYPE);
                    assert(ext_resend_seqs(exts[e as int], a, w) == Seq::<u16>::empty());
                    assert(!ext_flags_loss(exts[e as int], a, w));
                    lemma_sack_seqs_take_step(exts, e as int, a, w);
                    assert(asked =~= sack_resend_seqs(exts.take(e + 1), a, w));
                }
            }
            e = e + 1;
        }
        proof {
            assert(exts.take(e as int) =~= exts);
        }
        let ghost full_sack = sack_resend_seqs(exts, a, w);
        if packet_loss_detected {
            let halved: u32 = self.cwnd / 2;
            self.cwnd = if halved >= MIN_CWND * MSS {
                halved
            } else {
                MIN_CWND * MSS
            };
        }
        let ghost mid2 = *self;
        if self.send_window.len() > 0 && self.duplicate_ack_count == 3 {
            let ghost win = self.send_window@;
            proof {
                assert(win.take(0int) =~= Seq::<Packet>::empty());
                assert(asked + dup_resend_seqs(win.take(0int), a) =~= asked);
            }
            let mut i: usize = 0;
            while i < self.send_window.len()
                invariant
                    self.wf(),
                    win == self.send_window@,
                    win == pre.send_window@,
                    w == pre.send_window@,
                    a == packet@.ack_nr,
                    i <= win.len(),
                    self.pending_resends@.len() >= n0,
                    n0 == pre.pending_resends@.len(),
                    self.pending_resends@.take(n0) == pre.pending_resends@,
                    forall|k: int|
                        n0 <= k < self.pending_resends@.len() ==> from_window(
                            #[trigger] self.pending_resends@[k],
                            pre.send_window@,
                        ),
                    forall|j: int|
                        0 <= j < i && (#[trigger] win[j]).seq_nr > packet@.ack_nr ==> resent_seq(
                            self.pending_resends@,
                            n0,
                            win[j].seq_nr,
                        ),
                    asked == full_sack + dup_resend_seqs(win.take(i as int), a),
                    packet_views(self.pending_resends@.skip(n0)) == resolved_resends(asked, w),
                    *self == (UtpSocket { pending_resends: self.pending_resends, ..mid2 }),
                    mid2.send_window == pre.send_window,
                decreases win.len() - i,
            {
                let sn: u16 = self.send_window[i].seq_nr;
                if sn <= packet.ack_nr {
                    proof {
                        lemma_dup_seqs_take_step(win, i as int, a);
                        assert(dup_resend_seqs(win.take(i + 1), a) =~= dup_resend_seqs(
                            win.take(i as int),
                            a,
                        ));
                    }
                    i = i + 1;
                    continue ;
                }
                proof {
                    lemma_find_seq_props(self.send_window@, sn);
                    if find_seq(self.send_window@, sn) < 0 {
                        assert(self.send_window@[i as int].seq_nr == sn);
                        assert(false);
                    }
                }
                let ghost prevr = self.pending_resends@;
                self.resend_lost_packet(sn);
                proof {
                    lemma_resend_extends(
                        prevr,
                        self.pending_resends@,
                        pre.send_window@,
                        pre.pending_resends@,
                        n0,
                        find_seq(pre.send_window@, sn),
                    );
                    lemma_asked_one(prevr, self.pending_resends@, w, sn, n0, asked);
                    asked = asked + seq![sn];
                    lemma_dup_seqs_take_step(win, i as int, a);
                    assert(asked =~= full_sack + dup_resend_seqs(win.take(i + 1), a));
                    assert(self.pending_resends@.last().seq_nr == sn);
                    assert forall|j: int|
                        0 <= j < i + 1 && (#[trigger] win[j]).seq_nr > packet@.ack_nr implies resent_seq(
                        self.pending_resends@,
                        n0,
                        win[j].seq_nr,
                    ) by {
                        if j < i && win[j].seq_nr > packet@.ack_nr {
                            lemma_resent_seq_monotone(
                                prevr,
                                self.pending_resends@,
                                n0,
                                win[j].seq_nr,
                            );
                        } else if j == i {
                            let k = self.pending_resends@.len() - 1;
                            assert(n0 <= k < self.pending_resends@.len()
                                && self.pending_resends@[k].seq_nr == win[j].seq_nr);
                            assert(resent_seq(self.pending_resends@, n0, win[j].seq_nr));
                        }
                    }
                }
                i = i + 1;
            }
            proof {
                assert(win.take(win.len() as int) =~= win);
            }
        } else {
            proof {
                assert(asked =~= full_sack + Seq::<u16>::empty());
            }
        }
        self.advance_send_window();
    }

    /// Handles one inbound packet against the transition table, returning
    /// the reply to transmit when one is owed. A packet that is neither a
    /// Syn greeting a fresh socket nor stamped with one of the connection's
    /// identifiers is answered with a Reset and otherwise ignored.
    /// Retransmissions decided here are queued on `pending_resends`.
    pub fn handle_packet(&mut self, packet: &Packet, now: u32) -> (r: Result<
        Option<Packet>,
        SocketError,
    >)
        requires
            old(self).wf(),
            storable(packet@),
            conn_id_matches(*old(self), packet@) ==> handled_pair(old(self).state, packet@.ty),
        ensures
            final(self).wf(),
            handle_post(
                *old(self),
                *final(self),
                packet@,
                now,
                match r {
                    Ok(Some(rep)) => Ok(Some(rep@)),
                    Ok(None) => Ok(None),
                    Err(e) => Err(e),
                },
            ),
            r matches Ok(Some(rep)) ==> storable(rep@) && rep@.wnd_size == 0,
    {
        if packet.seq_nr.wrapping_sub(self.ack_nr) == 1 {
            self.ack_nr = packet.seq_nr;
        }
        if !((self.state == SocketState::New && packet.get_type() == PacketType::Syn)
            || packet.connection_id == self.sender_connection_id || packet.connection_id
            == self.receiver_connection_id) {
            return Ok(Some(self.prepare_reply(packet, PacketType::Reset, now)));
        }
        self.remote_wnd_size = packet.wnd_size;
        match (self.state, packet.get_type()) {
            (SocketState::New, PacketType::Syn) => {
                self.ack_nr = packet.seq_nr;
                self.seq_nr = rand::random::<u16>();
                self.receiver_connection_id = packet.connection_id.wrapping_add(1);
                self.sender_connection_id = packet.connection_id;
                self.state = SocketState::Connected;
                Ok(Some(self.prepare_reply(packet, PacketType::State, now)))
            },
            (SocketState::SynSent, PacketType::State) => {
                self.ack_nr = packet.seq_nr;
                self.seq_nr = self.seq_nr.wrapping_add(1);
                self.state = SocketState::Connected;
                self.last_acked = packet.ack_nr;
                self.last_acked_timestamp = now;
                Ok(None)
            },
            (SocketState::SynSent, _) => Err(SocketError::ConnectionFailed),
            (SocketState::Connected, PacketType::Syn) => Ok(None),
            (SocketState::Connected, PacketType::Data) => Ok(self.handle_data_packet(packet, now)),
            (SocketState::Connected, PacketType::State) => {
                self.handle_state_packet(packet, now);
                Ok(None)
            },
            (SocketState::Connected, PacketType::Fin) => {
                self.state = SocketState::FinReceived;
                self.fin_seq_nr = packet.seq_nr;
                if self.no_pending_data() && self.ack_nr == self.fin_seq_nr {
                    self.state = SocketState::Closed;
                    Ok(Some(self.prepare_reply(packet, PacketType::State, now)))
                } else {
                    Ok(None)
                }
            },
            (SocketState::FinSent, PacketType::State) => {
                if packet.ack_nr == self.seq_nr {
                    self.state = SocketState::Closed;
                }
                Ok(None)
            },
            (_, PacketType::Reset) => {
                self.state = SocketState::ResetReceived;
                Err(SocketError::ConnectionReset)
            },
            _ => {
                proof {
                    assert(false);
                }
                vstd::pervasive::unreached()
            },
        }
    }
}


impl UtpSocket {
    /// Reacts to a receive deadline that expired: the congestion timeout
    /// doubles (stopping at the top of its range) and the congestion window
    /// shrinks to one segment. The caller then transmits the fast-resend
    /// request three times.
    pub fn handle_receive_timeout(&mut self)
        requires
            old(self).wf(),
        ensures
            final(self).wf(),
            final(self).congestion_timeout == if old(self).congestion_timeout * 2 <= u64::MAX {
                old(self).congestion_timeout * 2
            } else {
                u64::MAX as int
            },
            final(self).cwnd == MSS,
            *final(self) == (UtpSocket {
                congestion_timeout: final(self).congestion_timeout,
                cwnd: MSS,
                ..*old(self)
            }),
    {
        self.congestion_timeout = if self.congestion_timeout <= u64::MAX / 2 {
            self.congestion_timeout * 2
        } else {
            u64::MAX
        };
        self.cwnd = MSS;
    }

    /// One State packet of a fast-resend request: current counters, the
    /// full receive window, stamped with the clock `now` and the time since
    /// the last acknowledgment. Sent [`FAST_RESEND_COUNT`] times in a row
    /// (each stamped at its own instant), it prompts the peer to retransmit
    /// at once.
    pub fn fast_resend_packet(&self, now: u32) -> (r: Packet)
        ensures
            r@.ty == PacketType::State,
            r@.connection_id == self.sender_connection_id,
            r@.seq_nr == self.seq_nr,
            r@.ack_nr == self.ack_nr,
            r@.wnd_size == BUF_SIZE,
            r@.timestamp_microseconds == now,
            r@.timestamp_difference_microseconds == now.wrapping_sub(self.last_acked_timestamp),
            r@.extensions.len() == 0,
            r@.payload.len() == 0,
            storable(r@),
            spec_len(r@) == HEADER_SIZE,
    {
        let mut packet = Packet::new();
        packet.set_wnd_size(BUF_SIZE as u32);
        packet.set_type(PacketType::State);
        packet.set_ack_nr(self.ack_nr);
        packet.set_seq_nr(self.seq_nr);
        packet.set_connection_id(self.sender_connection_id);
        packet.set_timestamp_microseconds(now);
        packet.set_timestamp_difference_microseconds(now.wrapping_sub(self.last_acked_timestamp));
        packet
    }

    /// Feeds one received datagram's packet through the socket: a Data
    /// packet not before the next expected sequence number enters the
    /// reorder buffer (replacing a stored duplicate), then the packet drives
    /// the transition table, and any reply is stamped with the full receive
    /// window. Retransmissions land on `pending_resends`. While a partially
    /// consumed head packet exists, a buffered packet must not displace it
    /// except as a faithful retransmission (see
    /// [`Self::insert_keeps_pending`]).
    pub fn process_incoming(&mut self, packet: Packet, now: u32) -> (r: Result<
        Option<Packet>,
        SocketError,
    >)
        requires
            old(self).wf(),
            storable(packet@),
            conn_id_matches(*old(self), packet@) ==> handled_pair(old(self).state, packet@.ty),
            (packet@.ty == PacketType::Data && old(self).ack_nr.wrapping_add(1) <= packet.seq_nr)
                ==> old(self).insert_keeps_pending(packet),
        ensures
            final(self).wf(),
            ({
                let buffered = packet@.ty == PacketType::Data && old(self).ack_nr.wrapping_add(1)
                    <= packet.seq_nr;
                let mid = UtpSocket {
                    incoming_buffer: final(self).incoming_buffer,
                    ..*old(self)
                };
                &&& (buffered ==> final(self).incoming_buffer@ == crate::buffer::buf_insert(
                    old(self).incoming_buffer@,
                    packet,
                ))
                &&& (!buffered ==> final(self).incoming_buffer@ == old(self).incoming_buffer@)
                &&& handle_post(
                    mid,
                    *final(self),
                    packet@,
                    now,
                    match r {
                        Ok(Some(rep)) => Ok(Some(PacketModel { wnd_size: 0, ..rep@ })),
                        Ok(None) => Ok(None),
                        Err(e) => Err(e),
                    },
                )
            }),
            r matches Ok(Some(rep)) ==> storable(rep@) && rep@.wnd_size == BUF_SIZE,
    {
        let copy = packet.duplicate();
        let buffered = packet.get_type() == PacketType::Data && self.ack_nr.wrapping_add(1)
            <= packet.seq_nr;
        if buffered {
            self.insert_into_buffer(packet);
        }
        let ghost mid = *self;
        let result = self.handle_packet(&copy, now);
        match result {
            Ok(Some(mut rep)) => {
                proof {
                    crate::packet::lemma_encode_len(rep@);
                }
                let ghost shape = rep@;
                rep.set_wnd_size(BUF_SIZE as u32);
                proof {
                    assert((PacketModel { wnd_size: 0, ..rep@ }) =~= shape);
                }
                Ok(Some(rep))
            },
            Ok(None) => Ok(None),
            Err(e) => Err(e),
        }
    }
}


/// The connection-identifier roles: accepting a Syn adopts the peer's
/// identifier as our send identifier with the receive identifier one above
/// it, and every other transition leaves both identifiers alone — so an
/// initiator created by [`UtpSocket::bind`] keeps
/// `send_id = recv_id + 1` for the connection's whole life, and an acceptor
/// keeps `recv_id = send_id + 1` (the mirror of the initiator's pair).
pub proof fn lemma_connection_id_roles(
    pre: UtpSocket,
    post: UtpSocket,
    p: PacketModel,
    now: u32,
    r: Result<Option<PacketModel>, SocketError>,
)
    requires
        handle_post(pre, post, p, now, r),
        conn_id_matches(pre, p) ==> handled_pair(pre.state, p.ty),
    ensures
        (pre.state == SocketState::New && p.ty == PacketType::Syn) ==> {
            &&& post.sender_connection_id == p.connection_id
            &&& post.receiver_connection_id == wrap_inc(post.sender_connection_id)
        },
        !(pre.state == SocketState::New && p.ty == PacketType::Syn) ==> {
            &&& post.sender_connection_id == pre.sender_connection_id
            &&& post.receiver_connection_id == pre.receiver_connection_id
        },
{
    let mismatch = !(pre.state == SocketState::New && p.ty == PacketType::Syn)
        && !conn_id_matches(pre, p);
    if pre.state == SocketState::New && p.ty == PacketType::Syn {
    } else if mismatch {
    } else if pre.state == SocketState::SynSent {
    } else if pre.state == SocketState::Connected {
        if p.ty == PacketType::State {
            assert(post.sender_connection_id == pre.sender_connection_id);
        }
    }
}

} // verus!
