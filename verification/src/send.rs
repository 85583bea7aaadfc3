//! The send engine: chunking outbound bytes into data packets, admitting
//! them to the wire against the inflight budget, and the handshake and
//! teardown packets.

use vstd::prelude::*;

use crate::buffer::{contiguous_run, payload_stream};
use crate::packet::{spec_len, Packet, PacketModel, PacketType, HEADER_SIZE};
use crate::socket::{storable, window_bytes, SocketError, SocketState, UtpSocket, MIN_CWND, MSS};

verus! {

/// Payload bytes each data packet carries: a segment minus its header.
pub const CHUNK: usize = 1380;

/// `a + k` on 16-bit sequence numbers, wrapping (for `k >= 0`).
pub open spec fn wrap_add16(a: u16, k: int) -> u16 {
    ((a + k) % 0x10000) as u16
}

/// Number of segments a buffer of `len` bytes is cut into.
pub open spec fn chunk_count(len: int) -> int {
    (len + CHUNK - 1) / (CHUNK as int)
}

/// The payload of segment `i` of a buffer.
pub open spec fn chunk_payload(b: Seq<u8>, i: int) -> Seq<u8> {
    b.subrange(
        i * (CHUNK as int),
        if (i + 1) * (CHUNK as int) <= b.len() {
            (i + 1) * (CHUNK as int)
        } else {
            b.len() as int
        },
    )
}

/// The inflight budget: the congestion window bounded by the peer's
/// advertised window, but never under the window floor.
pub open spec fn spec_max_inflight(s: UtpSocket) -> int {
    let w = if s.cwnd <= s.remote_wnd_size {
        s.cwnd as int
    } else {
        s.remote_wnd_size as int
    };
    if w >= MIN_CWND * MSS {
        w
    } else {
        MIN_CWND * MSS as int
    }
}

pub proof fn lemma_wrap_add16_step(a: u16, k: int)
    requires
        k >= 0,
    ensures
        wrap_add16(a, k + 1) == crate::socket::wrap_inc(wrap_add16(a, k)),
        wrap_add16(a, 0) == a,
{
    let m: int = 0x10000;
    assert((a + k) % m == wrap_add16(a, k) as int);
    assert((a + k + 1) % m == ((a + k) % m + 1) % m) by (nonlinear_arith)
        requires
            m == 0x10000,
            a + k >= 0,
    ;
    if wrap_add16(a, k) == 0xffff {
        assert((0xffffint + 1) % m == 0);
    } else {
        assert((wrap_add16(a, k) as int + 1) % m == wrap_add16(a, k) + 1);
    }
}

/// Copies `b[start..end]` into a fresh vector.
fn slice_range(b: &[u8], start: usize, end: usize) -> (r: Vec<u8>)
    requires
        start <= end <= b@.len(),
    ensures
        r@ == b@.subrange(start as int, end as int),
{
    let mut r: Vec<u8> = Vec::new();
    let mut i: usize = start;
    while i < end
        invariant
            start <= i <= end <= b@.len(),
            r@ == b@.subrange(start as int, i as int),
        decreases end - i,
    {
        r.push(b[i]);
        i = i + 1;
        assert(r@ =~= b@.subrange(start as int, i as int));
    }
    r
}

impl UtpSocket {
    /// Cuts `buf` into data packets of at most one segment each, assigning
    /// consecutive sequence numbers, and queues them for transmission; on a
    /// closed socket nothing is queued.
    #[verifier::loop_isolation(false)]
    pub fn queue_data(&mut self, buf: &[u8]) -> (r: Result<(), SocketError>)
        requires
            old(self).wf(),
        ensures
            final(self).wf(),
            old(self).state == SocketState::Closed ==> r == Err::<(), SocketError>(
                SocketError::Closed,
            ) && *final(self) == *old(self),
            old(self).state != SocketState::Closed ==> {
                let n = chunk_count(buf@.len() as int);
                &&& r is Ok
                &&& final(self).seq_nr == wrap_add16(old(self).seq_nr, n)
                &&& final(self).unsent_queue@.len() == old(self).unsent_queue@.len() + n
                &&& final(self).unsent_queue@.take(old(self).unsent_queue@.len() as int) == old(
                    self,
                ).unsent_queue@
                &&& (forall|i: int|
                    0 <= i < n ==> {
                        let q = (#[trigger] final(self).unsent_queue@[old(
                            self,
                        ).unsent_queue@.len() + i])@;
                        &&& q.ty == PacketType::Data
                        &&& q.payload == chunk_payload(buf@, i)
                        &&& q.seq_nr == wrap_add16(old(self).seq_nr, i)
                        &&& q.ack_nr == old(self).ack_nr
                        &&& q.connection_id == old(self).sender_connection_id
                        &&& q.extensions.len() == 0
                    })
                &&& *final(self) == (UtpSocket {
                    seq_nr: final(self).seq_nr,
                    unsent_queue: final(self).unsent_queue,
                    ..*old(self)
                })
            },
    {
        if self.state == SocketState::Closed {
            return Err(SocketError::Closed);
        }
        let ghost q0 = self.unsent_queue@;
        let ghost seq0 = self.seq_nr;
        let ghost mut k: int = 0;
        let mut pos: usize = 0;
        proof {
            lemma_wrap_add16_step(seq0, 0);
        }
        while pos < buf.len()
            invariant
                0 <= k,
                pos == if k * CHUNK <= buf@.len() {
                    k * CHUNK
                } else {
                    buf@.len() as int
                },
                k == 0 ==> pos == 0,
                k >= 1 ==> (k - 1) * CHUNK < pos,
                self.seq_nr == wrap_add16(seq0, k),
                self.unsent_queue@.len() == q0.len() + k,
                self.unsent_queue@.take(q0.len() as int) == q0,
                forall|i: int|
                    0 <= i < k ==> {
                        let q = (#[trigger] self.unsent_queue@[q0.len() + i])@;
                        &&& q.ty == PacketType::Data
                        &&& q.payload == chunk_payload(buf@, i)
                        &&& q.seq_nr == wrap_add16(seq0, i)
                        &&& q.ack_nr == old(self).ack_nr
                        &&& q.connection_id == old(self).sender_connection_id
                        &&& q.extensions.len() == 0
                    },
                self.wf(),
                *self == (UtpSocket {
                    seq_nr: self.seq_nr,
                    unsent_queue: self.unsent_queue,
                    ..*old(self)
                }),
            decreases buf@.len() - pos,
        {
            let end: usize = if buf.len() - pos > CHUNK {
                pos + CHUNK
            } else {
                buf.len()
            };
            let payload = slice_range(buf, pos, end);
            let mut packet = Packet::new();
            packet.set_type(PacketType::Data);
            packet.payload = payload;
            packet.set_seq_nr(self.seq_nr);
            packet.set_ack_nr(self.ack_nr);
            packet.set_connection_id(self.sender_connection_id);
            proof {
                assert(packet@.extensions.len() == 0);
                assert(crate::packet::ext_wire_len(packet@.extensions) == 0);
                assert(spec_len(packet@) == HEADER_SIZE + (end - pos));
                assert(packet@.payload =~= chunk_payload(buf@, k)) by {
                    assert(pos == k * CHUNK);
                    assert((k + 1) * CHUNK == pos + CHUNK) by (nonlinear_arith)
                        requires
                            pos == k * CHUNK,
                            CHUNK == 1380,
                    ;
                }
                lemma_wrap_add16_step(seq0, k);
            }
            self.unsent_queue.push(packet);
            if self.seq_nr == u16::MAX {
                self.seq_nr = 0;
            } else {
                self.seq_nr = self.seq_nr + 1;
            }
            proof {
                k = k + 1;
                assert(self.unsent_queue@.take(q0.len() as int) =~= q0);
                assert(k * CHUNK == (k - 1) * CHUNK + CHUNK) by (nonlinear_arith)
                    requires
                        CHUNK == 1380,
                ;
            }
            pos = end;
        }
        proof {
            if buf@.len() == 0 {
                assert(chunk_count(0) == 0);
            } else {
                assert(k == chunk_count(buf@.len() as int)) by (nonlinear_arith)
                    requires
                        CHUNK == 1380,
                        buf@.len() > 0,
                        k >= 1,
                        (k - 1) * CHUNK < buf@.len(),
                        k * CHUNK >= buf@.len(),
                ;
            }
        }
        Ok(())
    }

    /// The inflight budget in bytes: the congestion window bounded by the
    /// peer's advertised window, floored at two segments.
    pub fn max_inflight(&self) -> (r: u32)
        ensures
            r == spec_max_inflight(*self),
    {
        let w: u32 = if self.cwnd <= self.remote_wnd_size {
            self.cwnd
        } else {
            self.remote_wnd_size
        };
        if w >= MIN_CWND * MSS {
            w
        } else {
            MIN_CWND * MSS
        }
    }

    /// Whether the next queued packet fits the inflight budget.
    pub fn can_transmit_next(&self) -> (r: bool)
        requires
            self.wf(),
        ensures
            r == (self.unsent_queue@.len() > 0 && self.curr_window + spec_len(
                self.unsent_queue@[0]@,
            ) <= spec_max_inflight(*self)),
    {
        if self.unsent_queue.len() == 0 {
            return false;
        }
        let len = self.unsent_queue[0].len();
        let mi = self.max_inflight();
        (self.curr_window as u64) + (len as u64) <= (mi as u64)
    }

    /// Pops the next queued packet, stamps it with the clock `now`, and
    /// moves a copy into the send window, charging its bytes to the window
    /// total. The caller transmits the returned packet.
    pub fn take_next_for_transmit(&mut self, now: u32) -> (r: Packet)
        requires
            old(self).wf(),
            old(self).unsent_queue@.len() > 0,
            old(self).curr_window + spec_len(old(self).unsent_queue@[0]@) <= u32::MAX,
        ensures
            final(self).wf(),
            r@ == (PacketModel { timestamp_microseconds: now, ..old(self).unsent_queue@[0]@ }),
            storable(r@),
            final(self).unsent_queue@ == old(self).unsent_queue@.drop_first(),
            final(self).send_window@.len() == old(self).send_window@.len() + 1,
            final(self).send_window@.take(old(self).send_window@.len() as int) == old(
                self,
            ).send_window@,
            final(self).send_window@.last()@ == r@,
            final(self).curr_window == old(self).curr_window + spec_len(r@),
            *final(self) == (UtpSocket {
                unsent_queue: final(self).unsent_queue,
                send_window: final(self).send_window,
                curr_window: final(self).curr_window,
                ..*old(self)
            }),
    {
        let mut packet = self.unsent_queue.remove(0);
        assert(self.unsent_queue@ =~= old(self).unsent_queue@.drop_first());
        packet.set_timestamp_microseconds(now);
        let len = packet.len();
        let copy = packet.duplicate();
        proof {
            lemma_window_bytes_push(self.send_window@, copy);
        }
        self.send_window.push(copy);
        proof {
            assert(self.send_window@.take(old(self).send_window@.len() as int) =~= old(
                self,
            ).send_window@);
        }
        self.curr_window = self.curr_window + len as u32;
        packet
    }

    /// The handshake retry rule: whether another Syn attempt may be made
    /// after `attempts_made` tries, and the doubled per-try timeout to wait
    /// with; five attempts at most.
    pub fn syn_retry(attempts_made: u8, syn_timeout: u64) -> (r: Option<u64>)
        ensures
            r is Some <==> attempts_made < 5,
            r matches Some(t) ==> t == (if syn_timeout <= u64::MAX / 2 {
                (2 * syn_timeout) as int
            } else {
                u64::MAX as int
            }),
    {
        if attempts_made < 5 {
            Some(
                if syn_timeout <= u64::MAX / 2 {
                    syn_timeout * 2
                } else {
                    u64::MAX
                },
            )
        } else {
            None
        }
    }

    /// Whether the peer has yet to acknowledge the last queued sequence
    /// number, so the sender must keep draining acknowledgments.
    pub fn awaiting_final_ack(&self) -> (r: bool)
        ensures
            r == (self.last_acked < self.seq_nr.wrapping_sub(1)),
    {
        self.last_acked < self.seq_nr.wrapping_sub(1)
    }

    /// The Syn packet opening the handshake: it carries the receive
    /// identifier, so the acceptor can derive both roles from it.
    pub fn syn_packet(&self, now: u32) -> (r: Packet)
        ensures
            r@.ty == PacketType::Syn,
            r@.connection_id == self.receiver_connection_id,
            r@.seq_nr == self.seq_nr,
            r@.ack_nr == 0,
            r@.timestamp_microseconds == now,
            r@.extensions.len() == 0,
            r@.payload.len() == 0,
            storable(r@),
            spec_len(r@) == HEADER_SIZE,
    {
        let mut packet = Packet::new();
        packet.set_type(PacketType::Syn);
        packet.set_connection_id(self.receiver_connection_id);
        packet.set_seq_nr(self.seq_nr);
        packet.set_timestamp_microseconds(now);
        packet
    }

    /// Records that the handshake Syn went out.
    pub fn mark_syn_sent(&mut self)
        requires
            old(self).wf(),
        ensures
            final(self).wf(),
            final(self).state == SocketState::SynSent,
            *final(self) == (UtpSocket { state: SocketState::SynSent, ..*old(self) }),
    {
        self.state = SocketState::SynSent;
    }

    /// The Fin packet of the graceful teardown, carrying the current
    /// counters; sending a Fin does not advance `seq_nr`.
    pub fn fin_packet(&self, now: u32) -> (r: Packet)
        ensures
            r@.ty == PacketType::Fin,
            r@.connection_id == self.sender_connection_id,
            r@.seq_nr == self.seq_nr,
            r@.ack_nr == self.ack_nr,
            r@.timestamp_microseconds == now,
            r@.extensions.len() == 0,
            r@.payload.len() == 0,
            storable(r@),
            spec_len(r@) == HEADER_SIZE,
    {
        let mut packet = Packet::new();
        packet.set_connection_id(self.sender_connection_id);
        packet.set_seq_nr(self.seq_nr);
        packet.set_ack_nr(self.ack_nr);
        packet.set_timestamp_microseconds(now);
        packet.set_type(PacketType::Fin);
        packet
    }

    /// Records that the teardown Fin went out.
    pub fn mark_fin_sent(&mut self)
        requires
            old(self).wf(),
        ensures
            final(self).wf(),
            final(self).state == SocketState::FinSent,
            *final(self) == (UtpSocket { state: SocketState::FinSent, ..*old(self) }),
    {
        self.state = SocketState::FinSent;
    }

    /// Whether the socket can serve a read: an end-of-file error once
    /// closed, a closed-connection error after a reset.
    pub fn recv_gate(&self) -> (r: Result<(), SocketError>)
        ensures
            self.state == SocketState::Closed ==> r == Err::<(), SocketError>(
                SocketError::EndOfFile,
            ),
            self.state == SocketState::ResetReceived ==> r == Err::<(), SocketError>(
                SocketError::Closed,
            ),
            (self.state != SocketState::Closed && self.state != SocketState::ResetReceived) ==> r
                is Ok,
    {
        if self.state == SocketState::Closed {
            Err(SocketError::EndOfFile)
        } else if self.state == SocketState::ResetReceived {
            Err(SocketError::Closed)
        } else {
            Ok(())
        }
    }
}

/// Appending a packet adds its wire length to the window total.
pub proof fn lemma_window_bytes_push(w: Seq<Packet>, p: Packet)
    ensures
        window_bytes(w.push(p)) == window_bytes(w) + spec_len(p@),
    decreases w.len(),
{
    assert(window_bytes(Seq::<Packet>::empty()) == 0);
    if w.len() == 0 {
        assert(w.push(p).drop_first() =~= Seq::<Packet>::empty());
        assert(w.push(p)[0] == p);
        assert(window_bytes(w.push(p)) == spec_len(p@) + window_bytes(
            Seq::<Packet>::empty(),
        ));
    } else {
        assert(w.push(p).drop_first() =~= w.drop_first().push(p));
        assert(w.push(p)[0] == w[0]);
        lemma_window_bytes_push(w.drop_first(), p);
    }
}


/// The first `k` segment payloads of a buffer, concatenated.
pub open spec fn chunks_concat(b: Seq<u8>, k: int) -> Seq<u8>
    decreases k,
{
    if k <= 0 {
        Seq::empty()
    } else {
        chunks_concat(b, k - 1) + chunk_payload(b, k - 1)
    }
}

/// The first `m` segments cover exactly the first `m` segments' worth of
/// bytes.
proof fn lemma_chunks_prefix(b: Seq<u8>, m: int)
    requires
        0 <= m,
        (m - 1) * (CHUNK as int) <= b.len(),
    ensures
        chunks_concat(b, m) == b.take(
            if m * (CHUNK as int) <= b.len() {
                m * (CHUNK as int)
            } else {
                b.len() as int
            },
        ),
    decreases m,
{
    let c = CHUNK as int;
    if m == 0 {
        assert(chunks_concat(b, 0) =~= b.take(0));
    } else {
        assert((m - 2) * c <= (m - 1) * c && (m - 1) * c <= m * c) by (nonlinear_arith)
            requires
                c == 1380,
        ;
        lemma_chunks_prefix(b, m - 1);
        let prev_end = if (m - 1) * c <= b.len() {
            (m - 1) * c
        } else {
            b.len() as int
        };
        let this_end = if m * c <= b.len() {
            m * c
        } else {
            b.len() as int
        };
        if (m - 1) * c <= b.len() {
            assert(chunks_concat(b, m) =~= b.take(this_end));
        } else {
            assert(chunk_payload(b, m - 1) =~= Seq::<u8>::empty());
            assert(chunks_concat(b, m) =~= b.take(this_end));
        }
    }
}

/// Chunking covers the whole buffer: the payloads of the queued data
/// packets, in sequence order, concatenate back to the bytes handed to
/// [`UtpSocket::queue_data`]. Together with
/// [`crate::buffer::lemma_run_of_consecutive`] and the delivery contract of
/// [`UtpSocket::flush_incoming_buffer`], a sent buffer is reassembled
/// exactly at the receiver.
pub proof fn lemma_chunks_cover(b: Seq<u8>)
    ensures
        chunks_concat(b, chunk_count(b.len() as int)) == b,
{
    let c = CHUNK as int;
    let n = chunk_count(b.len() as int);
    assert(n >= 0 && (n - 1) * c <= b.len() - 1 && n * c >= b.len()) by (nonlinear_arith)
        requires
            c == 1380,
            n == (b.len() + c - 1) / c,
    ;
    lemma_chunks_prefix(b, n);
    assert(b.take(b.len() as int) =~= b);
}


/// One step of the payload stream, peeled from the right.
proof fn lemma_payload_stream_take(w: Seq<Packet>, m: int)
    requires
        0 <= m < w.len(),
    ensures
        payload_stream(w.take(m + 1)) == payload_stream(w.take(m)) + w[m].payload@,
    decreases m,
{
    if m == 0 {
        assert(w.take(0int) =~= Seq::<Packet>::empty());
        assert(payload_stream(Seq::<Packet>::empty()) == Seq::<u8>::empty());
        assert(w.take(1int)[0] == w[0]);
        assert(w.take(1int).drop_first() =~= Seq::<Packet>::empty());
        assert(payload_stream(w.take(1int)) =~= payload_stream(w.take(0int)) + w[0].payload@);
    } else {
        assert(w.take(m + 1).drop_first() =~= w.drop_first().take(m));
        assert(w.take(m).drop_first() =~= w.drop_first().take(m - 1));
        assert(w.take(m + 1)[0] == w[0]);
        assert(w.take(m)[0] == w[0]);
        lemma_payload_stream_take(w.drop_first(), m - 1);
        assert(w.drop_first()[m - 1] == w[m]);
        assert(payload_stream(w.take(m + 1)) =~= payload_stream(w.take(m)) + w[m].payload@);
    }
}

/// Packets carrying the segments of a buffer stream back its bytes.
proof fn lemma_stream_matches_chunks(b: Seq<u8>, w: Seq<Packet>, m: int)
    requires
        0 <= m <= w.len(),
        forall|i: int| 0 <= i < w.len() ==> (#[trigger] w[i]).payload@ == chunk_payload(b, i),
    ensures
        payload_stream(w.take(m)) == chunks_concat(b, m),
    decreases m,
{
    if m == 0 {
        assert(w.take(0int) =~= Seq::<Packet>::empty());
    } else {
        lemma_stream_matches_chunks(b, w, m - 1);
        lemma_payload_stream_take(w, m - 1);
    }
}

/// The send/receive round trip: the data packets [`UtpSocket::queue_data`]
/// cuts a buffer into — consecutive sequence numbers, one segment of the
/// buffer each — form one contiguous run at a receiver whose acknowledgment
/// state directly precedes them, and the run is the buffer, byte for byte.
/// [`UtpSocket::flush_incoming_buffer`] then hands the available run to the
/// caller in order, so repeated receives reassemble the sent bytes exactly.
pub proof fn lemma_sent_stream_reassembles(b: Seq<u8>, w: Seq<Packet>, a: u16)
    requires
        w.len() == chunk_count(b.len() as int),
        forall|i: int| 0 <= i < w.len() ==> (#[trigger] w[i]).payload@ == chunk_payload(b, i),
        forall|i: int| 0 <= i < w.len() ==> (#[trigger] w[i]).seq_nr == wrap_add16(a, i + 1),
    ensures
        contiguous_run(w, a) == b,
{
    crate::buffer::lemma_run_of_consecutive(w, a);
    lemma_stream_matches_chunks(b, w, w.len() as int);
    assert(w.take(w.len() as int) =~= w);
    lemma_chunks_cover(b);
}

} // verus!
