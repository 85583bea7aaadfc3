//! The incoming reorder buffer: sorted insertion with duplicate replacement,
//! and delivery of the contiguous byte stream into caller buffers.

use vstd::prelude::*;

use crate::packet::Packet;
use crate::socket::{sorted_by_seq, wrap_inc, UtpSocket};

verus! {

/// Index where a packet with sequence number `s` belongs in `w`: the number
/// of entries with a smaller sequence number.
pub open spec fn lower_bound(w: Seq<Packet>, s: u16) -> int
    decreases w.len(),
{
    if w.len() == 0 {
        0
    } else if w[0].seq_nr < s {
        1 + lower_bound(w.drop_first(), s)
    } else {
        0
    }
}

/// The buffer after inserting `p`: entries keep ascending order, and an
/// entry with the same sequence number is replaced by `p`.
pub open spec fn buf_insert(w: Seq<Packet>, p: Packet) -> Seq<Packet>
    decreases w.len(),
{
    if w.len() == 0 {
        seq![p]
    } else if w[0].seq_nr < p.seq_nr {
        seq![w[0]] + buf_insert(w.drop_first(), p)
    } else if w[0].seq_nr == p.seq_nr {
        seq![p] + w.drop_first()
    } else {
        seq![p] + w
    }
}

/// On a sorted buffer, [`buf_insert`] replaces the duplicate entry in place
/// or inserts at the lower-bound position; order and distinctness are kept,
/// and every other entry stays.
pub proof fn lemma_buf_insert_sorted(w: Seq<Packet>, p: Packet)
    requires
        sorted_by_seq(w),
    ensures
        sorted_by_seq(buf_insert(w, p)),
        0 <= lower_bound(w, p.seq_nr) <= w.len(),
        ({
            let pos = lower_bound(w, p.seq_nr);
            if pos < w.len() && w[pos].seq_nr == p.seq_nr {
                buf_insert(w, p) == w.update(pos, p)
            } else {
                buf_insert(w, p) == w.insert(pos, p)
            }
        }),
    decreases w.len(),
{
    if w.len() == 0 {
        assert(buf_insert(w, p) =~= w.insert(0, p));
    } else if w[0].seq_nr < p.seq_nr {
        assert(sorted_by_seq(w.drop_first())) by {
            assert(forall|i: int, j: int|
                0 <= i < j < w.drop_first().len() ==> w.drop_first()[i].seq_nr
                    < w.drop_first()[j].seq_nr);
        }
        lemma_buf_insert_sorted(w.drop_first(), p);
        let pos = lower_bound(w, p.seq_nr);
        let rpos = lower_bound(w.drop_first(), p.seq_nr);
        assert(pos == rpos + 1);
        let r = buf_insert(w.drop_first(), p);
        assert(buf_insert(w, p) == seq![w[0]] + r);
        if rpos < w.drop_first().len() && w.drop_first()[rpos].seq_nr == p.seq_nr {
            assert(buf_insert(w, p) =~= w.update(pos, p));
        } else {
            assert(buf_insert(w, p) =~= w.insert(pos, p));
        }
        assert(sorted_by_seq(buf_insert(w, p))) by {
            assert(forall|i: int|
                0 <= i < r.len() ==> #[trigger] r[i].seq_nr >= p.seq_nr || exists|j: int|
                    0 <= j < w.drop_first().len() && r[i] == w.drop_first()[j]);
            assert forall|i: int, j: int|
                0 <= i < j < buf_insert(w, p).len() implies buf_insert(w, p)[i].seq_nr
                < buf_insert(w, p)[j].seq_nr by {
                if i > 0 {
                    assert(buf_insert(w, p)[i] == r[i - 1]);
                    assert(buf_insert(w, p)[j] == r[j - 1]);
                } else {
                    assert(buf_insert(w, p)[j] == r[j - 1]);
                    if rpos < w.drop_first().len() && w.drop_first()[rpos].seq_nr == p.seq_nr {
                        assert(r =~= w.drop_first().update(rpos, p));
                    } else {
                        assert(r =~= w.drop_first().insert(rpos, p));
                    }
                }
            }
        }
    } else if w[0].seq_nr == p.seq_nr {
        assert(lower_bound(w, p.seq_nr) == 0);
        assert(buf_insert(w, p) =~= w.update(0, p));
    } else {
        assert(lower_bound(w, p.seq_nr) == 0);
        assert(buf_insert(w, p) =~= w.insert(0, p));
    }
}

/// The payloads of the run of packets that extends the delivered stream:
/// starting from acknowledgment state `a`, packets whose sequence number is
/// `a` or follows `a` directly, each extending the run.
pub open spec fn contiguous_run(w: Seq<Packet>, a: u16) -> Seq<u8>
    decreases w.len(),
{
    if w.len() > 0 && (w[0].seq_nr == a || w[0].seq_nr == wrap_inc(a)) {
        w[0].payload@ + contiguous_run(w.drop_first(), w[0].seq_nr)
    } else {
        Seq::empty()
    }
}

/// Appends `src[start..end]` to `out`.
fn append_range(out: &mut Vec<u8>, src: &Vec<u8>, start: usize, end: usize)
    requires
        start <= end <= src@.len(),
    ensures
        final(out)@ == old(out)@ + src@.subrange(start as int, end as int),
{
    let mut i: usize = start;
    while i < end
        invariant
            start <= i <= end <= src@.len(),
            out@ == old(out)@ + src@.subrange(start as int, i as int),
        decreases end - i,
    {
        out.push(src[i]);
        i = i + 1;
        assert(out@ =~= old(out)@ + src@.subrange(start as int, i as int));
    }
}

/// The suffix `src[start..]` as a fresh vector.
fn vec_suffix(src: &Vec<u8>, start: usize) -> (r: Vec<u8>)
    requires
        start <= src@.len(),
    ensures
        r@ == src@.skip(start as int),
{
    let mut r: Vec<u8> = Vec::new();
    append_range(&mut r, src, start, src.len());
    assert(r@ =~= src@.skip(start as int));
    r
}

/// Where the reorder state stands after a read: the first `k` buffered
/// packets were consumed whole and left the buffer, and `ack_nr` is the
/// sequence number of the last of them (unchanged when none left).
pub open spec fn drained_to(pre: UtpSocket, post: UtpSocket, k: int) -> bool {
    &&& 0 <= k <= pre.incoming_buffer@.len()
    &&& post.incoming_buffer@ == pre.incoming_buffer@.skip(k)
    &&& post.ack_nr == if k == 0 {
        pre.ack_nr
    } else {
        pre.incoming_buffer@[k - 1].seq_nr
    }
}

impl UtpSocket {
    /// The byte stream the socket can deliver right now: any partially
    /// delivered payload first, then the payloads of buffered packets as
    /// long as each directly extends the stream.
    pub open spec fn available_bytes(&self) -> Seq<u8> {
        if self.pending_data@.len() > 0 {
            if self.incoming_buffer@.len() > 0 {
                self.pending_data@ + contiguous_run(
                    self.incoming_buffer@.drop_first(),
                    self.incoming_buffer@[0].seq_nr,
                )
            } else {
                self.pending_data@
            }
        } else {
            contiguous_run(self.incoming_buffer@, self.ack_nr)
        }
    }

    /// While a partially consumed head packet exists, an insert may not
    /// displace it: the packet must sort after the head, or replace it as a
    /// faithful retransmission carrying the same payload.
    pub open spec fn insert_keeps_pending(&self, packet: Packet) -> bool {
        self.pending_data@.len() > 0 ==> self.incoming_buffer@.len() > 0 && (packet.seq_nr
            > self.incoming_buffer@[0].seq_nr || (packet.seq_nr
            == self.incoming_buffer@[0].seq_nr && packet.payload@
            == self.incoming_buffer@[0].payload@))
    }

    /// Inserts a received packet, keeping the buffer ascending by sequence
    /// number; a packet whose sequence number is already buffered replaces
    /// the stored entry, so the stored timestamp is the most recent arrival.
    pub fn insert_into_buffer(&mut self, packet: Packet)
        requires
            old(self).wf(),
            old(self).insert_keeps_pending(packet),
        ensures
            final(self).wf(),
            final(self).incoming_buffer@ == buf_insert(old(self).incoming_buffer@, packet),
            *final(self) == (UtpSocket {
                incoming_buffer: final(self).incoming_buffer,
                ..*old(self)
            }),
    {
        proof {
            lemma_buf_insert_sorted(self.incoming_buffer@, packet);
        }
        let ghost w0 = self.incoming_buffer@;
        let mut i: usize = 0;
        while i < self.incoming_buffer.len() && self.incoming_buffer[i].seq_nr < packet.seq_nr
            invariant
                self == old(self),
                i <= self.incoming_buffer@.len(),
                forall|j: int| 0 <= j < i ==> self.incoming_buffer@[j].seq_nr < packet.seq_nr,
            decreases self.incoming_buffer@.len() - i,
        {
            i = i + 1;
        }
        proof {
            lemma_lower_bound_at(w0, packet.seq_nr, i as int);
        }
        let ghost pv = packet.payload@;
        if i < self.incoming_buffer.len() && self.incoming_buffer[i].seq_nr == packet.seq_nr {
            self.incoming_buffer.remove(i);
            self.incoming_buffer.insert(i, packet);
            assert(self.incoming_buffer@ =~= w0.update(i as int, packet));
            proof {
                if old(self).pending_data@.len() > 0 {
                    if i == 0 {
                        assert(self.incoming_buffer@[0].payload@ == w0[0].payload@);
                    } else {
                        assert(self.incoming_buffer@[0] == w0[0]);
                    }
                }
            }
        } else {
            self.incoming_buffer.insert(i, packet);
            proof {
                if old(self).pending_data@.len() > 0 {
                    assert(w0[0].seq_nr < packet.seq_nr);
                    assert(i >= 1);
                    assert(self.incoming_buffer@[0] == w0[0]);
                }
            }
        }
    }

    /// Removes the head of the reorder buffer, recording its sequence number
    /// as the highest acknowledged; nothing happens on an empty buffer.
    pub fn advance_incoming_buffer(&mut self) -> (r: Option<Packet>)
        requires
            old(self).wf(),
            old(self).pending_data@.len() == 0,
        ensures
            final(self).wf(),
            old(self).incoming_buffer@.len() == 0 ==> r is None && *final(self) == *old(self),
            old(self).incoming_buffer@.len() > 0 ==> {
                &&& r == Some(old(self).incoming_buffer@[0])
                &&& final(self).incoming_buffer@ == old(self).incoming_buffer@.drop_first()
                &&& final(self).ack_nr == old(self).incoming_buffer@[0].seq_nr
                &&& *final(self) == (UtpSocket {
                    incoming_buffer: final(self).incoming_buffer,
                    ack_nr: final(self).ack_nr,
                    ..*old(self)
                })
            },
    {
        if self.incoming_buffer.len() > 0 {
            let packet = self.incoming_buffer.remove(0);
            assert(self.incoming_buffer@ =~= old(self).incoming_buffer@.drop_first());
            self.ack_nr = packet.seq_nr;
            Some(packet)
        } else {
            None
        }
    }

    /// Delivers up to `max` bytes of the available stream: the pending tail
    /// first, then the payloads of buffered packets while each directly
    /// extends the stream, advancing `ack_nr` over every packet consumed
    /// whole and parking a partially consumed payload in `pending_data`.
    #[verifier::loop_isolation(false)]
    #[verifier::rlimit(100)]
    pub fn flush_incoming_buffer(&mut self, max: usize) -> (out: Vec<u8>)
        requires
            old(self).wf(),
        ensures
            final(self).wf(),
            out@.len() == if old(self).available_bytes().len() <= max {
                old(self).available_bytes().len() as int
            } else {
                max as int
            },
            out@ == old(self).available_bytes().take(out@.len() as int),
            final(self).available_bytes() == old(self).available_bytes().skip(out@.len() as int),
            final(self).pending_data@.len() > 0 ==> out@.len() == max,
            out@.len() == max || final(self).incoming_buffer@.len() == 0 || !(final(self).incoming_buffer@[0].seq_nr
                == final(self).ack_nr || final(self).incoming_buffer@[0].seq_nr == wrap_inc(
                final(self).ack_nr,
            )),
            exists|k: int| #[trigger] drained_to(*old(self), *final(self), k),
            *final(self) == (UtpSocket {
                incoming_buffer: final(self).incoming_buffer,
                ack_nr: final(self).ack_nr,
                pending_data: final(self).pending_data,
                ..*old(self)
            }),
    {
        let ghost avail0 = old(self).available_bytes();
        let ghost mut consumed: int = 0;
        let mut out: Vec<u8> = Vec::new();
        if self.pending_data.len() > 0 {
            let plen = self.pending_data.len();
            let k: usize = if max < plen {
                max
            } else {
                plen
            };
            append_range(&mut out, &self.pending_data, 0, k);
            assert(k <= avail0.len());
            assert(out@ =~= avail0.take(k as int));
            if k == plen {
                self.pending_data = Vec::new();
                let ghost had = self.incoming_buffer@.len() > 0;
                self.advance_incoming_buffer();
                proof {
                    if had {
                        consumed = 1;
                        assert(self.incoming_buffer@ =~= old(self).incoming_buffer@.skip(1));
                    } else {
                        assert(self.incoming_buffer@ =~= old(self).incoming_buffer@.skip(0));
                    }
                }
                assert(self.available_bytes() =~= avail0.skip(k as int));
            } else {
                let rest = vec_suffix(&self.pending_data, k);
                self.pending_data = rest;
                assert(self.available_bytes() =~= avail0.skip(k as int));
                proof {
                    let hp = old(self).incoming_buffer@[0].payload@;
                    assert(self.pending_data@ =~= hp.skip(hp.len() - self.pending_data@.len()));
                    assert(self.incoming_buffer@ =~= old(self).incoming_buffer@.skip(0));
                    assert(drained_to(*old(self), *self, 0));
                    assert(out@.len() == max);
                }
                return out;
            }
        } else {
            proof {
                assert(self.incoming_buffer@ =~= old(self).incoming_buffer@.skip(0));
            }
        }
        while self.incoming_buffer.len() > 0 && out.len() < max && (self.incoming_buffer[0].seq_nr
            == self.ack_nr || self.incoming_buffer[0].seq_nr == self.ack_nr.wrapping_add(1))
            invariant
                self.wf(),
                self.pending_data@.len() == 0,
                out@.len() <= max,
                out@.len() <= avail0.len(),
                out@ == avail0.take(out@.len() as int),
                self.available_bytes() == avail0.skip(out@.len() as int),
                0 <= consumed <= old(self).incoming_buffer@.len(),
                self.incoming_buffer@ == old(self).incoming_buffer@.skip(consumed),
                consumed == 0 ==> self.ack_nr == old(self).ack_nr,
                consumed >= 1 ==> self.ack_nr == old(self).incoming_buffer@[consumed
                    - 1].seq_nr,
                *self == (UtpSocket {
                    incoming_buffer: self.incoming_buffer,
                    ack_nr: self.ack_nr,
                    pending_data: self.pending_data,
                    ..*old(self)
                }),
            decreases self.incoming_buffer@.len(),
        {
            let ghost avail_cur = self.available_bytes();
            assert(avail_cur == self.incoming_buffer@[0].payload@ + contiguous_run(
                self.incoming_buffer@.drop_first(),
                self.incoming_buffer@[0].seq_nr,
            ));
            let room: usize = max - out.len();
            let plen = self.incoming_buffer[0].payload.len();
            let k: usize = if room < plen {
                room
            } else {
                plen
            };
            let ghost n0 = out@.len() as int;
            proof {
                assert(avail_cur == avail0.skip(n0));
                assert(avail_cur.len() == avail0.len() - n0);
                assert(avail_cur.len() >= plen);
                assert(n0 + k <= avail0.len());
            }
            append_range(&mut out, &self.incoming_buffer[0].payload, 0, k);
            assert(out@ =~= avail0.take(n0 + k)) by {
                assert(self.incoming_buffer@[0].payload@.subrange(0, k as int) =~= avail_cur.take(
                    k as int,
                ));
                assert(avail_cur.take(k as int) =~= avail0.skip(n0).take(k as int));
                assert(avail0.take(n0) + avail0.skip(n0).take(k as int) =~= avail0.take(n0 + k));
            }
            if k == plen {
                proof {
                    assert(self.incoming_buffer@[0] == old(self).incoming_buffer@[consumed]);
                }
                self.advance_incoming_buffer();
                proof {
                    consumed = consumed + 1;
                    assert(self.incoming_buffer@ =~= old(self).incoming_buffer@.skip(consumed));
                }
                assert(self.available_bytes() =~= avail0.skip(n0 + k)) by {
                    assert(avail_cur.skip(k as int) =~= avail0.skip(n0).skip(k as int));
                    assert(avail0.skip(n0).skip(k as int) =~= avail0.skip(n0 + k));
                }
            } else {
                let rest = vec_suffix(&self.incoming_buffer[0].payload, k);
                self.pending_data = rest;
                assert(self.available_bytes() =~= avail0.skip(n0 + k)) by {
                    assert(self.available_bytes() =~= avail_cur.skip(k as int));
                    assert(avail_cur.skip(k as int) =~= avail0.skip(n0).skip(k as int));
                    assert(avail0.skip(n0).skip(k as int) =~= avail0.skip(n0 + k));
                }
                assert(out@.len() == max);
                proof {
                    let hp = self.incoming_buffer@[0].payload@;
                    assert(self.pending_data@.len() == hp.len() - k);
                    assert(self.pending_data@ =~= hp.skip(hp.len() - self.pending_data@.len()));
                    assert(drained_to(*old(self), *self, consumed));
                }
                return out;
            }
        }
        proof {
            if out@.len() < max {
                assert(self.available_bytes() =~= Seq::<u8>::empty());
                if self.incoming_buffer@.len() > 0 {
                    assert(self.incoming_buffer@[0].seq_nr != self.ack_nr
                        && self.incoming_buffer@[0].seq_nr != self.ack_nr.wrapping_add(1));
                    assert(self.ack_nr.wrapping_add(1) == wrap_inc(self.ack_nr));
                }
            }
            assert(drained_to(*old(self), *self, consumed));
        }
        out
    }
}

/// On a sorted buffer, a scan position below which every sequence number is
/// smaller than `s`, and at which it is not, is the lower bound.
proof fn lemma_lower_bound_at(w: Seq<Packet>, s: u16, k: int)
    requires
        sorted_by_seq(w),
        0 <= k <= w.len(),
        forall|j: int| 0 <= j < k ==> w[j].seq_nr < s,
        k < w.len() ==> w[k].seq_nr >= s,
    ensures
        lower_bound(w, s) == k,
    decreases w.len(),
{
    if w.len() == 0 {
    } else if k == 0 {
    } else {
        assert(sorted_by_seq(w.drop_first()));
        assert(forall|j: int| 0 <= j < k - 1 ==> w.drop_first()[j].seq_nr < s);
        lemma_lower_bound_at(w.drop_first(), s, k - 1);
    }
}


/// Successive reads compose: with the stream conserved by
/// [`UtpSocket::flush_incoming_buffer`]'s contract, the bytes of two reads
/// concatenate to one longer prefix of what was available at the start, and
/// what remains available is the rest — so a run of reads, whatever the
/// caller's buffer sizes, returns exactly the available stream, in order.
pub proof fn lemma_reads_compose(s: Seq<u8>, n1: int, n2: int)
    requires
        0 <= n1,
        0 <= n2,
        n1 + n2 <= s.len(),
    ensures
        s.take(n1) + s.skip(n1).take(n2) == s.take(n1 + n2),
        s.skip(n1).skip(n2) == s.skip(n1 + n2),
{
    assert(s.take(n1) + s.skip(n1).take(n2) =~= s.take(n1 + n2));
    assert(s.skip(n1).skip(n2) =~= s.skip(n1 + n2));
}

/// The payloads of a window of packets, concatenated in order.
pub open spec fn payload_stream(w: Seq<Packet>) -> Seq<u8>
    decreases w.len(),
{
    if w.len() == 0 {
        Seq::empty()
    } else {
        w[0].payload@ + payload_stream(w.drop_first())
    }
}

/// Consecutively numbered packets form one contiguous run: a receiver whose
/// acknowledgment state is `a` can deliver their payloads in order and in
/// full. Together with [`UtpSocket::flush_incoming_buffer`]'s contract and
/// [`crate::send::lemma_chunks_cover`], this is the send/receive round
/// trip: the bytes handed to the sender come back whole at the reader.
pub proof fn lemma_run_of_consecutive(w: Seq<Packet>, a: u16)
    requires
        forall|i: int| 0 <= i < w.len() ==> (#[trigger] w[i].seq_nr) == crate::send::wrap_add16(
            a,
            i + 1,
        ),
    ensures
        contiguous_run(w, a) == payload_stream(w),
    decreases w.len(),
{
    if w.len() > 0 {
        crate::send::lemma_wrap_add16_step(a, 0);
        assert(w[0].seq_nr == wrap_inc(a));
        assert forall|i: int|
            0 <= i < w.drop_first().len() implies (#[trigger] w.drop_first()[i].seq_nr)
            == crate::send::wrap_add16(w[0].seq_nr, i + 1) by {
            assert(w.drop_first()[i] == w[i + 1]);
            assert(w[i + 1].seq_nr == crate::send::wrap_add16(a, i + 2));
            lemma_wrap_add16_shift(a, w[0].seq_nr, i + 1);
        }
        lemma_run_of_consecutive(w.drop_first(), w[0].seq_nr);
    }
}

/// Adding one to the base of a wrapping sum shifts its offset down by one.
proof fn lemma_wrap_add16_shift(a: u16, b: u16, k: int)
    requires
        k >= 0,
        b == crate::send::wrap_add16(a, 1),
    ensures
        crate::send::wrap_add16(a, k + 1) == crate::send::wrap_add16(b, k),
{
    let m: int = 0x10000;
    assert(b == (a + 1) % m);
    assert((a + 1) % m + k >= 0);
    assert(((a + 1) % m + k) % m == (a + 1 + k) % m) by (nonlinear_arith)
        requires
            m == 0x10000,
            a + 1 >= 0,
            k >= 0,
    ;
}

/// A packet whose sequence number is already buffered replaces the stored
/// entry in place: the buffer keeps its length and order, and the stored
/// entry for that number becomes the newest arrival. Duplicate deliveries
/// therefore contribute their payload only once.
pub proof fn lemma_duplicate_replaced(w: Seq<Packet>, p: Packet, i: int)
    requires
        sorted_by_seq(w),
        0 <= i < w.len(),
        w[i].seq_nr == p.seq_nr,
    ensures
        buf_insert(w, p) == w.update(i, p),
        buf_insert(w, p).len() == w.len(),
{
    lemma_buf_insert_sorted(w, p);
    let pos = lower_bound(w, p.seq_nr);
    assert forall|j: int| 0 <= j < i implies w[j].seq_nr < p.seq_nr by {}
    lemma_lower_bound_at(w, p.seq_nr, i);
}

/// The reorder buffer does not depend on the order in which two packets
/// with distinct sequence numbers arrive: late or early, the buffered window
/// and hence the bytes the reader sees are the same.
pub proof fn lemma_insert_order_irrelevant(w: Seq<Packet>, p: Packet, q: Packet)
    requires
        sorted_by_seq(w),
        p.seq_nr != q.seq_nr,
    ensures
        buf_insert(buf_insert(w, p), q) == buf_insert(buf_insert(w, q), p),
    decreases w.len(), (if p.seq_nr < q.seq_nr { 0int } else { 1int }),
{
    if q.seq_nr < p.seq_nr {
        lemma_insert_order_irrelevant(w, q, p);
    } else if w.len() == 0 {
        let e = Seq::<Packet>::empty();
        assert(buf_insert(w, p) == seq![p]);
        assert(buf_insert(w, q) == seq![q]);
        assert(seq![p].drop_first() =~= e);
        assert(seq![q].drop_first() =~= e);
        assert(buf_insert(e, p) == seq![p]);
        assert(buf_insert(e, q) == seq![q]);
        assert(seq![p][0] == p && seq![q][0] == q);
        assert(buf_insert(seq![p], q) == seq![p] + seq![q]);
        assert(buf_insert(seq![q], p) == seq![p] + seq![q]);
    } else {
        let h = w[0];
        let rest = w.drop_first();
        assert(sorted_by_seq(rest)) by {
            assert(forall|x: int, y: int|
                0 <= x < y < rest.len() ==> rest[x].seq_nr < rest[y].seq_nr);
        }
        if h.seq_nr < p.seq_nr {
            // both packets sort past the head: recurse on the tail
            lemma_insert_order_irrelevant(rest, p, q);
            let bp = buf_insert(rest, p);
            let bq = buf_insert(rest, q);
            assert(buf_insert(w, p) == seq![h] + bp);
            assert(buf_insert(w, q) == seq![h] + bq);
            assert((seq![h] + bp)[0] == h && (seq![h] + bp).drop_first() =~= bp);
            assert((seq![h] + bq)[0] == h && (seq![h] + bq).drop_first() =~= bq);
            assert(buf_insert(seq![h] + bp, q) == seq![h] + buf_insert(bp, q));
            assert(buf_insert(seq![h] + bq, p) == seq![h] + buf_insert(bq, p));
        } else if h.seq_nr == p.seq_nr {
            // p replaces the head; q sorts past it either way
            assert(buf_insert(w, p) == seq![p] + rest);
            assert((seq![p] + rest)[0] == p && (seq![p] + rest).drop_first() =~= rest);
            assert(buf_insert(seq![p] + rest, q) == seq![p] + buf_insert(rest, q));
            let bq = buf_insert(rest, q);
            assert(buf_insert(w, q) == seq![h] + bq);
            assert((seq![h] + bq)[0] == h && (seq![h] + bq).drop_first() =~= bq);
            assert(buf_insert(seq![h] + bq, p) == seq![p] + bq);
        } else if h.seq_nr == q.seq_nr {
            // p sorts before the head; q replaces it either way
            assert(buf_insert(w, p) == seq![p] + w);
            assert((seq![p] + w)[0] == p && (seq![p] + w).drop_first() =~= w);
            assert(buf_insert(seq![p] + w, q) == seq![p] + buf_insert(w, q));
            assert(buf_insert(w, q) == seq![q] + rest);
            assert((seq![q] + rest)[0] == q && (seq![q] + rest).drop_first() =~= rest);
            assert(buf_insert(seq![q] + rest, p) == seq![p] + (seq![q] + rest));
            assert(seq![p] + (seq![q] + rest) =~= seq![p] + buf_insert(w, q));
        } else if q.seq_nr < h.seq_nr {
            // both packets sort before the head
            assert(buf_insert(w, p) == seq![p] + w);
            assert((seq![p] + w)[0] == p && (seq![p] + w).drop_first() =~= w);
            assert(buf_insert(seq![p] + w, q) == seq![p] + buf_insert(w, q));
            assert(buf_insert(w, q) == seq![q] + w);
            assert((seq![q] + w)[0] == q && (seq![q] + w).drop_first() =~= w);
            assert(buf_insert(seq![q] + w, p) == seq![p] + (seq![q] + w));
            assert(seq![p] + (seq![q] + w) =~= seq![p] + buf_insert(w, q));
        } else {
            // p sorts before the head, q past it
            assert(buf_insert(w, p) == seq![p] + w);
            assert((seq![p] + w)[0] == p && (seq![p] + w).drop_first() =~= w);
            assert(buf_insert(seq![p] + w, q) == seq![p] + buf_insert(w, q));
            let bq = buf_insert(rest, q);
            assert(buf_insert(w, q) == seq![h] + bq);
            assert((seq![h] + bq)[0] == h && (seq![h] + bq).drop_first() =~= bq);
            assert(buf_insert(seq![h] + bq, p) == seq![p] + (seq![h] + bq));
            assert(seq![p] + (seq![h] + bq) =~= seq![p] + buf_insert(w, q));
        }
    }
}


/// Folding a row of arrivals into the buffer, first to last.
pub open spec fn buf_insert_all(w: Seq<Packet>, arrivals: Seq<Packet>) -> Seq<Packet>
    decreases arrivals.len(),
{
    if arrivals.len() == 0 {
        w
    } else {
        buf_insert_all(buf_insert(w, arrivals[0]), arrivals.drop_first())
    }
}

/// Pairwise distinct sequence numbers: no packet of the row duplicates
/// another's number.
pub open spec fn distinct_seqs(ps: Seq<Packet>) -> bool {
    forall|i: int, j: int| 0 <= i < j < ps.len() ==> ps[i].seq_nr != ps[j].seq_nr
}

/// In a row with pairwise distinct sequence numbers every packet occurs at
/// most once.
proof fn lemma_distinct_count_le_one(ps: Seq<Packet>, x: Packet)
    requires
        distinct_seqs(ps),
    ensures
        ps.to_multiset().count(x) <= 1,
{
    broadcast use vstd::seq_lib::group_to_multiset_ensures;

    if ps.to_multiset().count(x) >= 2 {
        assert(ps.contains(x));
        let a = choose|a: int| 0 <= a < ps.len() && ps[a] == x;
        let r = ps.remove(a);
        assert(r.to_multiset() =~= ps.to_multiset().remove(x));
        assert(r.to_multiset().count(x) > 0);
        assert(r.contains(x));
        let b = choose|b: int| 0 <= b < r.len() && r[b] == x;
        if b < a {
            assert(ps[b] == x);
            assert(ps[b].seq_nr != ps[a].seq_nr);
        } else {
            assert(ps[b + 1] == r[b]);
            assert(ps[a].seq_nr != ps[b + 1].seq_nr);
        }
    }
}

/// The same contents leave distinctness of the numbers intact.
proof fn lemma_distinct_transfers(ps: Seq<Packet>, qs: Seq<Packet>)
    requires
        distinct_seqs(ps),
        ps.to_multiset() == qs.to_multiset(),
    ensures
        distinct_seqs(qs),
{
    broadcast use vstd::seq_lib::group_to_multiset_ensures;

    assert forall|i: int, k: int| 0 <= i < k < qs.len() implies qs[i].seq_nr != qs[k].seq_nr by {
        if qs[i].seq_nr == qs[k].seq_nr {
            if qs[i] == qs[k] {
                let r = qs.remove(i);
                assert(r.to_multiset() =~= qs.to_multiset().remove(qs[i]));
                assert(r[k - 1] == qs[k]);
                assert(r.contains(qs[i]));
                assert(r.to_multiset().count(qs[i]) > 0);
                assert(qs.to_multiset().count(qs[i]) >= 2);
                lemma_distinct_count_le_one(ps, qs[i]);
            } else {
                assert(qs.contains(qs[i]));
                assert(ps.to_multiset().count(qs[i]) > 0);
                assert(ps.contains(qs[i]));
                assert(qs.contains(qs[k]));
                assert(ps.to_multiset().count(qs[k]) > 0);
                assert(ps.contains(qs[k]));
                let a = choose|a: int| 0 <= a < ps.len() && ps[a] == qs[i];
                let b = choose|b: int| 0 <= b < ps.len() && ps[b] == qs[k];
                assert(a != b);
                assert(ps[a].seq_nr != ps[b].seq_nr);
            }
        }
    }
}

/// Pulling one arrival to the front of the row does not change the folded
/// buffer.
proof fn lemma_pull_front(w: Seq<Packet>, qs: Seq<Packet>, j: int)
    requires
        sorted_by_seq(w),
        distinct_seqs(qs),
        0 <= j < qs.len(),
    ensures
        buf_insert_all(w, qs) == buf_insert_all(buf_insert(w, qs[j]), qs.remove(j)),
    decreases j,
{
    if j == 0 {
        assert(qs.remove(0) =~= qs.drop_first());
    } else {
        let h = qs[0];
        let rest = qs.drop_first();
        assert(distinct_seqs(rest)) by {
            assert(forall|x: int, y: int|
                0 <= x < y < rest.len() ==> rest[x].seq_nr != rest[y].seq_nr);
        }
        lemma_buf_insert_sorted(w, h);
        assert(rest[j - 1] == qs[j]);
        lemma_pull_front(buf_insert(w, h), rest, j - 1);
        assert(h.seq_nr != qs[j].seq_nr);
        lemma_insert_order_irrelevant(w, h, qs[j]);
        assert(qs.remove(j)[0] == h);
        assert(qs.remove(j).drop_first() =~= rest.remove(j - 1));
        lemma_buf_insert_sorted(w, qs[j]);
    }
}

/// Any arrival order of the same packets fills the reorder buffer
/// identically: folding two orderings of the same row (no packet dropped,
/// sequence numbers pairwise distinct) over one buffer gives one buffer —
/// and the buffer alone fixes the bytes a reader is handed, so the streams
/// read out are byte-identical.
pub proof fn lemma_any_arrival_order(w: Seq<Packet>, ps: Seq<Packet>, qs: Seq<Packet>)
    requires
        sorted_by_seq(w),
        distinct_seqs(ps),
        ps.to_multiset() == qs.to_multiset(),
    ensures
        buf_insert_all(w, ps) == buf_insert_all(w, qs),
    decreases ps.len(),
{
    broadcast use vstd::seq_lib::group_to_multiset_ensures;

    lemma_distinct_transfers(ps, qs);
    if ps.len() == 0 {
        assert(qs.to_multiset().len() == qs.len());
        assert(qs.len() == 0);
    } else {
        let x = ps[0];
        assert(ps.contains(x));
        assert(qs.to_multiset().count(x) > 0);
        assert(qs.contains(x));
        let j = choose|j: int| 0 <= j < qs.len() && qs[j] == x;
        lemma_pull_front(w, qs, j);
        lemma_buf_insert_sorted(w, x);
        assert(ps.remove(0) =~= ps.drop_first());
        assert(ps.drop_first().to_multiset() =~= ps.to_multiset().remove(x)) by {
            assert(ps.remove(0).to_multiset() =~= ps.to_multiset().remove(ps[0]));
        }
        assert(qs.remove(j).to_multiset() =~= qs.to_multiset().remove(x));
        assert(distinct_seqs(ps.drop_first())) by {
            assert(forall|a: int, b: int|
                0 <= a < b < ps.drop_first().len() ==> ps.drop_first()[a].seq_nr
                    != ps.drop_first()[b].seq_nr);
        }
        lemma_any_arrival_order(buf_insert(w, x), ps.drop_first(), qs.remove(j));
    }
}

} // verus!
