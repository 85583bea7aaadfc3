//! The send window: in-flight packets kept for retransmission until
//! cumulatively acknowledged.

use vstd::prelude::*;

use crate::packet::{spec_len, Packet};
use crate::socket::{window_bytes, UtpSocket};

verus! {

/// Position of the first packet with sequence number `n`, or -1.
pub open spec fn find_seq(w: Seq<Packet>, n: u16) -> int
    decreases w.len(),
{
    if w.len() == 0 {
        -1
    } else if w[0].seq_nr == n {
        0
    } else {
        let r = find_seq(w.drop_first(), n);
        if r < 0 {
            -1
        } else {
            1 + r
        }
    }
}

/// The window after a cumulative acknowledgment of `n`: everything up to and
/// including the packet with sequence number `n` leaves; an acknowledgment
/// matching no stored packet changes nothing.
pub open spec fn window_after_ack(w: Seq<Packet>, n: u16) -> Seq<Packet> {
    if find_seq(w, n) < 0 {
        w
    } else {
        w.skip(find_seq(w, n) + 1)
    }
}

pub proof fn lemma_find_seq_props(w: Seq<Packet>, n: u16)
    ensures
        find_seq(w, n) >= 0 ==> find_seq(w, n) < w.len() && w[find_seq(w, n)].seq_nr == n,
        find_seq(w, n) < 0 ==> forall|i: int| 0 <= i < w.len() ==> w[i].seq_nr != n,
        find_seq(w, n) >= -1,
    decreases w.len(),
{
    if w.len() > 0 && w[0].seq_nr != n {
        lemma_find_seq_props(w.drop_first(), n);
        if find_seq(w.drop_first(), n) < 0 {
            assert forall|i: int| 0 <= i < w.len() implies w[i].seq_nr != n by {
                if i > 0 {
                    assert(w[i] == w.drop_first()[i - 1]);
                }
            }
        }
    }
}

/// A scan that saw no match before `k`, and a match (or the end) at `k`,
/// found the first match.
pub proof fn lemma_find_seq_at(w: Seq<Packet>, n: u16, k: int)
    requires
        0 <= k <= w.len(),
        forall|j: int| 0 <= j < k ==> w[j].seq_nr != n,
        k < w.len() ==> w[k].seq_nr == n,
    ensures
        find_seq(w, n) == if k == w.len() {
            -1int
        } else {
            k
        },
    decreases w.len(),
{
    if w.len() > 0 && k > 0 {
        assert(forall|j: int| 0 <= j < k - 1 ==> w.drop_first()[j].seq_nr != n);
        lemma_find_seq_at(w.drop_first(), n, k - 1);
    }
}

pub proof fn lemma_window_bytes_nonneg(w: Seq<Packet>)
    ensures
        window_bytes(w) >= 0,
    decreases w.len(),
{
    if w.len() > 0 {
        crate::packet::lemma_encode_len(w[0]@);
        lemma_window_bytes_nonneg(w.drop_first());
    }
}

/// The window length splits at any skip position.
pub proof fn lemma_window_bytes_skip(w: Seq<Packet>, k: int)
    requires
        0 <= k < w.len(),
    ensures
        window_bytes(w.skip(k)) == spec_len(w[k]@) + window_bytes(w.skip(k + 1)),
    decreases k,
{
    if k == 0 {
        assert(w.skip(0int) =~= w);
        assert(w.skip(0int).drop_first() =~= w.skip(1int));
    } else {
        assert(w.skip(k) =~= w.drop_first().skip(k - 1));
        assert(w.skip(k + 1) =~= w.drop_first().skip(k));
        lemma_window_bytes_skip(w.drop_first(), k - 1);
    }
}

impl UtpSocket {
    /// Queues a copy of the stored in-flight packet with sequence number
    /// `lost` for retransmission; unknown numbers are ignored.
    pub fn resend_lost_packet(&mut self, lost: u16)
        requires
            old(self).wf(),
        ensures
            final(self).wf(),
            find_seq(old(self).send_window@, lost) < 0 ==> *final(self) == *old(self),
            find_seq(old(self).send_window@, lost) >= 0 ==> {
                &&& final(self).pending_resends@.len() == old(self).pending_resends@.len() + 1
                &&& final(self).pending_resends@.take(old(self).pending_resends@.len() as int)
                    == old(self).pending_resends@
                &&& final(self).pending_resends@.last()@ == old(self).send_window@[find_seq(
                    old(self).send_window@,
                    lost,
                )]@
                &&& final(self).pending_resends@.last().seq_nr == lost
            },
            *final(self) == (UtpSocket {
                pending_resends: final(self).pending_resends,
                ..*old(self)
            }),
    {
        proof {
            lemma_find_seq_props(self.send_window@, lost);
        }
        let mut i: usize = 0;
        while i < self.send_window.len() && self.send_window[i].seq_nr != lost
            invariant
                self == old(self),
                i <= self.send_window@.len(),
                forall|j: int| 0 <= j < i ==> self.send_window@[j].seq_nr != lost,
            decreases self.send_window@.len() - i,
        {
            i = i + 1;
        }
        proof {
            lemma_find_seq_at(self.send_window@, lost, i as int);
        }
        if i < self.send_window.len() {
            let copy = self.send_window[i].duplicate();
            let ghost orig = self.send_window@[i as int];
            proof {
                crate::packet::lemma_encode_len(copy@);
                crate::packet::lemma_encode_len(orig@);
            }
            self.pending_resends.push(copy);
            proof {
                assert(self.pending_resends@.last()@ == orig@);
                assert(self.pending_resends@.take(old(self).pending_resends@.len() as int)
                    =~= old(self).pending_resends@);
            }
        }
    }

    /// Forgets every in-flight packet up to and including the one the peer
    /// cumulatively acknowledged (`last_acked`), releasing its bytes from
    /// the window total.
    pub fn advance_send_window(&mut self)
        requires
            old(self).wf(),
        ensures
            final(self).wf(),
            final(self).send_window@ == window_after_ack(
                old(self).send_window@,
                old(self).last_acked,
            ),
            final(self).curr_window == window_bytes(final(self).send_window@),
            *final(self) == (UtpSocket {
                send_window: final(self).send_window,
                curr_window: final(self).curr_window,
                ..*old(self)
            }),
    {
        proof {
            lemma_find_seq_props(self.send_window@, self.last_acked);
        }
        let mut i: usize = 0;
        while i < self.send_window.len() && self.send_window[i].seq_nr != self.last_acked
            invariant
                self == old(self),
                i <= self.send_window@.len(),
                forall|j: int| 0 <= j < i ==> self.send_window@[j].seq_nr != self.last_acked,
            decreases self.send_window@.len() - i,
        {
            i = i + 1;
        }
        proof {
            lemma_find_seq_at(self.send_window@, self.last_acked, i as int);
        }
        if i < self.send_window.len() {
            let ghost w0 = self.send_window@;
            let mut j: usize = 0;
            while j <= i
                invariant
                    j <= i + 1,
                    i < w0.len(),
                    i < usize::MAX,
                    self.send_window@ == w0.skip(j as int),
                    self.curr_window == window_bytes(self.send_window@),
                    *self == (UtpSocket {
                        send_window: self.send_window,
                        curr_window: self.curr_window,
                        ..*old(self)
                    }),
                    self.wf(),
                decreases i + 1 - j,
            {
                proof {
                    lemma_window_bytes_skip(w0, j as int);
                    lemma_window_bytes_nonneg(w0.skip(j + 1));
                    crate::packet::lemma_encode_len(w0[j as int]@);
                    assert(self.send_window@[0] == w0[j as int]);
                }
                let len = self.send_window[0].len();
                let packet = self.send_window.remove(0);
                assert(self.send_window@ =~= w0.skip(j + 1));
                self.curr_window = self.curr_window - len as u32;
                j = j + 1;
            }
        }
    }
}

} // verus!
