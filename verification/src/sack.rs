//! The selective-acknowledgment bitmap: which packets past the cumulative
//! acknowledgment sit in the reorder buffer.

use vstd::prelude::*;

use crate::packet::{spec_bit, Packet, SELECTIVE_ACK_TYPE};
use crate::socket::{wrap_diff, UtpSocket};

verus! {

/// Upper size of a bitmap: it must fit one extension's one-byte length
/// field, rounded down to a multiple of four.
pub const SACK_MAX_BYTES: usize = 252;

/// The bit index a buffered sequence number is reported at: bit 0 stands for
/// `ack + 2`, computed with wrapping arithmetic.
pub open spec fn sack_diff(seq: u16, ack: u16) -> u16 {
    wrap_diff(wrap_diff(seq, ack), 2)
}

/// Whether the bitmap bit `i` is owed: some buffered packet past `ack` maps
/// to it.
pub open spec fn sack_bit_set(w: Seq<Packet>, ack: u16, i: int) -> bool {
    exists|j: int|
        0 <= j < w.len() && w[j].seq_nr > ack && #[trigger] sack_diff(w[j].seq_nr, ack) == i
}

/// Sets bit `i` of a little-endian bitmap.
fn set_bit(v: &mut Vec<u8>, i: usize)
    requires
        i < old(v)@.len() * 8,
    ensures
        final(v)@.len() == old(v)@.len(),
        forall|t: int| #[trigger]
            spec_bit(final(v)@, t) == (spec_bit(old(v)@, t) || t == i),
{
    let byte: usize = i / 8;
    let bit: u8 = (i % 8) as u8;
    let x: u8 = v[byte];
    let y: u8 = x | (1u8 << bit);
    v.set(byte, y);
    proof {
        assert forall|t: int| #[trigger]
            spec_bit(v@, t) == (spec_bit(old(v)@, t) || t == i) by {
            if 0 <= t < v@.len() * 8 {
                let tb = t / 8;
                let ti = (t % 8) as u8;
                assert(0 <= tb < v@.len());
                assert(t == tb * 8 + ti);
                if tb == byte {
                    assert(v@[tb] == y);
                    assert(bit < 8 && ti < 8 ==> ((x | (1u8 << bit)) >> ti) & 1 == (if ti == bit {
                        1u8
                    } else {
                        (x >> ti) & 1
                    })) by (bit_vector);
                    assert((t == i) == (ti == bit)) by {
                        assert(i == byte * 8 + (i % 8));
                    }
                } else {
                    assert(v@[tb] == old(v)@[tb]);
                }
            }
        }
    }
}

impl UtpSocket {
    /// Builds the selective-ack bitmap: bit `(seq - ack - 2) % 8` of byte
    /// `(seq - ack - 2) / 8` is set for each buffered packet with a sequence
    /// number past `ack_nr`, padded to a multiple of four bytes; empty when
    /// no buffered packet is in the bitmap's reach.
    pub fn build_selective_ack(&self) -> (r: Vec<u8>)
        requires
            self.wf(),
        ensures
            r@.len() % 4 == 0,
            r@.len() <= SACK_MAX_BYTES,
            forall|i: int|
                0 <= i < r@.len() * 8 ==> #[trigger] spec_bit(r@, i) == sack_bit_set(
                    self.incoming_buffer@,
                    self.ack_nr,
                    i,
                ),
            forall|i: int|
                r@.len() * 8 <= i < SACK_MAX_BYTES * 8 ==> !sack_bit_set(
                    self.incoming_buffer@,
                    self.ack_nr,
                    i,
                ),
    {
        let w = &self.incoming_buffer;
        let mut found: bool = false;
        let mut maxd: u16 = 0;
        let mut j: usize = 0;
        while j < w.len()
            invariant
                j <= w@.len(),
                found ==> exists|t: int|
                    0 <= t < j && w@[t].seq_nr > self.ack_nr && #[trigger] sack_diff(
                        w@[t].seq_nr,
                        self.ack_nr,
                    ) == maxd && maxd < SACK_MAX_BYTES * 8,
                forall|t: int|
                    0 <= t < j && w@[t].seq_nr > self.ack_nr && #[trigger] sack_diff(
                        w@[t].seq_nr,
                        self.ack_nr,
                    ) < SACK_MAX_BYTES * 8 ==> found && sack_diff(w@[t].seq_nr, self.ack_nr)
                        <= maxd,
            decreases w@.len() - j,
        {
            let s: u16 = w[j].seq_nr;
            if s > self.ack_nr {
                let d: u16 = s.wrapping_sub(self.ack_nr).wrapping_sub(2);
                assert(d == sack_diff(s, self.ack_nr));
                if (d as usize) < SACK_MAX_BYTES * 8 {
                    if !found || d > maxd {
                        found = true;
                        maxd = d;
                    }
                }
            }
            j = j + 1;
        }
        let nbytes: usize = if found {
            (((maxd as usize) / 8 + 1) + 3) / 4 * 4
        } else {
            0
        };
        proof {
            if found {
                assert(nbytes % 4 == 0 && nbytes <= SACK_MAX_BYTES && maxd < nbytes * 8) by (nonlinear_arith)
                    requires
                        nbytes == (((maxd as int) / 8 + 1) + 3) / 4 * 4,
                        0 <= maxd < 2016,
                ;
            }
        }
        let mut sack: Vec<u8> = vec![0u8; nbytes];
        proof {
            assert forall|i: int| 0 <= i < nbytes * 8 implies !spec_bit(sack@, i) by {
                assert(sack@[i / 8] == 0);
                let ti = (i % 8) as u8;
                assert((0u8 >> ti) & 1 == 0) by (bit_vector);
            }
        }
        let mut j: usize = 0;
        while j < w.len()
            invariant
                j <= w@.len(),
                sack@.len() == nbytes,
                nbytes % 4 == 0,
                nbytes <= SACK_MAX_BYTES,
                forall|t: int|
                    0 <= t < w@.len() && w@[t].seq_nr > self.ack_nr && #[trigger] sack_diff(
                        w@[t].seq_nr,
                        self.ack_nr,
                    ) < SACK_MAX_BYTES * 8 ==> sack_diff(w@[t].seq_nr, self.ack_nr) < nbytes * 8,
                forall|i: int|
                    0 <= i < nbytes * 8 ==> #[trigger] spec_bit(sack@, i) == exists|t: int|
                        0 <= t < j && w@[t].seq_nr > self.ack_nr && #[trigger] sack_diff(
                            w@[t].seq_nr,
                            self.ack_nr,
                        ) == i,
            decreases w@.len() - j,
        {
            let s: u16 = w[j].seq_nr;
            let ghost before = sack@;
            if s > self.ack_nr {
                let d: u16 = s.wrapping_sub(self.ack_nr).wrapping_sub(2);
                assert(d == sack_diff(s, self.ack_nr));
                if (d as usize) < nbytes * 8 {
                    set_bit(&mut sack, d as usize);
                }
            }
            j = j + 1;
            proof {
                assert forall|i: int|
                    0 <= i < nbytes * 8 implies #[trigger] spec_bit(sack@, i) == exists|t: int|
                    0 <= t < j && w@[t].seq_nr > self.ack_nr && #[trigger] sack_diff(
                        w@[t].seq_nr,
                        self.ack_nr,
                    ) == i by {
                    if spec_bit(sack@, i) {
                        if spec_bit(before, i) {
                            let t = choose|t: int|
                                0 <= t < j - 1 && w@[t].seq_nr > self.ack_nr && #[trigger] sack_diff(
                                    w@[t].seq_nr,
                                    self.ack_nr,
                                ) == i;
                            assert(0 <= t < j && w@[t].seq_nr > self.ack_nr && sack_diff(
                                w@[t].seq_nr,
                                self.ack_nr,
                            ) == i);
                        } else {
                            assert(w@[j - 1].seq_nr > self.ack_nr && sack_diff(
                                w@[j - 1].seq_nr,
                                self.ack_nr,
                            ) == i);
                        }
                    } else {
                        assert(!spec_bit(before, i));
                    }
                }
            }
        }
        sack
    }
}


/// The sequence number bit `i` of a selective-ack bitmap stands for:
/// `ack + 2 + i`, wrapping.
pub open spec fn sack_nth_seq(ack: u16, i: int) -> u16 {
    crate::send::wrap_add16(ack, 2 + i)
}

/// How many bits of a bitmap are set, from bit `i` on.
pub open spec fn count_set_bits(d: Seq<u8>, i: int) -> int
    decreases d.len() * 8 - i,
{
    if i < 0 || i >= d.len() * 8 {
        0
    } else {
        (if spec_bit(d, i) {
            1int
        } else {
            0int
        }) + count_set_bits(d, i + 1)
    }
}

/// The clear-bit sequence numbers a selective-ack scan retransmits, from bit
/// `i` on: a set bit is received and skipped; a clear bit below the last
/// in-flight sequence number is retransmitted; the first clear bit at or
/// past it stops the scan.
pub open spec fn sack_scan(d: Seq<u8>, i: int, ack: u16, wlast: u16) -> Seq<u16>
    decreases d.len() * 8 - i,
{
    if i < 0 || i >= d.len() * 8 {
        Seq::empty()
    } else if spec_bit(d, i) {
        sack_scan(d, i + 1, ack, wlast)
    } else if sack_nth_seq(ack, i) < wlast {
        seq![sack_nth_seq(ack, i)] + sack_scan(d, i + 1, ack, wlast)
    } else {
        Seq::empty()
    }
}

/// The retransmissions one extension record asks for: nothing unless it is a
/// selective-ack; the implicitly lost packet right past the acknowledgment
/// when three or more bits are set; then the clear-bit scan while packets
/// are in flight.
pub open spec fn ext_resend_seqs(e: (u8, Seq<u8>), ack: u16, w: Seq<Packet>) -> Seq<u16> {
    if e.0 == SELECTIVE_ACK_TYPE {
        (if count_set_bits(e.1, 0) >= 3 {
            seq![crate::socket::wrap_inc(ack)]
        } else {
            Seq::empty()
        }) + (if w.len() > 0 {
            sack_scan(e.1, 0, ack, w.last().seq_nr)
        } else {
            Seq::empty()
        })
    } else {
        Seq::empty()
    }
}

/// The retransmissions a whole extension chain asks for, in order.
pub open spec fn sack_resend_seqs(exts: Seq<(u8, Seq<u8>)>, ack: u16, w: Seq<Packet>) -> Seq<u16>
    decreases exts.len(),
{
    if exts.len() == 0 {
        Seq::empty()
    } else {
        ext_resend_seqs(exts[0], ack, w) + sack_resend_seqs(exts.drop_first(), ack, w)
    }
}

/// Whether one extension record flags a loss: a selective-ack with three or
/// more set bits, or one asking for at least one retransmission.
pub open spec fn ext_flags_loss(e: (u8, Seq<u8>), ack: u16, w: Seq<Packet>) -> bool {
    e.0 == SELECTIVE_ACK_TYPE && (count_set_bits(e.1, 0) >= 3 || (w.len() > 0 && sack_scan(
        e.1,
        0,
        ack,
        w.last().seq_nr,
    ).len() > 0))
}

/// Whether selective-ack processing of a whole extension chain flags a loss.
pub open spec fn sack_flags_loss(exts: Seq<(u8, Seq<u8>)>, ack: u16, w: Seq<Packet>) -> bool
    decreases exts.len(),
{
    if exts.len() == 0 {
        false
    } else {
        ext_flags_loss(exts[0], ack, w) || sack_flags_loss(exts.drop_first(), ack, w)
    }
}

/// For values below twice the modulus, the remainder is a single
/// conditional subtraction.
proof fn lemma_small_mod(v: int, m: int)
    requires
        0 < m,
        0 <= v < 2 * m,
    ensures
        v % m == if v < m {
            v
        } else {
            v - m
        },
{
    assert(v % m == if v < m {
        v
    } else {
        v - m
    }) by (nonlinear_arith)
        requires
            0 < m,
            0 <= v < 2 * m,
    ;
}

/// The bitmap's bit-to-sequence rule matches the wrapping arithmetic the
/// scan computes with.
pub proof fn lemma_sack_nth_seq(ack: u16, i: int)
    requires
        0 <= i < 0x10000,
    ensures
        sack_nth_seq(ack, i) == ack.wrapping_add(2).wrapping_add(i as u16),
{
    let m: int = 0x10000;
    let x = ack.wrapping_add(2);
    lemma_small_mod(ack + 2, m);
    assert(x == (ack + 2) % m);
    lemma_small_mod(x + i, m);
    assert(x.wrapping_add(i as u16) == (x + i) % m);
    assert(((ack + 2) % m + i) % m == (ack + 2 + i) % m) by (nonlinear_arith)
        requires
            m == 0x10000,
            ack + 2 >= 0,
            i >= 0,
    ;
}

/// Appending one extension extends the chain's retransmission list and its
/// loss flag by that extension's own.
pub proof fn lemma_sack_seqs_take_step(exts: Seq<(u8, Seq<u8>)>, e: int, ack: u16, w: Seq<Packet>)
    requires
        0 <= e < exts.len(),
    ensures
        sack_resend_seqs(exts.take(e + 1), ack, w) == sack_resend_seqs(exts.take(e), ack, w)
            + ext_resend_seqs(exts[e], ack, w),
        sack_flags_loss(exts.take(e + 1), ack, w) == (sack_flags_loss(exts.take(e), ack, w)
            || ext_flags_loss(exts[e], ack, w)),
    decreases e,
{
    if e == 0 {
        assert(exts.take(0int) =~= Seq::<(u8, Seq<u8>)>::empty());
        assert(exts.take(1int)[0] == exts[0]);
        assert(exts.take(1int).drop_first() =~= Seq::<(u8, Seq<u8>)>::empty());
        assert(sack_resend_seqs(Seq::<(u8, Seq<u8>)>::empty(), ack, w) == Seq::<u16>::empty());
        assert(sack_resend_seqs(exts.take(1int), ack, w) =~= ext_resend_seqs(exts[0], ack, w));
        assert(sack_resend_seqs(exts.take(0int), ack, w) + ext_resend_seqs(exts[0], ack, w)
            =~= ext_resend_seqs(exts[0], ack, w));
    } else {
        assert(exts.take(e + 1)[0] == exts[0]);
        assert(exts.take(e)[0] == exts[0]);
        assert(exts.take(e + 1).drop_first() =~= exts.drop_first().take(e));
        assert(exts.take(e).drop_first() =~= exts.drop_first().take(e - 1));
        assert(exts.drop_first()[e - 1] == exts[e]);
        lemma_sack_seqs_take_step(exts.drop_first(), e - 1, ack, w);
        assert(sack_resend_seqs(exts.take(e + 1), ack, w) =~= sack_resend_seqs(
            exts.take(e),
            ack,
            w,
        ) + ext_resend_seqs(exts[e], ack, w));
    }
}

} // verus!
