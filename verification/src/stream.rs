//! The pull-based stream leaves: decoded clip streams and the inert empty
//! stream.
//!
//! Every audio-producing node answers the same four questions: is it finished
//! for good (`is_eos`), how many frames can be read right now (`max_read`),
//! accumulate that many frames into a caller's buffer (`read_add`), and do a
//! step of buffering work, possibly handing back newly independent streams
//! (`load`).

use vstd::prelude::*;
use vstd::seq_lib::*;
use crate::error::Error;

verus! {

/// One decoded sample.  Samples from the decoder fit in 16 bits; the wider
/// type leaves headroom so that accumulating many members into one buffer
/// stays faithful in practice, and any overflow that does occur wraps.
pub type Sample = i64;

/// What the wrapping accumulation of one sample onto another yields.
pub open spec fn wrap_add(a: Sample, b: Sample) -> Sample {
    vstd::wrapping::i64_specs::wrapping_add(a, b)
}

/// The mathematical contents of a queue of packets.
pub open spec fn packet_views(packets: Seq<Vec<Sample>>) -> Seq<Seq<Sample>> {
    packets.map_values(|p: Vec<Sample>| p@)
}

/// The first packet that carries any samples, or the empty sequence when
/// none does.
pub open spec fn first_nonempty(ps: Seq<Seq<Sample>>) -> Seq<Sample>
    decreases ps.len(),
{
    if ps.len() == 0 {
        Seq::empty()
    } else if ps.first().len() > 0 {
        ps.first()
    } else {
        first_nonempty(ps.drop_first())
    }
}

/// A stream that was always finished and delivers nothing.
pub struct EmptyStream;

impl EmptyStream {
    /// The empty stream never produces a frame.
    pub fn is_eos(&self) -> (r: bool)
        ensures
            r,
    {
        true
    }

    /// Nothing is ever immediately readable.
    pub fn max_read(&self) -> (r: usize)
        ensures
            r == 0,
    {
        0
    }

    /// Accumulates nothing; only an empty read is within bounds.
    pub fn read_add(&mut self, buf: &mut Vec<Sample>)
        requires
            old(buf)@.len() == 0,
        ensures
            final(buf)@ == old(buf)@,
    {
    }

    /// Loading is a no-op and never peels a tail.
    pub fn load(&mut self) -> (r: Result<Vec<InnerStream>, Error>)
        ensures
            r matches Ok(tails) && tails@.len() == 0,
    {
        Ok(Vec::new())
    }
}

/// A decoded clip's samples, delivered packet by packet.
///
/// The stream keeps one packet open for reading, one packet on deck, and the
/// rest queued; `load` slides the window forward once the open packet is
/// consumed.  Empty packets are discarded on construction, so a well-formed
/// stream is at end of stream exactly when no sample remains.
pub struct VorbisStream {
    offset: usize,
    packet: Vec<Sample>,
    next_packet: Option<Vec<Sample>>,
    pending: Vec<Vec<Sample>>,
}

impl VorbisStream {
    /// The samples of the open packet that have not been read yet.
    pub closed spec fn buffered(self) -> Seq<Sample> {
        self.packet@.skip(self.offset as int)
    }

    /// The packets that will be opened later, in playback order.
    pub closed spec fn upcoming(self) -> Seq<Seq<Sample>> {
        match self.next_packet {
            Some(p) => seq![p@] + packet_views(self.pending@),
            None => packet_views(self.pending@),
        }
    }

    /// Every sample this stream will ever deliver, in order.
    pub open spec fn remaining(self) -> Seq<Sample> {
        self.buffered() + self.upcoming().flatten()
    }

    /// The read offset stays within the open packet, no queued packet is
    /// empty, and the queue drains from the front: once nothing is on deck,
    /// nothing is pending either.
    pub closed spec fn wf(self) -> bool {
        &&& self.offset <= self.packet@.len()
        &&& (self.next_packet matches Some(p) ==> p@.len() > 0)
        &&& (forall|i: int| 0 <= i < self.pending@.len() ==> self.pending@[i]@.len() > 0)
        &&& (self.next_packet is None ==> self.pending@.len() == 0)
    }

    /// Builds the stream over a clip's decoded packets.  Empty packets carry
    /// no audio and are dropped, which keeps `is_eos` truthful.
    pub fn new(packets: Vec<Vec<Sample>>) -> (r: VorbisStream)
        ensures
            r.wf(),
            r.remaining() == packet_views(packets@).flatten(),
            r.remaining().len() > 0 ==> r.buffered().len() > 0,
            r.buffered() == first_nonempty(packet_views(packets@)),
    {
        let ghost all: Seq<Seq<Sample>> = packet_views(packets@);
        let mut rest = packets;
        let mut kept: Vec<Vec<Sample>> = Vec::new();
        proof {
            assert(packet_views(kept@) =~= Seq::<Seq<Sample>>::empty());
            assert(packet_views(kept@).flatten() + packet_views(rest@).flatten() =~= all.flatten());
        }
        while rest.len() > 0
            invariant
                forall|i: int| 0 <= i < kept@.len() ==> kept@[i]@.len() > 0,
                packet_views(kept@).flatten() + packet_views(rest@).flatten() == all.flatten(),
                first_nonempty(all) == if kept@.len() > 0 {
                    kept@[0]@
                } else {
                    first_nonempty(packet_views(rest@))
                },
            decreases rest@.len(),
        {
            let ghost old_rest = rest@;
            let ghost old_kept = kept@;
            let p = rest.remove(0);
            if p.len() > 0 {
                kept.push(p);
            }
            proof {
                let ov = packet_views(old_rest);
                assert(ov.len() > 0);
                assert(ov.flatten() == ov.first() + ov.drop_first().flatten());
                assert(ov.first() == p@);
                assert(ov.drop_first() =~= packet_views(rest@));
                if p@.len() > 0 {
                    packet_views(old_kept).lemma_flatten_push(p@);
                    assert(packet_views(old_kept).push(p@) =~= packet_views(kept@));
                    assert(packet_views(kept@).flatten() + packet_views(rest@).flatten() =~= all.flatten());
                    if old_kept.len() == 0 {
                        assert(first_nonempty(ov) == p@);
                        assert(kept@[0]@ == p@);
                    } else {
                        assert(kept@[0] == old_kept[0]);
                    }
                } else {
                    assert(p@ =~= Seq::<Sample>::empty());
                    assert(ov.flatten() =~= ov.drop_first().flatten());
                    assert(packet_views(kept@).flatten() + packet_views(rest@).flatten() =~= all.flatten());
                    if old_kept.len() == 0 {
                        assert(first_nonempty(ov) == first_nonempty(ov.drop_first()));
                        assert(first_nonempty(ov.drop_first()) == first_nonempty(
                            packet_views(rest@),
                        ));
                    }
                }
            }
        }
        proof {
            assert(packet_views(rest@) =~= Seq::<Seq<Sample>>::empty());
            assert(packet_views(kept@).flatten() =~= all.flatten());
        }
        if kept.len() == 0 {
            let r = VorbisStream {
                offset: 0,
                packet: Vec::new(),
                next_packet: None,
                pending: Vec::new(),
            };
            proof {
                assert(packet_views(kept@).flatten() =~= Seq::<Sample>::empty());
                assert(r.upcoming() =~= Seq::<Seq<Sample>>::empty());
                assert(r.remaining() =~= all.flatten());
                assert(r.buffered() =~= first_nonempty(all));
            }
            r
        } else {
            let ghost kept0 = kept@;
            let first = kept.remove(0);
            let next = if kept.len() > 0 {
                Some(kept.remove(0))
            } else {
                None
            };
            let r = VorbisStream { offset: 0, packet: first, next_packet: next, pending: kept };
            proof {
                let kv = packet_views(kept0);
                assert(kv.flatten() == kv.first() + kv.drop_first().flatten());
                assert(kv.first() == first@);
                assert(r.buffered() =~= first@);
                if kept0.len() > 1 {
                    let t = kv.drop_first();
                    assert(t.flatten() == t.first() + t.drop_first().flatten());
                    assert(r.upcoming() =~= t);
                    assert(r.remaining() =~= all.flatten());
                } else {
                    assert(kv.drop_first() =~= Seq::<Seq<Sample>>::empty());
                    assert(r.upcoming() =~= Seq::<Seq<Sample>>::empty());
                    assert(r.remaining() =~= all.flatten());
                }
            }
            r
        }
    }

    /// How many frames can be read right now, without further decode work.
    pub fn max_read(&self) -> (r: usize)
        requires
            self.wf(),
        ensures
            r == self.buffered().len(),
    {
        self.packet.len() - self.offset
    }

    /// Finished for good exactly when no sample remains anywhere.
    pub fn is_eos(&self) -> (r: bool)
        requires
            self.wf(),
        ensures
            r == (self.remaining().len() == 0),
    {
        let r = self.next_packet.is_none() && self.max_read() == 0;
        proof {
            lemma_nonempty_flatten_len(self.upcoming());
            if self.next_packet is None {
                assert(self.upcoming() =~= Seq::<Seq<Sample>>::empty());
            } else {
                assert(self.upcoming().len() > 0);
            }
        }
        r
    }

    /// Accumulates exactly `buf.len()` frames onto the caller's buffer and
    /// advances past them.
    pub fn read_add(&mut self, buf: &mut Vec<Sample>)
        requires
            old(self).wf(),
            old(buf)@.len() <= old(self).buffered().len(),
        ensures
            final(self).wf(),
            final(buf)@.len() == old(buf)@.len(),
            forall|i: int|
                0 <= i < old(buf)@.len() ==> final(buf)@[i] == wrap_add(
                    old(buf)@[i],
                    old(self).buffered()[i],
                ),
            final(self).buffered() == old(self).buffered().skip(old(buf)@.len() as int),
            final(self).upcoming() == old(self).upcoming(),
            final(self).remaining() == old(self).remaining().skip(old(buf)@.len() as int),
    {
        let n = buf.len();
        let mut i: usize = 0;
        while i < n
            invariant
                i <= n,
                n == buf@.len(),
                n == old(buf)@.len(),
                n <= old(self).buffered().len(),
                *self == *old(self),
                self.wf(),
                forall|j: int|
                    0 <= j < i ==> buf@[j] == wrap_add(old(buf)@[j], old(self).buffered()[j]),
                forall|j: int| i <= j < n ==> buf@[j] == old(buf)@[j],
            decreases n - i,
        {
            proof {
                assert(self.packet.len() == self.packet@.len());
                assert(self.offset + i < self.packet@.len());
            }
            let v = buf[i].wrapping_add(self.packet[self.offset + i]);
            buf.set(i, v);
            i += 1;
        }
        proof {
            assert(self.packet.len() == self.packet@.len());
            assert(self.offset + n <= self.packet@.len());
        }
        self.offset = self.offset + n;
        proof {
            assert(final(self).buffered() =~= old(self).buffered().skip(n as int));
            assert(final(self).remaining() =~= old(self).remaining().skip(n as int));
        }
    }

    /// Slides the packet window forward once the open packet is consumed.
    /// Never fails and never peels a tail; the samples it will deliver are
    /// unchanged; a stream with readable frames, or with no packet on deck,
    /// is untouched; and otherwise the packet on deck becomes the open
    /// window, whole.
    pub fn load(&mut self) -> (r: Result<Vec<InnerStream>, Error>)
        requires
            old(self).wf(),
        ensures
            final(self).wf(),
            r matches Ok(tails) && tails@.len() == 0,
            final(self).remaining() == old(self).remaining(),
            old(self).buffered().len() > 0 ==> *final(self) == *old(self),
            old(self).buffered().len() == 0 && old(self).remaining().len() > 0 ==> final(self).buffered().len() > 0,
            old(self).upcoming().len() == 0 ==> *final(self) == *old(self),
            (old(self).buffered().len() == 0 && old(self).upcoming().len() > 0) ==> final(self).buffered() == old(self).upcoming().first() && final(self).upcoming() == old(
                self,
            ).upcoming().drop_first(),
    {
        if self.offset == self.packet.len() {
            let taken = self.next_packet.take();
            if let Some(p) = taken {
                let ghost pend0 = self.pending@;
                self.packet = p;
                self.offset = 0;
                if self.pending.len() > 0 {
                    self.next_packet = Some(self.pending.remove(0));
                } else {
                    self.next_packet = None;
                }
                proof {
                    let ou = seq![p@] + packet_views(pend0);
                    assert(ou.flatten() == ou.first() + ou.drop_first().flatten());
                    assert(ou.first() == p@);
                    assert(ou.drop_first() =~= packet_views(pend0));
                    if pend0.len() > 0 {
                        let t = packet_views(pend0);
                        assert(t.flatten() == t.first() + t.drop_first().flatten());
                        assert(self.upcoming() =~= t);
                    } else {
                        assert(self.upcoming() =~= Seq::<Seq<Sample>>::empty());
                        assert(packet_views(pend0).flatten() =~= Seq::<Sample>::empty());
                    }
                    assert(old(self).buffered() =~= Seq::<Sample>::empty());
                    assert(final(self).remaining() =~= old(self).remaining());
                }
            } else {
                proof {
                    assert(*final(self) == *old(self));
                }
            }
        }
        Ok(Vec::new())
    }
}

/// A stream a track can own or peel off: either inert or a decoded clip.
pub enum InnerStream {
    /// The inert placeholder left behind once a tail has been peeled.
    Empty(EmptyStream),
    /// A decoded clip's sample stream.
    Clip(VorbisStream),
}

impl InnerStream {
    /// Well-formedness of the underlying stream.
    pub open spec fn wf(self) -> bool {
        match self {
            InnerStream::Empty(_) => true,
            InnerStream::Clip(c) => c.wf(),
        }
    }

    /// Every sample this stream will ever deliver, in order.
    pub open spec fn remaining(self) -> Seq<Sample> {
        match self {
            InnerStream::Empty(_) => Seq::empty(),
            InnerStream::Clip(c) => c.remaining(),
        }
    }

    /// The samples immediately readable right now.
    pub open spec fn buffered(self) -> Seq<Sample> {
        match self {
            InnerStream::Empty(_) => Seq::empty(),
            InnerStream::Clip(c) => c.buffered(),
        }
    }

    /// An inert stream with nothing to deliver.
    pub fn empty() -> (r: InnerStream)
        ensures
            r.wf(),
            r.remaining().len() == 0,
            r.buffered().len() == 0,
    {
        InnerStream::Empty(EmptyStream)
    }

    /// True iff no further frames will ever be produced.
    pub fn is_eos(&self) -> (r: bool)
        requires
            self.wf(),
        ensures
            r == (self.remaining().len() == 0),
    {
        match self {
            InnerStream::Empty(e) => e.is_eos(),
            InnerStream::Clip(c) => c.is_eos(),
        }
    }

    /// How many frames can be read right now, without further decode work.
    pub fn max_read(&self) -> (r: usize)
        requires
            self.wf(),
        ensures
            r == self.buffered().len(),
    {
        match self {
            InnerStream::Empty(e) => e.max_read(),
            InnerStream::Clip(c) => c.max_read(),
        }
    }

    /// Accumulates exactly `buf.len()` frames onto the caller's buffer and
    /// advances past them.
    pub fn read_add(&mut self, buf: &mut Vec<Sample>)
        requires
            old(self).wf(),
            old(buf)@.len() <= old(self).buffered().len(),
        ensures
            final(self).wf(),
            final(buf)@.len() == old(buf)@.len(),
            forall|i: int|
                0 <= i < old(buf)@.len() ==> final(buf)@[i] == wrap_add(
                    old(buf)@[i],
                    old(self).buffered()[i],
                ),
            final(self).buffered() == old(self).buffered().skip(old(buf)@.len() as int),
            final(self).remaining() == old(self).remaining().skip(old(buf)@.len() as int),
    {
        match self {
            InnerStream::Empty(e) => {
                e.read_add(buf);
                proof {
                    assert(final(self).buffered() =~= old(self).buffered().skip(
                        old(buf)@.len() as int,
                    ));
                    assert(final(self).remaining() =~= old(self).remaining().skip(
                        old(buf)@.len() as int,
                    ));
                }
            },
            InnerStream::Clip(c) => {
                c.read_add(buf);
            },
        }
    }

    /// One step of buffering work; never fails and never peels a tail here.
    pub fn load(&mut self) -> (r: Result<Vec<InnerStream>, Error>)
        requires
            old(self).wf(),
        ensures
            final(self).wf(),
            r matches Ok(tails) && tails@.len() == 0,
            final(self).remaining() == old(self).remaining(),
            old(self).buffered().len() > 0 ==> *final(self) == *old(self),
            old(self).buffered().len() == 0 && old(self).remaining().len() > 0 ==> final(self).buffered().len() > 0,
    {
        match self {
            InnerStream::Empty(e) => e.load(),
            InnerStream::Clip(c) => c.load(),
        }
    }
}

/// A flattened sequence of nonempty packets is empty only when there are no
/// packets at all.
proof fn lemma_nonempty_flatten_len(s: Seq<Seq<Sample>>)
    requires
        forall|i: int| 0 <= i < s.len() ==> s[i].len() > 0,
    ensures
        (s.flatten().len() == 0) <==> (s.len() == 0),
    decreases s.len(),
{
    if s.len() > 0 {
        assert(s.flatten() == s.first() + s.drop_first().flatten());
        assert(s.flatten().len() >= s.first().len());
    } else {
        assert(s.flatten() =~= Seq::<Sample>::empty());
    }
}

} // verus!
