//! A track: one clip's stream wrapped with an optional splice countdown.
//!
//! The countdown caps how many frames the track exposes.  Every read
//! decrements it; when it reaches zero while the clip still has audio left,
//! `load` peels the clip's unplayed remainder off as an independent stream
//! (a tail) and leaves an inert stream behind.  This module also parses the
//! splice-point annotations that accompany a clip's metadata.

use vstd::prelude::*;
use vstd::string::StrSliceExecFns;
use crate::error::Error;
use crate::stream::{InnerStream, Sample, wrap_add};

verus! {

/// One clip's stream plus an optional splice countdown.
pub struct Track {
    stream: InnerStream,
    splice_point: Option<u64>,
}

impl Track {
    /// The stream the track currently owns.
    pub closed spec fn inner(self) -> InnerStream {
        self.stream
    }

    /// The splice countdown: how many more frames may be exposed, if capped.
    pub closed spec fn splice(self) -> Option<u64> {
        self.splice_point
    }

    /// Well-formedness of the owned stream.
    pub open spec fn wf(self) -> bool {
        self.inner().wf()
    }

    /// The countdown as a count, when it fits the machine's sizes.
    pub open spec fn splice_as_usize(self) -> Option<usize> {
        match self.splice() {
            Some(sp) => if sp <= usize::MAX as u64 {
                Some(sp as usize)
            } else {
                None
            },
            None => None,
        }
    }

    /// How many frames are exposed right now: the owned stream's buffered
    /// frames, further capped by the countdown when it has one.
    pub open spec fn max_read_spec(self) -> nat {
        match self.splice_as_usize() {
            Some(sp) => if sp <= self.inner().buffered().len() {
                sp as nat
            } else {
                self.inner().buffered().len()
            },
            None => self.inner().buffered().len(),
        }
    }

    /// Finished for good: the clip is exhausted, or the countdown hit zero —
    /// splice truncation is authoritative regardless of remaining audio.
    pub open spec fn is_eos_spec(self) -> bool {
        self.inner().remaining().len() == 0 || self.splice() == Some(0u64)
    }

    /// A track over nothing: an inert stream and no countdown.
    pub fn empty() -> (r: Track)
        ensures
            r.wf(),
            r.inner().remaining().len() == 0,
            r.splice() is None,
            r.is_eos_spec(),
            r.max_read_spec() == 0,
    {
        Track { stream: InnerStream::empty(), splice_point: None }
    }

    /// Wraps a clip's stream with its optional splice countdown.
    pub fn new(stream: InnerStream, splice_point: Option<u64>) -> (r: Track)
        requires
            stream.wf(),
        ensures
            r.wf(),
            r.inner() == stream,
            r.splice() == splice_point,
    {
        Track { stream, splice_point }
    }

    /// The countdown as a count, when it fits the machine's sizes.
    pub fn splice_point_as_usize(&self) -> (r: Option<usize>)
        ensures
            r == self.splice_as_usize(),
    {
        match self.splice_point {
            Some(sp) => if sp <= usize::MAX as u64 {
                Some(sp as usize)
            } else {
                None
            },
            None => None,
        }
    }

    /// True iff no further frames will ever be produced.
    pub fn is_eos(&self) -> (r: bool)
        requires
            self.wf(),
        ensures
            r == self.is_eos_spec(),
    {
        let capped = match self.splice_point {
            Some(sp) => sp == 0,
            None => false,
        };
        capped || self.stream.is_eos()
    }

    /// How many frames can be read right now, without further decode work.
    pub fn max_read(&self) -> (r: usize)
        requires
            self.wf(),
        ensures
            r == self.max_read_spec(),
    {
        let m = self.stream.max_read();
        match self.splice_point_as_usize() {
            Some(sp) => if sp < m {
                sp
            } else {
                m
            },
            None => m,
        }
    }

    /// Accumulates exactly `buf.len()` frames onto the caller's buffer,
    /// advances the stream past them, and counts them off the countdown.
    pub fn read_add(&mut self, buf: &mut Vec<Sample>)
        requires
            old(self).wf(),
            old(buf)@.len() <= old(self).max_read_spec(),
        ensures
            final(self).wf(),
            final(buf)@.len() == old(buf)@.len(),
            forall|i: int|
                0 <= i < old(buf)@.len() ==> final(buf)@[i] == wrap_add(
                    old(buf)@[i],
                    old(self).inner().buffered()[i],
                ),
            final(self).inner().buffered() == old(self).inner().buffered().skip(
                old(buf)@.len() as int,
            ),
            final(self).inner().remaining() == old(self).inner().remaining().skip(
                old(buf)@.len() as int,
            ),
            final(self).splice() == match old(self).splice() {
                Some(sp) => Some((sp - old(buf)@.len()) as u64),
                None => None::<u64>,
            },
    {
        let n = buf.len();
        self.stream.read_add(buf);
        match self.splice_point {
            Some(sp) => {
                proof {
                    assert(n as u64 <= sp);
                }
                self.splice_point = Some(sp - n as u64);
            },
            None => {},
        }
    }

    /// One step of buffering work.  A safe no-op while frames are exposed.
    /// Exactly when the countdown has hit zero and the clip still has audio
    /// left, the clip is detached and returned as the single tail, its
    /// samples intact; an inert stream takes its place.
    pub fn load(&mut self) -> (r: Result<Vec<InnerStream>, Error>)
        requires
            old(self).wf(),
        ensures
            final(self).wf(),
            r is Ok,
            final(self).splice() == old(self).splice(),
            old(self).max_read_spec() > 0 ==> *final(self) == *old(self) && (r matches Ok(t)
                && t@.len() == 0),
            (old(self).max_read_spec() == 0 && old(self).splice() == Some(0u64) && old(
                self,
            ).inner().remaining().len() > 0) ==> (r matches Ok(t) && t@.len() == 1 && t@[0].wf()
                && t@[0].remaining() == old(self).inner().remaining() && t@[0].buffered().len() > 0
                && final(self).inner().remaining().len() == 0),
            (old(self).splice() != Some(0u64) || old(self).inner().remaining().len() == 0) ==> (
            r matches Ok(t) && t@.len() == 0),
            old(self).splice() != Some(0u64) ==> final(self).inner().remaining() == old(
                self,
            ).inner().remaining(),
            (old(self).max_read_spec() == 0 && old(self).splice() != Some(0u64) && old(
                self,
            ).inner().remaining().len() > 0) ==> final(self).max_read_spec() > 0,
            old(self).inner().remaining().len() == 0 ==> final(self).inner().remaining().len()
                == 0,
    {
        if self.max_read() == 0 {
            let loaded = self.stream.load();
            match loaded {
                Ok(_) => {},
                Err(e) => {
                    return Err(e);
                },
            }
            let capped = match self.splice_point {
                Some(sp) => sp == 0,
                None => false,
            };
            if capped && !self.stream.is_eos() {
                let mut tail = InnerStream::empty();
                core::mem::swap(&mut tail, &mut self.stream);
                let mut tails: Vec<InnerStream> = Vec::new();
                tails.push(tail);
                Ok(tails)
            } else {
                Ok(Vec::new())
            }
        } else {
            Ok(Vec::new())
        }
    }
}

/// Whether a character is a decimal digit.
pub open spec fn is_digit(c: char) -> bool {
    48 <= c as int && c as int <= 57
}

/// The numeric value of one decimal digit.
pub open spec fn digit_val(c: char) -> int {
    c as int - 48
}

/// Whether a string is a plain unsigned decimal number.
pub open spec fn is_dec_string(s: Seq<char>) -> bool {
    s.len() > 0 && forall|i: int| 0 <= i < s.len() ==> is_digit(s[i])
}

/// The number a decimal digit string denotes.
pub open spec fn dec_val(s: Seq<char>) -> int
    decreases s.len(),
{
    if s.len() == 0 {
        0
    } else {
        dec_val(s.drop_last()) * 10 + digit_val(s.last())
    }
}

/// The value of a digit string never shrinks as digits are appended.
proof fn lemma_dec_val_prefix_le(s: Seq<char>, j: int)
    requires
        forall|i: int| 0 <= i < s.len() ==> is_digit(s[i]),
        0 <= j <= s.len(),
    ensures
        0 <= dec_val(s.take(j)),
        dec_val(s.take(j)) <= dec_val(s),
    decreases s.len() - j,
{
    if j == s.len() {
        assert(s.take(j) =~= s);
        lemma_dec_val_nonneg(s);
    } else {
        lemma_dec_val_prefix_le(s, j + 1);
        assert(s.take(j + 1).drop_last() =~= s.take(j));
        assert(s.take(j + 1).last() == s[j]);
        lemma_dec_val_nonneg(s.take(j));
    }
}

/// A digit string denotes a non-negative number.
proof fn lemma_dec_val_nonneg(s: Seq<char>)
    requires
        forall|i: int| 0 <= i < s.len() ==> is_digit(s[i]),
    ensures
        0 <= dec_val(s),
    decreases s.len(),
{
    if s.len() > 0 {
        lemma_dec_val_nonneg(s.drop_last());
    }
}

/// Reads an unsigned decimal number, exactly when the whole string is one
/// and its value fits.
pub fn parse_u64(s: &str) -> (r: Result<u64, Error>)
    ensures
        (r is Ok) <==> (is_dec_string(s@) && dec_val(s@) <= u64::MAX),
        r matches Ok(v) ==> v == dec_val(s@),
        r matches Err(e) ==> e matches Error::Parse(t) && t@ == s@,
{
    let n = s.unicode_len();
    if n == 0 {
        return Err(Error::Parse(s.to_owned()));
    }
    let mut acc: u64 = 0;
    let mut i: usize = 0;
    while i < n
        invariant
            0 < n == s@.len(),
            0 <= i <= n,
            forall|j: int| 0 <= j < i ==> is_digit(s@[j]),
            acc == dec_val(s@.take(i as int)),
        decreases n - i,
    {
        let c = s.get_char(i);
        let d = c as u32;
        if d < 48 || d > 57 {
            return Err(Error::Parse(s.to_owned()));
        }
        let ghost prefix = s@.take(i as int);
        let ghost next_prefix = s@.take(i as int + 1);
        proof {
            assert(next_prefix.drop_last() =~= prefix);
            assert(next_prefix.last() == s@[i as int]);
        }
        let step = match acc.checked_mul(10) {
            Some(a) => a.checked_add((d - 48) as u64),
            None => None,
        };
        match step {
            Some(a) => {
                acc = a;
            },
            None => {
                proof {
                    lemma_dec_val_nonneg(prefix);
                    assert(dec_val(next_prefix) > u64::MAX);
                    if is_dec_string(s@) {
                        lemma_dec_val_prefix_le(s@, i as int + 1);
                        assert(dec_val(s@) > u64::MAX);
                    }
                }
                return Err(Error::Parse(s.to_owned()));
            },
        }
        i += 1;
    }
    proof {
        assert(s@.take(n as int) =~= s@);
    }
    Ok(acc)
}

/// The least splice point among a clip's annotations: none when there are no
/// annotations, the minimum when every annotation is a decimal number, and
/// the first offender's parse failure otherwise.
pub fn min_splice_point(values: &Vec<String>) -> (r: Result<Option<u64>, Error>)
    ensures
        (r is Ok) <==> (forall|i: int|
            0 <= i < values@.len() ==> is_dec_string(values@[i]@) && dec_val(values@[i]@)
                <= u64::MAX),
        r matches Ok(o) ==> (o is None <==> values@.len() == 0),
        r matches Ok(Some(m)) ==> (forall|i: int|
            0 <= i < values@.len() ==> m <= dec_val(values@[i]@)) && (exists|i: int|
            0 <= i < values@.len() && m == dec_val(values@[i]@)),
        r matches Err(e) ==> exists|i: int|
            0 <= i < values@.len() && !(is_dec_string(values@[i]@) && dec_val(values@[i]@)
                <= u64::MAX) && (forall|j: int|
                0 <= j < i ==> is_dec_string(values@[j]@) && dec_val(values@[j]@) <= u64::MAX) && (
            e matches Error::Parse(t) && t@ == values@[i]@),
{
    let mut best: Option<u64> = None;
    let mut i: usize = 0;
    while i < values.len()
        invariant
            0 <= i <= values@.len(),
            forall|j: int|
                0 <= j < i ==> is_dec_string(values@[j]@) && dec_val(values@[j]@) <= u64::MAX,
            (best is None) <==> (i == 0),
            best matches Some(m) ==> (forall|j: int| 0 <= j < i ==> m <= dec_val(values@[j]@)) && (
            exists|j: int| 0 <= j < i && m == dec_val(values@[j]@)),
        decreases values@.len() - i,
    {
        let v = match parse_u64(values[i].as_str()) {
            Ok(v) => v,
            Err(e) => {
                return Err(e);
            },
        };
        best = match best {
            Some(m) => if v < m {
                Some(v)
            } else {
                Some(m)
            },
            None => Some(v),
        };
        i += 1;
    }
    Ok(best)
}

/// The total an in-bounds read sequence delivers.
pub open spec fn reads_total(reads: Seq<int>) -> int
    decreases reads.len(),
{
    if reads.len() == 0 {
        0
    } else {
        reads.first() + reads_total(reads.drop_first())
    }
}

/// Whether a sequence of reads is in bounds against a splice countdown of
/// `s`: each read takes at most what the countdown still allows, exactly as
/// `Track::read_add` requires, and counts itself off, exactly as
/// `Track::read_add` ensures.
pub open spec fn reads_within_splice(s: int, reads: Seq<int>) -> bool
    decreases reads.len(),
{
    reads.len() == 0 || (0 <= reads.first() <= s && reads_within_splice(
        s - reads.first(),
        reads.drop_first(),
    ))
}

/// A track with splice point `s` never delivers more than `s` frames before
/// end of stream: any sequence of reads that respects the countdown totals
/// at most `s`.
pub proof fn lemma_reads_bounded_by_splice(s: int, reads: Seq<int>)
    requires
        s >= 0,
        reads_within_splice(s, reads),
    ensures
        reads_total(reads) <= s,
    decreases reads.len(),
{
    if reads.len() > 0 {
        lemma_reads_bounded_by_splice(s - reads.first(), reads.drop_first());
    }
}

/// When the splice point is at least the clip's length, the countdown can
/// reach zero only once the clip itself has nothing left, and `Track::load`
/// then peels no tail: a splice point past the end of a clip never forks it.
pub proof fn lemma_no_tail_when_splice_covers_clip(s: int, clip_len: int, delivered: int)
    requires
        s >= clip_len >= 0,
        0 <= delivered <= clip_len,
        s - delivered == 0,
    ensures
        clip_len - delivered == 0,
{
}

} // verus!
