//! The player: one current track plus a lazily produced sequence of upcoming
//! tracks, presented as a single continuous stream.
//!
//! Reading delegates to the current track.  Loading advances: while the
//! current track is finished, any tail it peels is collected, and the next
//! track of the sequence takes its place; once the sequence runs dry the
//! player is permanently at end of stream.

use vstd::prelude::*;
use crate::error::Error;
use crate::stream::{InnerStream, Sample, wrap_add};
use crate::track::Track;

verus! {

/// A producer of the upcoming tracks, consumed one at a time.
///
/// Beside the tracks themselves, a source may make optional promises
/// through the spec hooks; each defaults to the weakest claim, and a source
/// that overrides one must live up to the matching clauses of `next_track`.
/// The `measure` bounds how many unreadable tracks can come in a row, so
/// that advancing over a run of spent tracks comes to an end; `dry` names
/// genuine exhaustion; `may_fail` and `may_report` bound which failures can
/// ever come back; and a source with `logs_tracks` pins every handed-out
/// track to its place in its fixed `catalog`.
pub trait TrackSource {
    /// How many more fruitless tracks the source may still hand out.
    open spec fn measure(&self) -> nat {
        0
    }

    /// Whether the source is known to have nothing left to hand out.  A dry
    /// source stays dry and yields nothing; sources that cannot tell leave
    /// the default in place.
    open spec fn dry(&self) -> bool {
        false
    }

    /// Whether the source can ever report a failure.  Sources that cannot
    /// tell leave the conservative default in place.
    open spec fn may_fail(&self) -> bool {
        true
    }

    /// Whether the source promises that its sequence ends only by genuine
    /// exhaustion: it hands out `None` only once it is dry.  Sources that
    /// cannot promise this leave the default in place.
    open spec fn ends_only_when_dry(&self) -> bool {
        false
    }

    /// Which failures the source can ever report.  Sources that cannot tell
    /// leave the permissive default in place.
    open spec fn may_report(&self, e: Error) -> bool {
        true
    }

    /// Whether the source keeps a record of the tracks it has handed out.
    /// Sources that keep none leave the default in place.
    open spec fn logs_tracks(&self) -> bool {
        false
    }

    /// The tracks handed out so far, oldest first, for sources that keep
    /// the record.
    open spec fn handed(&self) -> Seq<Track> {
        Seq::empty()
    }

    /// The full run of tracks the source will ever hand out, for sources
    /// that keep the record: what was handed out followed by what is still
    /// to come.
    open spec fn catalog(&self) -> Seq<Track> {
        Seq::empty()
    }

    /// The next track of the sequence: `None` once the sequence is over,
    /// a failure if the clip could not be produced.
    fn next_track(&mut self) -> (r: Option<Result<Track, Error>>)
        ensures
            final(self).measure() <= old(self).measure(),
            r matches Some(Ok(t)) ==> t.wf(),
            (r matches Some(Ok(t)) && t.max_read_spec() == 0) ==> final(self).measure() < old(
                self,
            ).measure(),
            old(self).dry() ==> r is None && final(self).dry(),
            !old(self).may_fail() ==> !final(self).may_fail() && (r matches Some(tr) ==> tr
                is Ok),
            old(self).ends_only_when_dry() ==> final(self).ends_only_when_dry() && (r is None
                ==> final(self).dry()),
            r matches Some(Err(e)) ==> old(self).may_report(e),
            forall|e: Error| #[trigger] final(self).may_report(e) ==> old(self).may_report(e),
            old(self).logs_tracks() ==> final(self).logs_tracks(),
            old(self).logs_tracks() ==> (r matches Some(Ok(t)) ==> final(self).handed() == old(
                self,
            ).handed().push(t)),
            old(self).logs_tracks() ==> (!(r matches Some(Ok(_))) ==> final(self).handed()
                == old(self).handed()),
            old(self).logs_tracks() ==> final(self).catalog() == old(self).catalog() && old(
                self,
            ).handed() == old(self).catalog().take(old(self).handed().len() as int),
            old(self).logs_tracks() ==> (r matches Some(Ok(t)) ==> old(self).handed().len()
                < old(self).catalog().len() && t == old(self).catalog()[old(
                self,
            ).handed().len() as int]),
            old(self).logs_tracks() ==> ((!old(self).dry() && final(self).dry()) ==> final(self).handed().len() > old(self).handed().len()),
    ;
}

/// A finite, pre-assembled sequence of tracks, handed out front to back,
/// keeping a record of what it handed out.
pub struct Playlist {
    tracks: Vec<Track>,
    handed_log: Ghost<Seq<Track>>,
}

impl Playlist {
    #[verifier::type_invariant]
    spec fn inv(self) -> bool {
        forall|i: int| 0 <= i < self.tracks@.len() ==> (#[trigger] self.tracks@[i]).wf()
    }

    /// The tracks not yet handed out, in order.
    pub closed spec fn upcoming(self) -> Seq<Track> {
        self.tracks@
    }

    /// Assembles a playlist over well-formed tracks.
    pub fn new(tracks: Vec<Track>) -> (r: Playlist)
        requires
            forall|i: int| 0 <= i < tracks@.len() ==> (#[trigger] tracks@[i]).wf(),
        ensures
            r.upcoming() == tracks@,
            r.handed() == Seq::<Track>::empty(),
    {
        Playlist { tracks, handed_log: Ghost(Seq::empty()) }
    }
}

impl TrackSource for Playlist {
    closed spec fn measure(&self) -> nat {
        self.tracks@.len()
    }

    open spec fn dry(&self) -> bool {
        self.upcoming().len() == 0
    }

    open spec fn may_fail(&self) -> bool {
        false
    }

    open spec fn ends_only_when_dry(&self) -> bool {
        true
    }

    open spec fn may_report(&self, e: Error) -> bool {
        false
    }

    open spec fn logs_tracks(&self) -> bool {
        true
    }

    closed spec fn handed(&self) -> Seq<Track> {
        self.handed_log@
    }

    closed spec fn catalog(&self) -> Seq<Track> {
        self.handed_log@ + self.tracks@
    }

    fn next_track(&mut self) -> (r: Option<Result<Track, Error>>)
        ensures
            old(self).upcoming().len() == 0 ==> r is None && final(self).upcoming() == old(
                self,
            ).upcoming(),
            old(self).upcoming().len() > 0 ==> r == Some(Ok::<Track, Error>(
                old(self).upcoming()[0],
            )) && final(self).upcoming() == old(self).upcoming().drop_first(),
    {
        proof {
            use_type_invariant(&*self);
        }
        let mut ts: Vec<Track> = Vec::new();
        core::mem::swap(&mut self.tracks, &mut ts);
        let r = if ts.len() > 0 {
            let t = ts.remove(0);
            self.handed_log = Ghost(self.handed_log@.push(t));
            Some(Ok(t))
        } else {
            None
        };
        core::mem::swap(&mut self.tracks, &mut ts);
        proof {
            assert(old(self).handed() =~= old(self).catalog().take(
                old(self).handed().len() as int,
            ));
            assert(final(self).catalog() =~= old(self).catalog());
        }
        r
    }
}

/// The samples each of a run of tails will deliver, in order.
pub open spec fn tail_remainings(ts: Seq<InnerStream>) -> Seq<Seq<Sample>> {
    ts.map_values(|t: InnerStream| t.remaining())
}

/// The remainder a track gives up when it is peeled: present exactly when
/// its splice countdown hit zero with audio left.
pub open spec fn peel_of(t: Track) -> Seq<Seq<Sample>> {
    if t.splice() == Some(0u64) && t.inner().remaining().len() > 0 {
        seq![t.inner().remaining()]
    } else {
        Seq::empty()
    }
}

/// The remainders peeled off a run of tracks, in order.
pub open spec fn peels_of(ts: Seq<Track>) -> Seq<Seq<Sample>>
    decreases ts.len(),
{
    if ts.len() == 0 {
        Seq::empty()
    } else {
        peel_of(ts.first()) + peels_of(ts.drop_first())
    }
}

/// One more track contributes its own peel at the end of the run.
proof fn lemma_peels_of_push(ts: Seq<Track>, t: Track)
    ensures
        peels_of(ts.push(t)) == peels_of(ts) + peel_of(t),
    decreases ts.len(),
{
    if ts.len() == 0 {
        assert(ts.push(t).drop_first() =~= Seq::<Track>::empty());
        assert(ts.push(t).first() == t);
        assert(peels_of(ts.push(t)) == peel_of(t) + peels_of(ts.push(t).drop_first()));
        assert(peels_of(Seq::<Track>::empty()) == Seq::<Seq<Sample>>::empty());
        assert(peels_of(ts.push(t)) =~= peel_of(t));
        assert(peels_of(ts) + peel_of(t) =~= peel_of(t));
    } else {
        lemma_peels_of_push(ts.drop_first(), t);
        assert(ts.push(t).drop_first() =~= ts.drop_first().push(t));
        assert(ts.push(t).first() == ts.first());
        assert(peel_of(ts.first()) + (peels_of(ts.drop_first()) + peel_of(t)) =~= (peel_of(
            ts.first(),
        ) + peels_of(ts.drop_first())) + peel_of(t));
    }
}

/// What one `Player::load` that returns `Ok` did: afterwards the player is
/// readable or finished for good; every returned tail is a live stream with
/// readable frames; a player with readable frames was left untouched; an
/// unfinished current track was only refilled, never advanced or peeled; a
/// current track whose countdown hit zero with audio left had its remainder
/// peeled and returned first, intact; a drained track over a dry source
/// ends the player with nothing peeled; and over a source that ends only by
/// genuine exhaustion, the player can become exhausted only because the
/// source really ran dry.
pub open spec fn player_loaded<S: TrackSource>(
    p0: Player<S>,
    p1: Player<S>,
    ts: Seq<InnerStream>,
) -> bool {
    &&& p1.wf()
    &&& p1.max_read_spec() > 0 || p1.is_eos_spec()
    &&& (forall|i: int|
        0 <= i < ts.len() ==> (#[trigger] ts[i]).wf() && ts[i].remaining().len() > 0
            && ts[i].buffered().len() > 0)
    &&& (p0.max_read_spec() > 0 ==> p1 == p0 && ts.len() == 0)
    &&& (!p0.current().is_eos_spec() ==> ts.len() == 0 && p1.current().inner().remaining()
        == p0.current().inner().remaining() && p1.current().splice() == p0.current().splice()
        && p1.exhausted_spec() == p0.exhausted_spec())
    &&& ((p0.current().splice() == Some(0u64) && p0.current().inner().remaining().len() > 0)
        ==> ts.len() >= 1 && ts[0].remaining() == p0.current().inner().remaining()
        && ts[0].buffered().len() > 0)
    &&& ((p0.source_spec().dry() && p0.current().inner().remaining().len() == 0) ==> ts.len()
        == 0 && p1.is_eos_spec())
    &&& ((p0.exhausted_spec() && p0.current().is_eos_spec()
        && p0.current().inner().remaining().len() == 0) ==> ts.len() == 0 && p1.is_eos_spec())
    &&& (p0.source_spec().dry() ==> p1.source_spec().dry())
    &&& (p0.source_spec().ends_only_when_dry() ==> p1.source_spec().ends_only_when_dry())
    &&& ((p0.source_spec().ends_only_when_dry() && !p0.exhausted_spec()
        && p1.exhausted_spec()) ==> p1.source_spec().dry())
    &&& (p0.source_spec().logs_tracks() ==> {
        let consumed = p1.source_spec().handed().skip(p0.source_spec().handed().len() as int);
        &&& p1.source_spec().logs_tracks()
        &&& p1.source_spec().handed().len() >= p0.source_spec().handed().len()
        &&& p1.source_spec().handed().take(p0.source_spec().handed().len() as int)
            == p0.source_spec().handed()
        &&& p1.source_spec().catalog() == p0.source_spec().catalog()
        &&& (forall|j: int|
            0 <= j < consumed.len() ==> p0.source_spec().handed().len() + j < p0.source_spec().catalog().len()
                && #[trigger] consumed[j] == p0.source_spec().catalog()[p0.source_spec().handed().len() + j])
        &&& ((!p0.source_spec().dry() && p1.source_spec().dry())
            ==> p1.source_spec().handed().len() > p0.source_spec().handed().len())
        &&& tail_remainings(ts) == peels_of(seq![p0.current()] + consumed)
        &&& (consumed.len() > 0 ==> p1.current().splice() == consumed.last().splice() && (
        p1.current().inner().remaining() == consumed.last().inner().remaining() || (
        p1.current().inner().remaining().len() == 0 && consumed.last().splice() == Some(0u64))))
        &&& (consumed.len() == 0 ==> p1.current().splice() == p0.current().splice() && (
        p1.current().inner().remaining() == p0.current().inner().remaining() || (
        p1.current().inner().remaining().len() == 0 && p0.current().splice() == Some(0u64))))
    })
}

/// One current track and the source of those to come, as one stream.
pub struct Player<S: TrackSource> {
    track: Track,
    exhausted: bool,
    source: S,
}

impl<S: TrackSource> Player<S> {
    /// The track being played right now.
    pub closed spec fn current(self) -> Track {
        self.track
    }

    /// Whether the upcoming sequence has run dry for good.
    pub closed spec fn exhausted_spec(self) -> bool {
        self.exhausted
    }

    /// The source of the upcoming tracks.
    pub closed spec fn source_spec(self) -> S {
        self.source
    }

    /// Well-formedness of the current track.
    pub open spec fn wf(self) -> bool {
        self.current().wf()
    }

    /// The samples of the current track immediately readable right now.
    pub open spec fn buffered(self) -> Seq<Sample> {
        self.current().inner().buffered()
    }

    /// How many frames are exposed right now.
    pub open spec fn max_read_spec(self) -> nat {
        self.current().max_read_spec()
    }

    /// Finished for good: the sequence has run dry and the current track is
    /// finished too.
    pub open spec fn is_eos_spec(self) -> bool {
        self.exhausted_spec() && self.current().is_eos_spec()
    }

    /// Builds a player over a source and performs one eager load, so that a
    /// new player is immediately either ready or terminally empty.  Tails
    /// peeled while advancing to the first readable track are returned.
    pub fn new(source: S) -> (r: Result<(Player<S>, Vec<InnerStream>), Error>)
        ensures
            r matches Ok(pt) ==> pt.0.wf() && (pt.0.max_read_spec() > 0 || pt.0.is_eos_spec()) && (
            forall|i: int|
                0 <= i < pt.1@.len() ==> (#[trigger] pt.1@[i]).wf() && pt.1@[i].remaining().len()
                    > 0 && pt.1@[i].buffered().len() > 0),
            !source.may_fail() ==> r is Ok,
            source.dry() ==> (r matches Ok(pt) && pt.0.is_eos_spec() && pt.1@.len() == 0),
            r is Err ==> source.may_fail(),
            source.ends_only_when_dry() ==> (r matches Ok(pt) ==> (pt.0.exhausted_spec()
                ==> pt.0.source_spec().dry()) && pt.0.source_spec().ends_only_when_dry()),
            r matches Err(e) ==> source.may_report(e),
            source.logs_tracks() ==> (r matches Ok(pt) ==> pt.0.source_spec().logs_tracks()
                && pt.0.source_spec().handed().len() >= source.handed().len()
                && pt.0.source_spec().handed().take(source.handed().len() as int)
                == source.handed() && pt.0.source_spec().catalog() == source.catalog()
                && tail_remainings(pt.1@) == peels_of(
                pt.0.source_spec().handed().skip(source.handed().len() as int),
            ) && (forall|j: int|
                0 <= j < pt.0.source_spec().handed().len() - source.handed().len()
                    ==> source.handed().len() + j < source.catalog().len()
                    && #[trigger] pt.0.source_spec().handed().skip(
                    source.handed().len() as int,
                )[j] == source.catalog()[source.handed().len() + j])),
    {
        let ghost logs0 = source.logs_tracks();
        let ghost h0 = source.handed();
        let mut player = Player { track: Track::empty(), exhausted: false, source };
        let ghost p_init = player;
        match player.load() {
            Ok(tails) => {
                proof {
                    if logs0 {
                        let consumed = player.source.handed().skip(h0.len() as int);
                        let run = seq![p_init.current()] + consumed;
                        assert(run.first() == p_init.current());
                        assert(run.drop_first() =~= consumed);
                        assert(peel_of(p_init.current()) == Seq::<Seq<Sample>>::empty());
                        assert(peels_of(run) == peel_of(p_init.current()) + peels_of(consumed));
                        assert(peels_of(run) =~= peels_of(consumed));
                    }
                }
                Ok((player, tails))
            },
            Err(e) => Err(e),
        }
    }

    /// True iff no further frames will ever be produced.
    pub fn is_eos(&self) -> (r: bool)
        requires
            self.wf(),
        ensures
            r == self.is_eos_spec(),
    {
        self.exhausted && self.track.is_eos()
    }

    /// How many frames can be read right now, without further decode work.
    pub fn max_read(&self) -> (r: usize)
        requires
            self.wf(),
        ensures
            r == self.max_read_spec(),
    {
        self.track.max_read()
    }

    /// Accumulates exactly `buf.len()` frames of the current track onto the
    /// caller's buffer.
    pub fn read_add(&mut self, buf: &mut Vec<Sample>)
        requires
            old(self).wf(),
            old(buf)@.len() <= old(self).max_read_spec(),
        ensures
            final(self).wf(),
            final(buf)@.len() == old(buf)@.len(),
            forall|i: int|
                0 <= i < old(buf)@.len() ==> final(buf)@[i] == wrap_add(
                    old(buf)@[i],
                    old(self).buffered()[i],
                ),
            final(self).buffered() == old(self).buffered().skip(old(buf)@.len() as int),
            final(self).exhausted_spec() == old(self).exhausted_spec(),
    {
        self.track.read_add(buf);
    }

    /// Advances until the current track has readable frames or the sequence
    /// is exhausted, collecting every tail peeled along the way.  A safe
    /// no-op while frames are readable.  On a source failure the player
    /// resets to a terminal empty state and reports the failure.
    pub fn load(&mut self) -> (r: Result<Vec<InnerStream>, Error>)
        requires
            old(self).wf(),
        ensures
            final(self).wf(),
            r matches Ok(tails) ==> player_loaded(*old(self), *final(self), tails@),
            old(self).max_read_spec() > 0 ==> *final(self) == *old(self) && (r matches Ok(tails)
                && tails@.len() == 0),
            r is Err ==> final(self).is_eos_spec() && old(self).source_spec().may_fail(),
            !old(self).current().is_eos_spec() ==> r is Ok,
            !old(self).source_spec().may_fail() ==> r is Ok,
            (old(self).source_spec().dry() && old(self).current().inner().remaining().len() == 0)
                ==> r is Ok,
            old(self).source_spec().dry() ==> final(self).source_spec().dry(),
            old(self).source_spec().ends_only_when_dry() ==> final(self).source_spec().ends_only_when_dry(),
            (r is Ok && old(self).source_spec().ends_only_when_dry() && !old(
                self,
            ).exhausted_spec() && final(self).exhausted_spec()) ==> final(self).source_spec().dry(),
            r matches Err(e) ==> old(self).source_spec().may_report(e),
    {
        let mut tails: Vec<InnerStream> = Vec::new();
        let mut done = false;
        let ghost logs = self.source.logs_tracks();
        let ghost h0 = self.source.handed();
        let ghost mut done_list: Seq<Track> = seq![old(self).current()];
        let ghost mut cur0: Track = old(self).current();
        let ghost mut cur_peeled: bool = false;
        proof {
            if logs {
                assert(self.source.handed().skip(h0.len() as int) =~= Seq::<Track>::empty());
                assert(done_list =~= seq![old(self).current()] + self.source.handed().skip(
                    h0.len() as int,
                ));
                assert(self.source.handed().take(h0.len() as int) =~= h0);
                assert(done_list.drop_last() =~= Seq::<Track>::empty());
                assert(peels_of(done_list.drop_last()) == Seq::<Seq<Sample>>::empty());
                assert(tail_remainings(tails@) =~= peels_of(done_list.drop_last()));
            }
        }
        while !done && self.track.max_read() == 0
            invariant
                logs == old(self).source_spec().logs_tracks(),
                h0 == old(self).source_spec().handed(),
                logs ==> self.source.logs_tracks(),
                logs ==> self.source.handed().len() >= h0.len() && self.source.handed().take(
                    h0.len() as int,
                ) == h0,
                logs ==> self.source.catalog() == old(self).source_spec().catalog(),
                logs ==> ((!old(self).source_spec().dry() && self.source.dry())
                    ==> self.source.handed().len() > h0.len()),
                logs ==> (forall|j: int|
                    h0.len() <= j < self.source.handed().len() ==> j < self.source.catalog().len()
                        && #[trigger] self.source.handed()[j] == self.source.catalog()[j]),
                logs ==> done_list == seq![old(self).current()] + self.source.handed().skip(
                    h0.len() as int,
                ),
                logs ==> done_list.len() >= 1 && done_list.last() == cur0,
                logs ==> self.track.splice() == cur0.splice(),
                logs ==> (!cur_peeled ==> self.track.inner().remaining()
                    == cur0.inner().remaining()),
                logs ==> (cur_peeled ==> cur0.splice() == Some(0u64)
                    && cur0.inner().remaining().len() > 0 && self.track.inner().remaining().len()
                    == 0),
                logs ==> tail_remainings(tails@) == peels_of(done_list.drop_last()) + (
                if cur_peeled {
                    seq![cur0.inner().remaining()]
                } else {
                    Seq::<Seq<Sample>>::empty()
                }),
                logs ==> (done ==> peel_of(cur0) == (if cur_peeled {
                    seq![cur0.inner().remaining()]
                } else {
                    Seq::<Seq<Sample>>::empty()
                })),
                self.wf(),
                forall|i: int|
                    0 <= i < tails@.len() ==> (#[trigger] tails@[i]).wf()
                        && tails@[i].remaining().len() > 0 && tails@[i].buffered().len() > 0,
                done ==> self.exhausted && self.track.is_eos_spec(),
                old(self).max_read_spec() > 0 ==> *self == *old(self) && tails@.len() == 0,
                old(self).source_spec().dry() ==> self.source.dry(),
                !old(self).source_spec().may_fail() ==> !self.source.may_fail(),
                old(self).exhausted_spec() ==> self.exhausted,
                old(self).source_spec().ends_only_when_dry() ==> self.source.ends_only_when_dry(),
                (old(self).source_spec().ends_only_when_dry() && !old(self).exhausted_spec()
                    && self.exhausted) ==> self.source.dry(),
                forall|e: Error| #[trigger] self.source.may_report(e) ==> old(
                    self,
                ).source_spec().may_report(e),
                !old(self).current().is_eos_spec() ==> tails@.len() == 0
                    && self.track.inner().remaining() == old(self).current().inner().remaining()
                    && self.track.splice() == old(self).current().splice() && self.exhausted
                    == old(self).exhausted_spec(),
                (old(self).current().splice() == Some(0u64) && old(
                    self,
                ).current().inner().remaining().len() > 0) ==> (tails@.len() >= 1 && tails@[0].remaining()
                    == old(self).current().inner().remaining() && tails@[0].buffered().len() > 0)
                    || (!done && *self == *old(self) && tails@.len() == 0),
                (old(self).source_spec().dry() && old(self).current().inner().remaining().len()
                    == 0) ==> tails@.len() == 0 && self.track.inner().remaining().len() == 0,
                (old(self).exhausted_spec() && old(self).current().is_eos_spec() && old(
                    self,
                ).current().inner().remaining().len() == 0) ==> tails@.len() == 0
                    && self.track.inner().remaining().len() == 0,
            decreases
                    self.source.measure(),
                    (if done {
                        0int
                    } else {
                        1
                    }),
                    (if self.track.max_read_spec() == 0 {
                        1int
                    } else {
                        0
                    }),
        {
            let ghost t_pre = self.track;
            let ghost tl0 = tails@;
            let mut new_tails = match self.track.load() {
                Ok(ts) => ts,
                Err(e) => {
                    return Err(e);
                },
            };
            let ghost nts = new_tails@;
            tails.append(&mut new_tails);
            proof {
                if logs {
                    if t_pre.splice() == Some(0u64) && t_pre.inner().remaining().len() > 0 {
                        // this load peeled the current track's remainder
                        assert(nts.len() == 1 && nts[0].remaining()
                            == t_pre.inner().remaining());
                        assert(!cur_peeled);
                        cur_peeled = true;
                        assert(tails@ =~= tl0.push(nts[0]));
                        assert(tail_remainings(tails@) =~= tail_remainings(tl0).push(
                            nts[0].remaining(),
                        ));
                        assert(tail_remainings(tails@) =~= peels_of(done_list.drop_last())
                            + seq![cur0.inner().remaining()]);
                    } else {
                        assert(nts.len() == 0);
                        assert(tails@ =~= tl0);
                    }
                }
            }
            if self.track.is_eos() {
                if self.exhausted {
                    done = true;
                } else {
                    match self.source.next_track() {
                        Some(res) => match res {
                            Ok(t) => {
                                let ghost tg = t;
                                let ghost done0 = done_list;
                                self.track = t;
                                proof {
                                    if logs {
                                        // the finished track's peel is settled
                                        assert(peel_of(cur0) == (if cur_peeled {
                                            seq![cur0.inner().remaining()]
                                        } else {
                                            Seq::<Seq<Sample>>::empty()
                                        }));
                                        lemma_peels_of_push(done0.drop_last(), cur0);
                                        assert(done0.drop_last().push(cur0) =~= done0);
                                        assert(peels_of(done0) =~= peels_of(done0.drop_last())
                                            + peel_of(cur0));
                                        done_list = done0.push(tg);
                                        cur0 = tg;
                                        cur_peeled = false;
                                        assert(done_list.drop_last() =~= done0);
                                        assert(tail_remainings(tails@) =~= peels_of(
                                            done_list.drop_last(),
                                        ));
                                        assert(self.source.handed().take(h0.len() as int)
                                            =~= h0);
                                        assert(done_list =~= seq![old(self).current()]
                                            + self.source.handed().skip(h0.len() as int));
                                    }
                                }
                            },
                            Err(e) => {
                                self.track = Track::empty();
                                self.exhausted = true;
                                return Err(e);
                            },
                        },
                        None => {
                            self.exhausted = true;
                            done = true;
                        },
                    }
                }
            }
        }
        proof {
            if logs {
                // the run of consumed tracks ends with the current one
                lemma_peels_of_push(done_list.drop_last(), cur0);
                assert(done_list.drop_last().push(cur0) =~= done_list);
                assert(peel_of(cur0) == (if cur_peeled {
                    seq![cur0.inner().remaining()]
                } else {
                    Seq::<Seq<Sample>>::empty()
                }));
                assert(tail_remainings(tails@) =~= peels_of(done_list));
            }
        }
        Ok(tails)
    }
}

} // verus!
