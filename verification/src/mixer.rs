//! The mixer: a growable pool of independently advancing streams, moved in
//! lock step and accumulated into one buffer.
//!
//! The pool holds one player per configured source plus any peeled tails.
//! Loading scans the members that have nothing readable, collects the tails
//! they peel, drops the members that finished or failed, and appends the
//! tails as new members.  Failures found during a scan are queued and
//! surfaced one at a time by later calls, after the failing member is
//! already gone.

use vstd::prelude::*;
use vstd::multiset::Multiset;
use vstd::seq_lib::*;
use crate::error::Error;
use crate::player::{peel_of, peels_of, player_loaded, tail_remainings, Player, TrackSource};
use crate::track::Track;
use crate::stream::{InnerStream, Sample, wrap_add};

verus! {

/// Whether a pool member can ever report a failure: only a player over a
/// source that may fail can.
pub open spec fn can_fail<S: TrackSource>(m: PoolStream<S>) -> bool {
    match m {
        PoolStream::Inner(_) => false,
        PoolStream::Player(p) => p.source_spec().may_fail(),
    }
}

/// Which failures a pool member can ever report: none for an independent
/// stream, and only what its source can report for a player.
pub open spec fn member_may_report<S: TrackSource>(m: PoolStream<S>, e: Error) -> bool {
    match m {
        PoolStream::Inner(_) => false,
        PoolStream::Player(p) => p.source_spec().may_report(e),
    }
}

/// What one `InnerStream::load` did: the stream's samples are unchanged, a
/// readable stream was left untouched, and an unreadable stream with samples
/// left became readable.
pub open spec fn inner_loaded(s0: InnerStream, s1: InnerStream) -> bool {
    &&& s1.wf()
    &&& s1.remaining() == s0.remaining()
    &&& (s0.buffered().len() > 0 ==> s1 == s0)
    &&& (s0.buffered().len() == 0 && s0.remaining().len() > 0 ==> s1.buffered().len() > 0)
}

/// What one successful `PoolStream::load` did, variant by variant: an
/// independent stream keeps its samples and peels nothing; a player advances
/// per `player_loaded`.
pub open spec fn member_loaded<S: TrackSource>(
    m0: PoolStream<S>,
    m1: PoolStream<S>,
    ts: Seq<InnerStream>,
) -> bool {
    match (m0, m1) {
        (PoolStream::Inner(s0), PoolStream::Inner(s1)) => ts.len() == 0 && inner_loaded(s0, s1),
        (PoolStream::Player(p0), PoolStream::Player(p1)) => player_loaded(p0, p1, ts),
        _ => false,
    }
}

/// A member of the mixer's pool: a player, or an independent stream such as
/// a peeled tail.
pub enum PoolStream<S: TrackSource> {
    /// An independent stream, typically a tail peeled off a track.
    Inner(InnerStream),
    /// A player sequencing a source's tracks.
    Player(Player<S>),
}

impl<S: TrackSource> PoolStream<S> {
    /// Well-formedness of the member.
    pub open spec fn wf(self) -> bool {
        match self {
            PoolStream::Inner(s) => s.wf(),
            PoolStream::Player(p) => p.wf(),
        }
    }

    /// The samples the member exposes right now.
    pub open spec fn buffered(self) -> Seq<Sample> {
        match self {
            PoolStream::Inner(s) => s.buffered(),
            PoolStream::Player(p) => p.buffered(),
        }
    }

    /// How many frames the member exposes right now.
    pub open spec fn max_read_spec(self) -> nat {
        match self {
            PoolStream::Inner(s) => s.buffered().len(),
            PoolStream::Player(p) => p.max_read_spec(),
        }
    }

    /// Whether the member will never produce another frame.
    pub open spec fn is_eos_spec(self) -> bool {
        match self {
            PoolStream::Inner(s) => s.remaining().len() == 0,
            PoolStream::Player(p) => p.is_eos_spec(),
        }
    }

    /// A member with readable frames is not finished.
    proof fn lemma_readable_not_eos(self)
        ensures
            self.max_read_spec() > 0 ==> !self.is_eos_spec(),
    {
    }

    /// True iff no further frames will ever be produced.
    pub fn is_eos(&self) -> (r: bool)
        requires
            self.wf(),
        ensures
            r == self.is_eos_spec(),
    {
        match self {
            PoolStream::Inner(s) => s.is_eos(),
            PoolStream::Player(p) => p.is_eos(),
        }
    }

    /// How many frames can be read right now, without further decode work.
    pub fn max_read(&self) -> (r: usize)
        requires
            self.wf(),
        ensures
            r == self.max_read_spec(),
    {
        match self {
            PoolStream::Inner(s) => s.max_read(),
            PoolStream::Player(p) => p.max_read(),
        }
    }

    /// Accumulates exactly `buf.len()` frames onto the caller's buffer.
    pub fn read_add(&mut self, buf: &mut Vec<Sample>)
        requires
            old(self).wf(),
            old(buf)@.len() <= old(self).max_read_spec(),
        ensures
            final(self).wf(),
            final(buf)@.len() == old(buf)@.len(),
            forall|i: int|
                0 <= i < old(buf)@.len() ==> final(buf)@[i] == wrap_add(
                    old(buf)@[i],
                    old(self).buffered()[i],
                ),
            final(self).buffered() == old(self).buffered().skip(old(buf)@.len() as int),
    {
        match self {
            PoolStream::Inner(s) => s.read_add(buf),
            PoolStream::Player(p) => p.read_add(buf),
        }
    }

    /// One step of buffering work; afterwards the member is readable or
    /// finished, and any returned tails are live streams.
    pub fn load(&mut self) -> (r: Result<Vec<InnerStream>, Error>)
        requires
            old(self).wf(),
        ensures
            final(self).wf(),
            r matches Ok(tails) ==> {
                &&& member_loaded(*old(self), *final(self), tails@)
                &&& final(self).max_read_spec() > 0 || final(self).is_eos_spec()
                &&& forall|i: int|
                    0 <= i < tails@.len() ==> (#[trigger] tails@[i]).wf()
                        && tails@[i].remaining().len() > 0
            },
            old(self).max_read_spec() > 0 ==> (r matches Ok(tails) && tails@.len() == 0)
                && *final(self) == *old(self),
            r is Err ==> final(self).is_eos_spec() && can_fail(*old(self)),
            r matches Err(e) ==> member_may_report(*old(self), e),
            !can_fail(*old(self)) ==> r is Ok,
    {
        match self {
            PoolStream::Inner(s) => {
                let r = s.load();
                r
            },
            PoolStream::Player(p) => p.load(),
        }
    }
}

/// The step a mixing fold takes for one member: accumulate that member's
/// sample at position `j`, wrapping.
pub open spec fn mix_step<S: TrackSource>(j: int) -> spec_fn(Sample, PoolStream<S>) -> Sample {
    |acc: Sample, m: PoolStream<S>| wrap_add(acc, m.buffered()[j])
}

/// What the members of a pool together contribute at buffer position `j`:
/// their exposed samples at `j`, accumulated with wrapping addition.
pub open spec fn pool_sum<S: TrackSource>(members: Seq<PoolStream<S>>, j: int) -> Sample {
    members.fold_left(0 as Sample, mix_step::<S>(j))
}

/// Accumulating two samples in either order lands on the same value.
proof fn lemma_wrap_add_exchange(v: Sample, a: Sample, b: Sample)
    ensures
        wrap_add(wrap_add(v, a), b) == wrap_add(wrap_add(v, b), a),
{
}

/// One more member extends the pool's contribution by that member's sample.
proof fn lemma_pool_sum_step<S: TrackSource>(members: Seq<PoolStream<S>>, i: int, j: int)
    requires
        0 <= i < members.len(),
    ensures
        pool_sum(members.take(i + 1), j) == wrap_add(
            pool_sum(members.take(i), j),
            members[i].buffered()[j],
        ),
{
    assert(members.take(i + 1).drop_last() =~= members.take(i));
    assert(members.take(i + 1).last() == members[i]);
}

/// Mixing is order-independent: two pools holding the same members, in any
/// order, contribute identically at every buffer position — accumulation of
/// samples is commutative, even with wrapping.
pub proof fn lemma_mix_order_independent<S: TrackSource>(
    pool_a: Seq<PoolStream<S>>,
    pool_b: Seq<PoolStream<S>>,
    j: int,
)
    requires
        pool_a.to_multiset() == pool_b.to_multiset(),
    ensures
        pool_sum(pool_a, j) == pool_sum(pool_b, j),
{
    let f = mix_step::<S>(j);
    assert forall|x: PoolStream<S>, y: PoolStream<S>, v: Sample| #[trigger] f(f(v, x), y) == f(
        f(v, y),
        x,
    ) by {
        lemma_wrap_add_exchange(v, x.buffered()[j], y.buffered()[j]);
    }
    assert(commutative_foldl(f));
    lemma_fold_left_permutation(pool_a, pool_b, f, 0 as Sample);
}

/// The pool members a collection of peeled tails becomes.
pub open spec fn as_members<S: TrackSource>(tails: Seq<InnerStream>) -> Seq<PoolStream<S>> {
    tails.map_values(|t: InnerStream| PoolStream::<S>::Inner(t))
}

/// What one scanned member contributed, given the survivors, collected
/// tails and queued failures before it: it survived (readable, or loaded
/// and not finished) and joined the survivors; or it finished and was
/// dropped, its tails still collected; or it was an unreadable member that
/// can fail, failed, was dropped, and its failure was queued.
pub open spec fn scan_outcome<S: TrackSource>(
    m0: PoolStream<S>,
    sp: Seq<PoolStream<S>>,
    cp: Seq<InnerStream>,
    ep: Seq<Error>,
    s1: Seq<PoolStream<S>>,
    c1: Seq<InnerStream>,
    e1: Seq<Error>,
) -> bool {
    ||| (exists|m1: PoolStream<S>, ts: Seq<InnerStream>|
        #![trigger member_loaded(m0, m1, ts)]
        member_loaded(m0, m1, ts) && !m1.is_eos_spec() && s1 == sp.push(m1) && c1 == cp + ts && e1
            == ep)
    ||| (exists|m1: PoolStream<S>, ts: Seq<InnerStream>|
        #![trigger member_loaded(m0, m1, ts)]
        member_loaded(m0, m1, ts) && m1.is_eos_spec() && s1 == sp && c1 == cp + ts && e1 == ep)
    ||| (m0.max_read_spec() == 0 && can_fail(m0) && s1 == sp && c1 == cp && (exists|e: Error|
        #![trigger ep.push(e)]
        e1 == ep.push(e) && member_may_report(m0, e)))
}

/// How one scan relates the pool before it to the survivors, the collected
/// tails and the queued failures after it: member by member, in order.
pub open spec fn scan_rel<S: TrackSource>(
    pool0: Seq<PoolStream<S>>,
    survivors: Seq<PoolStream<S>>,
    collected: Seq<InnerStream>,
    errors: Seq<Error>,
) -> bool
    decreases pool0.len(),
{
    if pool0.len() == 0 {
        survivors.len() == 0 && collected.len() == 0 && errors.len() == 0
    } else {
        exists|sp: Seq<PoolStream<S>>, cp: Seq<InnerStream>, ep: Seq<Error>|
            #![trigger scan_outcome(pool0.last(), sp, cp, ep, survivors, collected, errors)]
            scan_rel(pool0.drop_last(), sp, cp, ep) && scan_outcome(
                pool0.last(),
                sp,
                cp,
                ep,
                survivors,
                collected,
                errors,
            )
    }
}

/// How one clean scan rebuilt the pool: for some scan of the old members,
/// the new pool holds, order aside, exactly the surviving members and the
/// collected tails, and the queue holds exactly the scan's failures.
pub open spec fn pool_rebuilt<S: TrackSource>(
    pool0: Seq<PoolStream<S>>,
    pool1: Seq<PoolStream<S>>,
    errors: Seq<Error>,
) -> bool {
    exists|survivors: Seq<PoolStream<S>>, collected: Seq<InnerStream>|
        #![trigger scan_rel(pool0, survivors, collected, errors)]
        scan_rel(pool0, survivors, collected, errors) && pool1.to_multiset()
            == survivors.to_multiset().add(as_members::<S>(collected).to_multiset())
}

proof fn lemma_pool_rebuilt_intro<S: TrackSource>(
    pool0: Seq<PoolStream<S>>,
    pool1: Seq<PoolStream<S>>,
    errors: Seq<Error>,
    survivors: Seq<PoolStream<S>>,
    collected: Seq<InnerStream>,
)
    requires
        scan_rel(pool0, survivors, collected, errors),
        pool1.to_multiset() == survivors.to_multiset().add(
            as_members::<S>(collected).to_multiset(),
        ),
    ensures
        pool_rebuilt(pool0, pool1, errors),
{
}

/// One more scanned member extends the scan relation by its outcome.
proof fn lemma_scan_rel_step<S: TrackSource>(
    pool0: Seq<PoolStream<S>>,
    sp: Seq<PoolStream<S>>,
    cp: Seq<InnerStream>,
    ep: Seq<Error>,
    s1: Seq<PoolStream<S>>,
    c1: Seq<InnerStream>,
    e1: Seq<Error>,
)
    requires
        pool0.len() > 0,
        scan_rel(pool0.drop_last(), sp, cp, ep),
        scan_outcome(pool0.last(), sp, cp, ep, s1, c1, e1),
    ensures
        scan_rel(pool0, s1, c1, e1),
{
    reveal_with_fuel(scan_rel, 2);
    assert(scan_rel(pool0.drop_last(), sp, cp, ep) && scan_outcome(
        pool0.last(),
        sp,
        cp,
        ep,
        s1,
        c1,
        e1,
    ));
}

/// A readable member needs no work: it counts as loaded with itself and
/// nothing peeled, and it is not finished.
proof fn lemma_readable_member_loaded<S: TrackSource>(m: PoolStream<S>)
    requires
        m.wf(),
        m.max_read_spec() > 0,
    ensures
        member_loaded(m, m, Seq::<InnerStream>::empty()),
        !m.is_eos_spec(),
{
    match m {
        PoolStream::Inner(_) => {},
        PoolStream::Player(p) => {
            if p.source_spec().logs_tracks() {
                let consumed = p.source_spec().handed().skip(
                    p.source_spec().handed().len() as int,
                );
                assert(consumed =~= Seq::<Track>::empty());
                let run = seq![p.current()] + consumed;
                assert(run.first() == p.current());
                assert(run.drop_first() =~= Seq::<Track>::empty());
                // a readable track's countdown has not hit zero, so nothing peels
                assert(peel_of(p.current()) == Seq::<Seq<crate::stream::Sample>>::empty());
                assert(peels_of(run) == peel_of(p.current()) + peels_of(run.drop_first()));
                assert(peels_of(Seq::<Track>::empty()) == Seq::<
                    Seq<crate::stream::Sample>,
                >::empty());
                assert(tail_remainings(Seq::<InnerStream>::empty()) =~= peels_of(run));
                assert(p.source_spec().handed().take(p.source_spec().handed().len() as int)
                    =~= p.source_spec().handed());
            }
        },
    }
}

/// Removing one element by swapping the last into its place drops exactly
/// that element from the sequence's multiset.
proof fn lemma_swap_remove_multiset<A>(s: Seq<A>, i: int)
    requires
        0 <= i < s.len(),
    ensures
        s.update(i, s.last()).drop_last().to_multiset() == s.to_multiset().remove(s[i]),
{
    broadcast use vstd::multiset::group_multiset_axioms;

    if i == s.len() - 1 {
        assert(s.update(i, s.last()) =~= s);
        assert(s.drop_last() =~= s.remove(i));
        to_multiset_remove(s, i);
    } else {
        let u = s.remove(i).drop_last();
        assert(s.update(i, s.last()).drop_last() =~= u.insert(i, s.last()));
        assert(s.remove(i) =~= u.push(s.last()));
        to_multiset_insert(u, i, s.last());
        to_multiset_build(u, s.last());
        to_multiset_remove(s, i);
        assert(u.insert(i, s.last()).to_multiset() =~= s.to_multiset().remove(s[i]));
    }
}

/// A scan over members none of which can fail queues no failures: the
/// mixer's error queue can hold only failures its members really reported.
pub proof fn lemma_unfailing_scan_queues_nothing<S: TrackSource>(
    pool0: Seq<PoolStream<S>>,
    survivors: Seq<PoolStream<S>>,
    collected: Seq<InnerStream>,
    errors: Seq<Error>,
)
    requires
        scan_rel(pool0, survivors, collected, errors),
        forall|i: int| 0 <= i < pool0.len() ==> !can_fail(#[trigger] pool0[i]),
    ensures
        errors.len() == 0,
    decreases pool0.len(),
{
    reveal_with_fuel(scan_rel, 2);
    if pool0.len() > 0 {
        let (sp, cp, ep) = choose|
            sp: Seq<PoolStream<S>>,
            cp: Seq<InnerStream>,
            ep: Seq<Error>,
        |
            #![trigger scan_outcome(pool0.last(), sp, cp, ep, survivors, collected, errors)]
            scan_rel(pool0.drop_last(), sp, cp, ep) && scan_outcome(
                pool0.last(),
                sp,
                cp,
                ep,
                survivors,
                collected,
                errors,
            );
        assert(forall|i: int|
            0 <= i < pool0.drop_last().len() ==> !can_fail(#[trigger] pool0.drop_last()[i]));
        lemma_unfailing_scan_queues_nothing(pool0.drop_last(), sp, cp, ep);
        assert(!can_fail(pool0.last()));
    }
}

/// An empty sequence has the empty multiset of elements.
proof fn lemma_to_multiset_empty<A>()
    ensures
        Seq::<A>::empty().to_multiset() =~= Multiset::<A>::empty(),
{
    broadcast use group_to_multiset_ensures;

    vstd::multiset::lemma_multiset_empty_len(Seq::<A>::empty().to_multiset());
}

/// Whether `m` occurs in a list of indices.
spec fn idx_in(es: Seq<usize>, m: int) -> bool {
    exists|k: int| 0 <= k < es.len() && es[k] == m
}

/// The mixer: the pool of advancing streams plus the queue of failures not
/// yet surfaced.
pub struct Mixer<S: TrackSource> {
    streams: Vec<PoolStream<S>>,
    errors: Vec<Error>,
}

impl<S: TrackSource> Mixer<S> {
    /// The pool members, in their current order.
    pub closed spec fn pool(self) -> Seq<PoolStream<S>> {
        self.streams@
    }

    /// The failures found by earlier scans and not yet surfaced.
    pub closed spec fn queued_errors(self) -> Seq<Error> {
        self.errors@
    }

    /// Every member is well formed.
    pub open spec fn wf(self) -> bool {
        forall|i: int| 0 <= i < self.pool().len() ==> (#[trigger] self.pool()[i]).wf()
    }

    /// A mixer over an initial pool, with no failures queued.
    pub fn new(streams: Vec<PoolStream<S>>) -> (r: Mixer<S>)
        requires
            forall|i: int| 0 <= i < streams@.len() ==> (#[trigger] streams@[i]).wf(),
        ensures
            r.wf(),
            r.pool() == streams@,
            r.queued_errors().len() == 0,
    {
        Mixer { streams, errors: Vec::new() }
    }

    /// How many members the pool holds right now.
    pub fn member_count(&self) -> (r: usize)
        ensures
            r == self.pool().len(),
    {
        self.streams.len()
    }

    /// How many frames can be read right now: 0 when the pool is empty, and
    /// otherwise the minimum across the members, since every member must
    /// advance by the same frame count each cycle.
    pub fn max_read(&self) -> (r: usize)
        requires
            self.wf(),
        ensures
            self.pool().len() == 0 ==> r == 0,
            forall|i: int|
                0 <= i < self.pool().len() ==> r <= (#[trigger] self.pool()[i]).max_read_spec(),
            self.pool().len() > 0 ==> exists|i: int|
                0 <= i < self.pool().len() && r == (#[trigger] self.pool()[i]).max_read_spec(),
    {
        if self.streams.len() == 0 {
            return 0;
        }
        let mut m = self.streams[0].max_read();
        let mut i: usize = 1;
        while i < self.streams.len()
            invariant
                self.wf(),
                1 <= i <= self.pool().len(),
                forall|k: int|
                    0 <= k < i ==> m <= (#[trigger] self.pool()[k]).max_read_spec(),
                exists|k: int|
                    0 <= k < i && m == (#[trigger] self.pool()[k]).max_read_spec(),
            decreases self.pool().len() - i,
        {
            let v = self.streams[i].max_read();
            if v < m {
                m = v;
            }
            i += 1;
        }
        m
    }

    /// True iff the pool is empty or every member is finished for good.
    pub fn is_eos(&self) -> (r: bool)
        requires
            self.wf(),
        ensures
            r == (self.pool().len() == 0 || (forall|i: int|
                0 <= i < self.pool().len() ==> (#[trigger] self.pool()[i]).is_eos_spec())),
    {
        let mut i: usize = 0;
        while i < self.streams.len()
            invariant
                self.wf(),
                0 <= i <= self.pool().len(),
                forall|k: int| 0 <= k < i ==> (#[trigger] self.pool()[k]).is_eos_spec(),
            decreases self.pool().len() - i,
        {
            if !self.streams[i].is_eos() {
                return false;
            }
            i += 1;
        }
        true
    }

    /// Zeroes the caller's buffer, then accumulates every member's exposed
    /// samples into it in lock step: afterwards each position holds exactly
    /// the pool's wrapped sample sum there.  Scaling the mix down by the
    /// member count is the caller's policy.
    pub fn read_add(&mut self, buf: &mut Vec<Sample>)
        requires
            old(self).wf(),
            forall|i: int|
                0 <= i < old(self).pool().len() ==> old(buf)@.len() <= (#[trigger] old(
                    self,
                ).pool()[i]).max_read_spec(),
            old(self).pool().len() == 0 ==> old(buf)@.len() == 0,
        ensures
            final(self).wf(),
            final(buf)@.len() == old(buf)@.len(),
            forall|j: int|
                0 <= j < old(buf)@.len() ==> final(buf)@[j] == pool_sum(old(self).pool(), j),
            final(self).pool().len() == old(self).pool().len(),
            final(self).queued_errors() == old(self).queued_errors(),
    {
        let ghost pool0 = old(self).pool();
        let n = buf.len();
        let mut j: usize = 0;
        while j < n
            invariant
                n == buf@.len(),
                0 <= j <= n,
                forall|k: int| 0 <= k < j ==> buf@[k] == 0,
            decreases n - j,
        {
            buf.set(j, 0);
            j += 1;
        }
        let mut i: usize = 0;
        proof {
            assert forall|k: int| 0 <= k < n implies buf@[k] == pool_sum(pool0.take(0), k) by {
                assert(pool0.take(0) =~= Seq::<PoolStream<S>>::empty());
            }
        }
        while i < self.streams.len()
            invariant
                self.wf(),
                0 <= i <= self.pool().len(),
                self.pool().len() == pool0.len(),
                self.queued_errors() == old(self).queued_errors(),
                n == buf@.len(),
                forall|m: int| i <= m < pool0.len() ==> self.pool()[m] == pool0[m],
                forall|m: int|
                    0 <= m < pool0.len() ==> n <= (#[trigger] pool0[m]).max_read_spec(),
                forall|k: int| 0 <= k < n ==> buf@[k] == pool_sum(pool0.take(i as int), k),
            decreases self.pool().len() - i,
        {
            let ghost i0 = i as int;
            proof {
                assert(n <= pool0[i as int].max_read_spec());
            }
            let m = vstd::std_specs::vec::vec_index_mut(&mut self.streams, i);
            proof {
                assert(*m == pool0[i0]);
            }
            m.read_add(buf);
            i += 1;
            proof {
                assert forall|k: int| 0 <= k < n implies buf@[k] == pool_sum(
                    pool0.take(i as int),
                    k,
                ) by {
                    lemma_pool_sum_step(pool0, i0, k);
                }
            }
        }
        proof {
            assert(pool0.take(pool0.len() as int) =~= pool0);
        }
    }

    /// Surfaces one queued failure if any is waiting; otherwise scans every
    /// member with nothing readable: loads it, collects the tails it peels,
    /// queues its failure if it failed, drops it if it failed or finished,
    /// and finally appends the collected tails to the pool.  After a clean
    /// scan the pool holds exactly the surviving members and the collected
    /// tails (order aside — removal swaps with the last member), the queued
    /// failures are exactly the scan's, and no member of the pool is
    /// finished.
    pub fn load(&mut self) -> (r: Result<(), Error>)
        requires
            old(self).wf(),
        ensures
            final(self).wf(),
            old(self).queued_errors().len() > 0 ==> r == Err::<(), Error>(
                old(self).queued_errors()[0],
            ) && final(self).pool() == old(self).pool() && final(self).queued_errors() == old(
                self,
            ).queued_errors().drop_first(),
            old(self).queued_errors().len() == 0 ==> r is Ok && (forall|i: int|
                0 <= i < final(self).pool().len() ==> !(#[trigger] final(self).pool()[i]).is_eos_spec())
                && pool_rebuilt(old(self).pool(), final(self).pool(), final(self).queued_errors()),
    {
        if self.errors.len() > 0 {
            let e = self.errors.remove(0);
            proof {
                assert(self.errors@ =~= old(self).queued_errors().drop_first());
                assert(self.pool() == old(self).pool());
            }
            return Err(e);
        }
        let ghost pool0 = self.streams@;
        let mut tails: Vec<InnerStream> = Vec::new();
        let mut empties: Vec<usize> = Vec::new();
        let ghost mut survivors: Seq<PoolStream<S>> = Seq::empty();
        let ghost mut doomed: Seq<PoolStream<S>> = Seq::empty();
        let mut i: usize = 0;
        proof {
            broadcast use vstd::multiset::group_multiset_axioms;

            lemma_to_multiset_empty::<PoolStream<S>>();
            assert(self.streams@.take(0) =~= Seq::<PoolStream<S>>::empty());
            assert(self.streams@.take(0).to_multiset() =~= survivors.to_multiset().add(
                doomed.to_multiset(),
            ));
        }
        while i < self.streams.len()
            invariant
                self.wf(),
                0 <= i <= self.pool().len(),
                self.pool().len() == pool0.len(),
                forall|m: int| i <= m < pool0.len() ==> self.pool()[m] == pool0[m],
                forall|a: int, b: int|
                    0 <= a < b < empties@.len() ==> (#[trigger] empties@[a]) < (
                    #[trigger] empties@[b]),
                forall|k: int| 0 <= k < empties@.len() ==> (#[trigger] empties@[k]) < i,
                forall|m: int|
                    0 <= m < i ==> idx_in(empties@, m) || !(#[trigger] self.pool()[m]).is_eos_spec(),
                forall|k: int|
                    0 <= k < tails@.len() ==> (#[trigger] tails@[k]).wf()
                        && tails@[k].remaining().len() > 0,
                scan_rel(pool0.take(i as int), survivors, tails@, self.errors@),
                self.pool().take(i as int).to_multiset() == survivors.to_multiset().add(
                    doomed.to_multiset(),
                ),
                doomed.len() == empties@.len(),
                forall|k: int|
                    0 <= k < empties@.len() ==> self.pool()[empties@[k] as int] == doomed[k],
            decreases self.pool().len() - i,
        {
            let ghost i0 = i as int;
            let ghost pool_entry = self.streams@;
            let ghost empties0 = empties@;
            let ghost sprev = survivors;
            let ghost cprev = tails@;
            let ghost eprev = self.errors@;
            let ghost doomed0 = doomed;
            let needs = self.streams[i].max_read() == 0;
            if needs {
                let m = vstd::std_specs::vec::vec_index_mut(&mut self.streams, i);
                proof {
                    assert(*m == pool0[i0]);
                }
                match m.load() {
                    Ok(mut ts) => {
                        let ghost tsv = ts@;
                        tails.append(&mut ts);
                        let eos = self.streams[i].is_eos();
                        let ghost m1 = self.streams@[i0];
                        if eos {
                            empties.push(i);
                            proof {
                                doomed = doomed.push(m1);
                                assert(member_loaded(pool0[i0], m1, tsv) && m1.is_eos_spec()
                                    && survivors == sprev && tails@ == cprev + tsv && self.errors@
                                    == eprev);
                            }
                        } else {
                            proof {
                                survivors = survivors.push(m1);
                                assert(member_loaded(pool0[i0], m1, tsv) && !m1.is_eos_spec()
                                    && survivors == sprev.push(m1) && tails@ == cprev + tsv
                                    && self.errors@ == eprev);
                            }
                        }
                        proof {
                            assert(scan_outcome(
                                pool0[i0],
                                sprev,
                                cprev,
                                eprev,
                                survivors,
                                tails@,
                                self.errors@,
                            ));
                        }
                    },
                    Err(e) => {
                        let ghost e0 = e;
                        self.errors.push(e);
                        empties.push(i);
                        proof {
                            let m1 = self.streams@[i0];
                            doomed = doomed.push(m1);
                            assert(member_may_report(pool0[i0], e0));
                            assert(pool0[i0].max_read_spec() == 0 && can_fail(pool0[i0])
                                && survivors == sprev && tails@ == cprev && (exists|e2: Error|
                                self.errors@ == eprev.push(e2) && member_may_report(
                                    pool0[i0],
                                    e2,
                                )));
                            assert(scan_outcome(
                                pool0[i0],
                                sprev,
                                cprev,
                                eprev,
                                survivors,
                                tails@,
                                self.errors@,
                            ));
                        }
                    },
                }
            } else {
                proof {
                    self.pool()[i0].lemma_readable_not_eos();
                    lemma_readable_member_loaded(self.pool()[i0]);
                    survivors = survivors.push(self.pool()[i0]);
                    assert(member_loaded(
                        pool0[i0],
                        pool0[i0],
                        Seq::<InnerStream>::empty(),
                    ) && !pool0[i0].is_eos_spec() && survivors == sprev.push(pool0[i0]) && tails@
                        =~= cprev + Seq::<InnerStream>::empty() && self.errors@ == eprev);
                    assert(scan_outcome(
                        pool0[i0],
                        sprev,
                        cprev,
                        eprev,
                        survivors,
                        tails@,
                        self.errors@,
                    ));
                }
            }
            i += 1;
            proof {
                broadcast use vstd::multiset::group_multiset_axioms;

                let m1 = self.streams@[i0];
                // the scan relation extends by this member's outcome
                assert(pool0.take(i0 + 1).drop_last() =~= pool0.take(i0));
                assert(pool0.take(i0 + 1).last() == pool0[i0]);
                assert(scan_rel(pool0.take(i0 + 1).drop_last(), sprev, cprev, eprev));
                assert(scan_outcome(
                    pool0.take(i0 + 1).last(),
                    sprev,
                    cprev,
                    eprev,
                    survivors,
                    tails@,
                    self.errors@,
                ));
                lemma_scan_rel_step(
                    pool0.take(i0 + 1),
                    sprev,
                    cprev,
                    eprev,
                    survivors,
                    tails@,
                    self.errors@,
                );
                assert(scan_rel(pool0.take(i0 + 1), survivors, tails@, self.errors@));
                // the processed prefix partitions into survivors and doomed
                assert(self.pool().take(i0) =~= pool_entry.take(i0));
                assert(pool_entry.take(i0).to_multiset() == sprev.to_multiset().add(
                    doomed0.to_multiset(),
                ));
                assert(self.pool().take(i0 + 1) =~= self.pool().take(i0).push(m1));
                to_multiset_build(self.pool().take(i0), m1);
                if survivors.len() > sprev.len() {
                    to_multiset_build(sprev, m1);
                    assert(self.pool().take(i0 + 1).to_multiset() =~= survivors.to_multiset().add(
                        doomed.to_multiset(),
                    ));
                } else {
                    to_multiset_build(doomed0, m1);
                    assert(self.pool().take(i0 + 1).to_multiset() =~= survivors.to_multiset().add(
                        doomed.to_multiset(),
                    ));
                }
                assert forall|m: int|
                    0 <= m < i implies idx_in(empties@, m) || !(#[trigger] self.pool()[
                m]).is_eos_spec() by {
                    if idx_in(empties0, m) {
                        let k = choose|k: int| 0 <= k < empties0.len() && empties0[k] == m;
                        assert(empties@[k] == m);
                    } else if empties@.len() > empties0.len() {
                        assert(empties@[empties@.len() - 1] == empties@.last());
                    }
                }
            }
        }
        proof {
            assert(pool0.take(pool0.len() as int) =~= pool0);
            assert(self.pool().take(pool0.len() as int) =~= self.pool());
            assert(doomed.take(empties@.len() as int) =~= doomed);
        }
        let ghost tails1 = tails@;
        let ghost errs1 = self.errors@;
        while empties.len() > 0
            invariant
                self.wf(),
                self.errors@ == errs1,
                forall|a: int, b: int|
                    0 <= a < b < empties@.len() ==> (#[trigger] empties@[a]) < (
                    #[trigger] empties@[b]),
                forall|k: int|
                    0 <= k < empties@.len() ==> (#[trigger] empties@[k]) < self.pool().len(),
                forall|m: int|
                    0 <= m < self.pool().len() ==> idx_in(empties@, m) || !(#[trigger] self.pool()[
                m]).is_eos_spec(),
                forall|k: int|
                    0 <= k < tails@.len() ==> (#[trigger] tails@[k]).wf()
                        && tails@[k].remaining().len() > 0,
                empties@.len() <= doomed.len(),
                forall|k: int|
                    0 <= k < empties@.len() ==> self.pool()[empties@[k] as int] == doomed[k],
                self.pool().to_multiset() == survivors.to_multiset().add(
                    doomed.take(empties@.len() as int).to_multiset(),
                ),
            decreases empties@.len(),
        {
            let ghost empties0 = empties@;
            let ghost poolb = self.pool();
            let idx = empties.pop().unwrap();
            let ghost el = self.streams@[idx as int];
            let _removed = self.streams.swap_remove(idx);
            proof {
                broadcast use vstd::multiset::group_multiset_axioms;

                assert(empties@ =~= empties0.drop_last());
                assert(idx == empties0.last());
                assert(el == doomed[empties0.len() - 1]);
                lemma_swap_remove_multiset(poolb, idx as int);
                assert(self.pool().to_multiset() == poolb.to_multiset().remove(el));
                assert(doomed.take(empties0.len() as int) =~= doomed.take(
                    empties0.len() - 1,
                ).push(el));
                to_multiset_build(doomed.take(empties0.len() - 1), el);
                assert(self.pool().to_multiset() =~= survivors.to_multiset().add(
                    doomed.take(empties@.len() as int).to_multiset(),
                ));
                assert forall|m: int|
                    0 <= m < self.pool().len() implies idx_in(empties@, m) || !(
                #[trigger] self.pool()[m]).is_eos_spec() by {
                    if m < idx {
                        assert(self.pool()[m] == poolb[m]);
                        if idx_in(empties0, m) {
                            let k = choose|k: int| 0 <= k < empties0.len() && empties0[k] == m;
                            assert(empties0[k] < empties0.last());
                            assert(empties@[k] == m);
                        }
                    } else if m == idx {
                        // the element moved into the hole came from the end,
                        // past every pruned index, so it was not finished
                        assert(self.pool()[m] == poolb[poolb.len() - 1]);
                        if idx_in(empties0, poolb.len() - 1) {
                            let k = choose|k: int|
                                0 <= k < empties0.len() && empties0[k] == poolb.len() - 1;
                            if k < empties0.len() - 1 {
                                assert(empties0[k] < empties0.last());
                            }
                            assert(false);
                        }
                        assert(!poolb[poolb.len() - 1].is_eos_spec());
                    } else {
                        // members past the hole are untouched, and none of
                        // them was marked for pruning
                        assert(self.pool()[m] == poolb[m]);
                        if idx_in(empties0, m) {
                            let k = choose|k: int| 0 <= k < empties0.len() && empties0[k] == m;
                            if k < empties0.len() - 1 {
                                assert(empties0[k] < empties0.last());
                            }
                            assert(false);
                        }
                        assert(!poolb[m].is_eos_spec());
                    }
                }
                assert forall|k: int|
                    0 <= k < empties@.len() implies self.pool()[empties@[k] as int] == doomed[
                k] by {
                    assert(empties0[k] < empties0.last());
                    assert(poolb[empties0[k] as int] == doomed[k]);
                }
            }
        }
        proof {
            broadcast use vstd::multiset::group_multiset_axioms;

            lemma_to_multiset_empty::<PoolStream<S>>();
            assert(doomed.take(0) =~= Seq::<PoolStream<S>>::empty());
            assert(tails1.take(0) =~= Seq::<InnerStream>::empty());
            assert(as_members::<S>(tails1.take(0)) =~= Seq::<PoolStream<S>>::empty());
            assert(self.pool().to_multiset() =~= survivors.to_multiset().add(
                as_members::<S>(tails1.take(0)).to_multiset(),
            ));
        }
        let total = tails.len();
        let mut rest = tails;
        let mut k: usize = 0;
        while rest.len() > 0
            invariant
                self.wf(),
                self.errors@ == errs1,
                total == tails1.len(),
                0 <= k <= tails1.len(),
                k + rest@.len() == tails1.len(),
                rest@ =~= tails1.skip(k as int),
                forall|m: int|
                    0 <= m < self.pool().len() ==> !(#[trigger] self.pool()[m]).is_eos_spec(),
                forall|j: int|
                    0 <= j < tails1.len() ==> (#[trigger] tails1[j]).wf()
                        && tails1[j].remaining().len() > 0,
                self.pool().to_multiset() == survivors.to_multiset().add(
                    as_members::<S>(tails1.take(k as int)).to_multiset(),
                ),
            decreases rest@.len(),
        {
            let ghost k0 = k as int;
            let tail = rest.remove(0);
            proof {
                assert(tail == tails1[k0]);
            }
            let ghost t0 = tail;
            let ghost pool_before = self.pool();
            self.streams.push(PoolStream::Inner(tail));
            k += 1;
            proof {
                broadcast use vstd::multiset::group_multiset_axioms;

                assert(rest@ =~= tails1.skip(k as int));
                assert(self.pool() =~= pool_before.push(PoolStream::<S>::Inner(t0)));
                assert(t0.wf() && t0.remaining().len() > 0);
                assert forall|m: int|
                    0 <= m < self.pool().len() implies !(#[trigger] self.pool()[m]).is_eos_spec()
                        && self.pool()[m].wf() by {
                    if m < pool_before.len() {
                        assert(self.pool()[m] == pool_before[m]);
                        assert(!pool_before[m].is_eos_spec() && pool_before[m].wf());
                    } else {
                        assert(self.pool()[m] == PoolStream::<S>::Inner(t0));
                    }
                }
                to_multiset_build(pool_before, PoolStream::<S>::Inner(t0));
                assert(as_members::<S>(tails1.take(k0 + 1)) =~= as_members::<S>(
                    tails1.take(k0),
                ).push(PoolStream::<S>::Inner(t0)));
                to_multiset_build(as_members::<S>(tails1.take(k0)), PoolStream::<S>::Inner(t0));
                assert(self.pool().to_multiset() =~= survivors.to_multiset().add(
                    as_members::<S>(tails1.take(k as int)).to_multiset(),
                ));
            }
        }
        proof {
            assert(tails1.take(tails1.len() as int) =~= tails1);
            lemma_pool_rebuilt_intro(
                old(self).pool(),
                self.pool(),
                self.errors@,
                survivors,
                tails1,
            );
        }
        Ok(())
    }
}

} // verus!
