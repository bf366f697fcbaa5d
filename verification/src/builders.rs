//! Builders assembling one player per source and the mixer over them.
//!
//! Classification of file names into (tail, head) labels and the probing of
//! a clip's audio format are the work of outside collaborators; the builders
//! take the classified labels and probed formats as plain values, hold every
//! clip and every source to one audio format, and assemble the digraph and
//! the pool.

use vstd::prelude::*;
use crate::digraph::{arrow_effect, finalized, Digraph, DigraphBuilder};
use crate::error::Error;
use crate::mixer::{Mixer, PoolStream};
use crate::player::{Player, TrackSource};
use crate::stream::InnerStream;

verus! {

/// The audio format every clip of a mixer must share: channel count and
/// sample rate.
pub type VoiceConfig = (u8, u32);

/// Collects one source directory's classified clips into a digraph, holding
/// every clip to one audio format.
pub struct PlayerBuilder {
    digraph_builder: DigraphBuilder,
    voice_config: Option<VoiceConfig>,
}

impl PlayerBuilder {
    /// The digraph assembled so far.
    pub closed spec fn graph_builder(self) -> DigraphBuilder {
        self.digraph_builder
    }

    /// The audio format fixed by the first clip, if any clip arrived yet.
    pub closed spec fn voice_config_spec(self) -> Option<VoiceConfig> {
        self.voice_config
    }

    /// Well-formedness of the digraph under construction.
    pub open spec fn wf(self) -> bool {
        self.graph_builder().wf()
    }

    /// A builder with no clips and no audio format fixed yet.
    pub fn new() -> (r: PlayerBuilder)
        ensures
            r.wf(),
            r.voice_config_spec() is None,
            r.graph_builder().entries().len() == 0,
            r.graph_builder().labels_view() == seq!["start"@],
    {
        PlayerBuilder { digraph_builder: DigraphBuilder::new(), voice_config: None }
    }

    /// Registers one classified clip: its labels and handle enter the
    /// digraph, provided its audio format agrees with the clips before it.
    /// The first clip fixes the format; a clip in a different format is
    /// rejected and changes nothing.
    pub fn path(
        &mut self,
        path: String,
        tail: String,
        head: String,
        file_voice_config: VoiceConfig,
    ) -> (r: Result<(), Error>)
        requires
            old(self).wf(),
        ensures
            final(self).wf(),
            old(self).voice_config_spec() is None ==> r is Ok && final(self).voice_config_spec()
                == Some(file_voice_config),
            old(self).voice_config_spec() matches Some(vc) ==> (vc == file_voice_config ==> r
                is Ok && final(self).voice_config_spec() == Some(vc)),
            old(self).voice_config_spec() matches Some(vc) ==> (vc != file_voice_config ==> r
                == Err::<(), Error>(Error::AudioFormat) && *final(self) == *old(self)),
            r is Ok ==> arrow_effect(
                old(self).graph_builder(),
                final(self).graph_builder(),
                tail@,
                head@,
                path@,
            ),
            r is Err ==> final(self).graph_builder() == old(self).graph_builder(),
    {
        match self.voice_config {
            None => {
                self.voice_config = Some(file_voice_config);
            },
            Some(vc) => {
                if !(vc.0 == file_voice_config.0 && vc.1 == file_voice_config.1) {
                    return Err(Error::AudioFormat);
                }
            },
        }
        let mut b = DigraphBuilder::new();
        core::mem::swap(&mut b, &mut self.digraph_builder);
        self.digraph_builder = b.arrow(tail, head, path);
        Ok(())
    }

    /// The audio format fixed so far, if any.
    pub fn get_voice_config(&self) -> (r: Option<VoiceConfig>)
        ensures
            r == self.voice_config_spec(),
    {
        self.voice_config
    }

    /// Finalizes the collected clips into their digraph.
    pub fn finish(self) -> (d: Digraph)
        requires
            self.wf(),
        ensures
            finalized(self.graph_builder(), d),
    {
        self.digraph_builder.into_digraph()
    }
}

/// Collects one player per source directory into the mixer's initial pool,
/// holding every source to one audio format.
pub struct MixerBuilder<S: TrackSource> {
    streams: Vec<PoolStream<S>>,
    voice_config: Option<VoiceConfig>,
}

impl<S: TrackSource> MixerBuilder<S> {
    /// The pool assembled so far.
    pub closed spec fn pool(self) -> Seq<PoolStream<S>> {
        self.streams@
    }

    /// The audio format fixed by the first source, if any arrived yet.
    pub closed spec fn voice_config_spec(self) -> Option<VoiceConfig> {
        self.voice_config
    }

    /// Every collected member is well formed.
    pub open spec fn wf(self) -> bool {
        forall|i: int| 0 <= i < self.pool().len() ==> (#[trigger] self.pool()[i]).wf()
    }

    /// A builder with no sources and no audio format fixed yet.
    pub fn new() -> (r: MixerBuilder<S>)
        ensures
            r.wf(),
            r.pool().len() == 0,
            r.voice_config_spec() is None,
    {
        MixerBuilder { streams: Vec::new(), voice_config: None }
    }

    /// Adds one source's player to the pool, along with any tails peeled
    /// while the player was built, provided the source's audio format agrees
    /// with the sources before it.  The first source fixes the format; a
    /// source in a different format is rejected and changes nothing.
    pub fn add_player(
        &mut self,
        player: Player<S>,
        tails: Vec<InnerStream>,
        dir_voice_config: Option<VoiceConfig>,
    ) -> (r: Result<(), Error>)
        requires
            old(self).wf(),
            player.wf(),
            forall|i: int| 0 <= i < tails@.len() ==> (#[trigger] tails@[i]).wf(),
        ensures
            final(self).wf(),
            old(self).voice_config_spec() is None ==> r is Ok && final(self).voice_config_spec()
                == dir_voice_config,
            old(self).voice_config_spec() matches Some(vc) ==> (dir_voice_config == Some(vc)
                ==> r is Ok && final(self).voice_config_spec() == Some(vc)),
            old(self).voice_config_spec() matches Some(vc) ==> (dir_voice_config != Some(vc)
                ==> r == Err::<(), Error>(Error::AudioFormat) && *final(self) == *old(self)),
            r is Ok ==> {
                &&& final(self).pool().len() == old(self).pool().len() + 1 + tails@.len()
                &&& (forall|k: int|
                    0 <= k < old(self).pool().len() ==> (#[trigger] final(self).pool()[k]) == old(
                        self,
                    ).pool()[k])
                &&& final(self).pool()[old(self).pool().len() as int]
                    == PoolStream::<S>::Player(player)
                &&& (forall|k: int|
                    0 <= k < tails@.len() ==> (#[trigger] final(self).pool()[old(
                        self,
                    ).pool().len() + 1 + k]) == PoolStream::<S>::Inner(tails@[k]))
            },
    {
        match self.voice_config {
            None => {
                self.voice_config = dir_voice_config;
            },
            Some(_) => {},
        }
        let agrees = match (dir_voice_config, self.voice_config) {
            (None, None) => true,
            (Some(a), Some(b)) => a.0 == b.0 && a.1 == b.1,
            _ => false,
        };
        if !agrees {
            return Err(Error::AudioFormat);
        }
        let ghost pool0 = self.streams@;
        let ghost vc1 = self.voice_config;
        self.streams.push(PoolStream::Player(player));
        let mut rest = tails;
        let total = rest.len();
        let ghost tails0 = rest@;
        let mut k: usize = 0;
        while rest.len() > 0
            invariant
                self.voice_config == vc1,
                total == tails0.len(),
                0 <= k <= tails0.len(),
                k + rest@.len() == tails0.len(),
                rest@ =~= tails0.skip(k as int),
                forall|i: int| 0 <= i < tails0.len() ==> (#[trigger] tails0[i]).wf(),
                self.streams@.len() == pool0.len() + 1 + k,
                forall|i: int| 0 <= i < pool0.len() ==> (#[trigger] self.streams@[i]) == pool0[i],
                self.streams@[pool0.len() as int] == PoolStream::<S>::Player(player),
                forall|i: int|
                    0 <= i < k ==> (#[trigger] self.streams@[pool0.len() + 1 + i])
                        == PoolStream::<S>::Inner(tails0[i]),
                forall|i: int|
                    0 <= i < self.streams@.len() ==> (#[trigger] self.streams@[i]).wf(),
            decreases rest@.len(),
        {
            let t = rest.remove(0);
            proof {
                assert(t == tails0[k as int]);
            }
            self.streams.push(PoolStream::Inner(t));
            k += 1;
            proof {
                assert(rest@ =~= tails0.skip(k as int));
            }
        }
        Ok(())
    }

    /// Builds the mixer over the collected pool: the agreed format and the
    /// mixer itself, or a format failure when no source fixed a format.
    pub fn build(self) -> (r: Result<(VoiceConfig, Mixer<S>), Error>)
        requires
            self.wf(),
        ensures
            self.voice_config_spec() matches Some(vc) ==> r matches Ok(pair) && pair.0 == vc
                && pair.1.wf() && pair.1.pool() == self.pool() && pair.1.queued_errors().len()
                == 0,
            self.voice_config_spec() is None ==> r == Err::<(VoiceConfig, Mixer<S>), Error>(
                Error::AudioFormat,
            ),
    {
        proof {
            assert forall|i: int| 0 <= i < self.streams@.len() implies (
            #[trigger] self.streams@[i]).wf() by {
                assert(self.pool()[i].wf());
            }
        }
        match self.voice_config {
            Some(vc) => Ok((vc, Mixer::new(self.streams))),
            None => Err(Error::AudioFormat),
        }
    }
}

} // verus!
