use digraph123::builders::{MixerBuilder, PlayerBuilder};
use digraph123::error::Error;
use digraph123::mixer::{Mixer, PoolStream};
use digraph123::player::{Player, Playlist, TrackSource};
use digraph123::stream::{InnerStream, VorbisStream};
use digraph123::track::Track;

fn clip_member(samples: Vec<i64>) -> PoolStream<Playlist> {
    PoolStream::Inner(InnerStream::Clip(VorbisStream::new(vec![samples])))
}

#[test]
fn empty_pool_reads_nothing_and_is_finished() {
    let mixer: Mixer<Playlist> = Mixer::new(Vec::new());
    assert_eq!(mixer.max_read(), 0);
    assert!(mixer.is_eos());
    assert_eq!(mixer.member_count(), 0);
}

#[test]
fn max_read_is_the_minimum_across_members() {
    let mixer = Mixer::new(vec![
        clip_member(vec![1, 1, 1, 1]),
        clip_member(vec![2, 2]),
        clip_member(vec![3, 3, 3]),
    ]);
    assert_eq!(mixer.max_read(), 2);
}

#[test]
fn read_add_zeroes_then_accumulates_every_member() {
    let mut mixer = Mixer::new(vec![clip_member(vec![1, 2]), clip_member(vec![10, 20])]);
    // whatever the buffer held before is discarded
    let mut buf = vec![500, 600];
    mixer.read_add(&mut buf);
    assert_eq!(buf, vec![11, 22]);
}

#[test]
fn mixing_is_order_independent() {
    // the same members in permuted order produce identical output
    let mut forward = Mixer::new(vec![
        clip_member(vec![1, 2, 3]),
        clip_member(vec![40, 50, 60]),
        clip_member(vec![-7, -8, -9]),
    ]);
    let mut backward = Mixer::new(vec![
        clip_member(vec![-7, -8, -9]),
        clip_member(vec![40, 50, 60]),
        clip_member(vec![1, 2, 3]),
    ]);
    let mut a = vec![0, 0, 0];
    let mut b = vec![0, 0, 0];
    forward.read_add(&mut a);
    backward.read_add(&mut b);
    assert_eq!(a, b);
    assert_eq!(a, vec![34, 44, 54]);
}

#[test]
fn load_prunes_finished_members() {
    let mut mixer = Mixer::new(vec![clip_member(vec![1]), clip_member(vec![2, 3])]);
    let mut buf = vec![0];
    mixer.read_add(&mut buf);
    assert_eq!(buf, vec![3]);
    // the first member is now exhausted; a clean scan drops it
    mixer.load().unwrap();
    assert_eq!(mixer.member_count(), 1);
    assert_eq!(mixer.max_read(), 1);
    let mut buf = vec![0];
    mixer.read_add(&mut buf);
    assert_eq!(buf, vec![3]);
}

#[test]
fn splice_tail_joins_the_pool() {
    // one source: clip "a to b" with splice point 3 over 5 frames, then
    // clip "b to a" with 4 frames and no splice point.  After the first 3
    // frames, loading peels a 2-frame tail and advances to the next clip:
    // the pool gains exactly one member.
    let a_to_b = Track::new(
        InnerStream::Clip(VorbisStream::new(vec![vec![1, 2, 3, 4, 5]])),
        Some(3),
    );
    let b_to_a = Track::new(InnerStream::Clip(VorbisStream::new(vec![vec![10, 20, 30, 40]])), None);
    let playlist = Playlist::new(vec![a_to_b, b_to_a]);
    let (player, tails) = Player::new(playlist).unwrap();
    assert_eq!(tails.len(), 0);

    let mut mixer = Mixer::new(vec![PoolStream::Player(player)]);
    assert_eq!(mixer.member_count(), 1);
    assert_eq!(mixer.max_read(), 3);
    let mut buf = vec![0, 0, 0];
    mixer.read_add(&mut buf);
    assert_eq!(buf, vec![1, 2, 3]);

    assert_eq!(mixer.max_read(), 0);
    mixer.load().unwrap();
    assert_eq!(mixer.member_count(), 2);

    // the player now plays "b to a" while the tail plays the remainder
    assert_eq!(mixer.max_read(), 2);
    let mut buf = vec![0, 0];
    mixer.read_add(&mut buf);
    assert_eq!(buf, vec![10 + 4, 20 + 5]);
}

struct OneFailure {
    failed: bool,
}

impl TrackSource for OneFailure {
    fn next_track(&mut self) -> Option<Result<Track, Error>> {
        if self.failed {
            None
        } else {
            self.failed = true;
            Some(Err(Error::Io("the disk fell over".to_string())))
        }
    }
}

struct FrontThenFail {
    front: Option<Track>,
    failed: bool,
}

impl TrackSource for FrontThenFail {
    fn next_track(&mut self) -> Option<Result<Track, Error>> {
        match self.front.take() {
            Some(t) => Some(Ok(t)),
            None => {
                if self.failed {
                    None
                } else {
                    self.failed = true;
                    Some(Err(Error::Io("the disk fell over".to_string())))
                }
            },
        }
    }
}

#[test]
fn failure_while_building_a_player_surfaces_directly() {
    let failing = Player::new(OneFailure { failed: false });
    assert!(matches!(failing, Err(Error::Io(_))));
}

#[test]
fn member_failures_queue_and_surface_one_by_one() {
    // a player with one readable frame whose source fails when asked for
    // the next track: the scan that meets the failure stays quiet, drops
    // the member and queues it; the following call surfaces it
    let track = Track::new(InnerStream::Clip(VorbisStream::new(vec![vec![7]])), None);
    let source = FrontThenFail { front: Some(track), failed: false };
    let (player, tails) = Player::new(source).unwrap();
    assert_eq!(tails.len(), 0);

    let mut mixer = Mixer::new(vec![PoolStream::Player(player)]);
    let mut buf = vec![0];
    mixer.read_add(&mut buf);
    assert_eq!(buf, vec![7]);

    assert!(mixer.load().is_ok());
    assert_eq!(mixer.member_count(), 0);
    let surfaced = mixer.load();
    assert!(matches!(surfaced, Err(Error::Io(_))));
    // once surfaced, the queue is clear again
    assert!(mixer.load().is_ok());
    assert!(mixer.is_eos());
}

#[test]
fn mixer_builder_holds_sources_to_one_format() {
    let mut builder: MixerBuilder<Playlist> = MixerBuilder::new();
    let (p1, t1) = Player::new(Playlist::new(Vec::new())).unwrap();
    builder.add_player(p1, t1, Some((2, 44100))).unwrap();
    let (p2, t2) = Player::new(Playlist::new(Vec::new())).unwrap();
    let clash = builder.add_player(p2, t2, Some((1, 48000)));
    assert!(matches!(clash, Err(Error::AudioFormat)));
    let (format, mixer) = builder.build().unwrap();
    assert_eq!(format, (2, 44100));
    assert_eq!(mixer.member_count(), 1);
}

#[test]
fn mixer_builder_without_sources_has_no_format() {
    let builder: MixerBuilder<Playlist> = MixerBuilder::new();
    let built = builder.build();
    assert!(matches!(built, Err(Error::AudioFormat)));
}

#[test]
fn player_builder_fixes_the_format_at_the_first_clip() {
    let mut builder = PlayerBuilder::new();
    assert_eq!(builder.get_voice_config(), None);
    builder
        .path("a-b.ogg".to_string(), "a".to_string(), "b".to_string(), (2, 44100))
        .unwrap();
    assert_eq!(builder.get_voice_config(), Some((2, 44100)));
    let clash = builder.path(
        "b-a.ogg".to_string(),
        "b".to_string(),
        "a".to_string(),
        (1, 22050),
    );
    assert!(matches!(clash, Err(Error::AudioFormat)));
    let digraph = builder.finish();
    assert_eq!(digraph.num_nodes(), 3);
}

#[test]
fn error_aggregation_folds_failures() {
    let none: Vec<Error> = Vec::new();
    assert!(matches!(Error::from(none), Error::NoItems));
    let one = vec![Error::AudioFormat];
    assert!(matches!(Error::from(one), Error::AudioFormat));
    let several = vec![Error::AudioFormat, Error::NoItems];
    match Error::from(several) {
        Error::Multiple(inner) => assert_eq!(inner.len(), 2),
        _ => panic!("expected an aggregate"),
    }
}

#[test]
fn error_descriptions_name_the_category() {
    assert_eq!(Error::AudioFormat.description(), "inconsistent audio formats");
    assert_eq!(Error::NoItems.description(), "no items");
    assert_eq!(Error::Parse("x".to_string()).description(), "a parse error");
    assert_eq!(Error::Io("x".to_string()).description(), "an I/O error");
    assert_eq!(
        Error::Vorbis("x".to_string()).description(),
        "a Vorbis decoder error"
    );
    assert_eq!(
        Error::File("f".to_string(), Box::new(Error::NoItems)).description(),
        "an error occurred in a file"
    );
    assert_eq!(
        Error::Dir("d".to_string(), Box::new(Error::NoItems)).description(),
        "an error occurred in a directory"
    );
    assert_eq!(
        Error::Multiple(vec![Error::NoItems]).description(),
        "multiple errors"
    );
}
