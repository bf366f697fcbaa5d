use digraph123::digraph::DigraphBuilder;
use digraph123::error::Error;
use digraph123::player::{Player, Playlist, TrackSource};
use digraph123::stream::{InnerStream, VorbisStream};
use digraph123::track::Track;

#[test]
fn player_over_empty_playlist_is_immediately_finished() {
    let playlist = Playlist::new(Vec::new());
    let (player, tails) = Player::new(playlist).unwrap();
    assert!(player.is_eos());
    assert_eq!(player.max_read(), 0);
    assert_eq!(tails.len(), 0);
}

#[test]
fn barren_source_directory_means_a_barren_player() {
    // a source with no matching files leaves only the "start" node; the walk
    // misses on both tries of every step, so the track sequence is empty and
    // the player is terminally empty from the outset, with no tails peeled
    let digraph = DigraphBuilder::new().into_digraph();
    let mut walk = digraph.into_random_walk();
    assert!(walk.next().is_none());
    let playlist = Playlist::new(Vec::new());
    let (player, tails) = Player::new(playlist).unwrap();
    assert!(player.is_eos());
    assert_eq!(tails.len(), 0);
}

#[test]
fn player_is_ready_right_after_construction() {
    let track = Track::new(InnerStream::Clip(VorbisStream::new(vec![vec![1, 2]])), None);
    let playlist = Playlist::new(vec![track]);
    let (mut player, tails) = Player::new(playlist).unwrap();
    assert_eq!(tails.len(), 0);
    assert!(!player.is_eos());
    assert_eq!(player.max_read(), 2);
    let mut buf = vec![0, 0];
    player.read_add(&mut buf);
    assert_eq!(buf, vec![1, 2]);
}

#[test]
fn player_advances_across_tracks() {
    let first = Track::new(InnerStream::Clip(VorbisStream::new(vec![vec![1]])), None);
    let second = Track::new(InnerStream::Clip(VorbisStream::new(vec![vec![2, 3]])), None);
    let playlist = Playlist::new(vec![first, second]);
    let (mut player, _) = Player::new(playlist).unwrap();

    let mut buf = vec![0];
    player.read_add(&mut buf);
    assert_eq!(buf, vec![1]);
    assert_eq!(player.max_read(), 0);
    assert!(!player.is_eos());

    let tails = player.load().unwrap();
    assert_eq!(tails.len(), 0);
    assert_eq!(player.max_read(), 2);
    let mut buf = vec![0, 0];
    player.read_add(&mut buf);
    assert_eq!(buf, vec![2, 3]);

    let tails = player.load().unwrap();
    assert_eq!(tails.len(), 0);
    assert!(player.is_eos());
}

#[test]
fn player_hands_tails_up_while_advancing() {
    // the first track splices after one frame; once that frame is read,
    // loading peels its remainder and advances to the second track
    let spliced = Track::new(InnerStream::Clip(VorbisStream::new(vec![vec![5, 6, 7]])), Some(1));
    let follow = Track::new(InnerStream::Clip(VorbisStream::new(vec![vec![9]])), None);
    let playlist = Playlist::new(vec![spliced, follow]);
    let (mut player, tails) = Player::new(playlist).unwrap();
    assert_eq!(tails.len(), 0);

    let mut buf = vec![0];
    player.read_add(&mut buf);
    assert_eq!(buf, vec![5]);

    let mut tails = player.load().unwrap();
    assert_eq!(tails.len(), 1);
    let mut tail = tails.pop().unwrap();
    assert_eq!(tail.max_read(), 2);
    let mut buf = vec![0, 0];
    tail.read_add(&mut buf);
    assert_eq!(buf, vec![6, 7]);

    assert_eq!(player.max_read(), 1);
    let mut buf = vec![0];
    player.read_add(&mut buf);
    assert_eq!(buf, vec![9]);
}

struct FailingSource {
    failed: bool,
}

impl TrackSource for FailingSource {
    fn next_track(&mut self) -> Option<Result<Track, Error>> {
        if self.failed {
            None
        } else {
            self.failed = true;
            Some(Err(Error::Vorbis("clip went missing".to_string())))
        }
    }
}

#[test]
fn source_failure_surfaces_and_finishes_the_player() {
    let result = Player::new(FailingSource { failed: false });
    assert!(matches!(result, Err(Error::Vorbis(_))));
}
