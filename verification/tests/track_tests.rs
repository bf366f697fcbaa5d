use digraph123::error::Error;
use digraph123::stream::{InnerStream, VorbisStream};
use digraph123::track::{min_splice_point, parse_u64, Track};

#[test]
fn splice_caps_delivery_and_peels_the_remainder() {
    // splice point 3 over a 5-frame clip: exactly 3 frames come out, and
    // load then peels a 2-frame tail carrying the rest
    let clip = InnerStream::Clip(VorbisStream::new(vec![vec![1, 2, 3, 4, 5]]));
    let mut track = Track::new(clip, Some(3));
    assert_eq!(track.max_read(), 3);
    assert!(!track.is_eos());

    let mut buf = vec![0, 0, 0];
    track.read_add(&mut buf);
    assert_eq!(buf, vec![1, 2, 3]);

    // the countdown hit zero: the track is finished even though audio remains
    assert_eq!(track.max_read(), 0);
    assert!(track.is_eos());

    let mut tails = track.load().unwrap();
    assert_eq!(tails.len(), 1);
    let mut tail = tails.pop().unwrap();
    assert_eq!(tail.max_read(), 2);
    let mut buf = vec![0, 0];
    tail.read_add(&mut buf);
    assert_eq!(buf, vec![4, 5]);
    assert!(tail.is_eos());

    // the track itself has nothing left and peels nothing further
    assert!(track.is_eos());
    let tails = track.load().unwrap();
    assert_eq!(tails.len(), 0);
}

#[test]
fn splice_past_the_end_never_peels() {
    // splice point 7 over a 5-frame clip: all 5 frames come out, no tail
    let clip = InnerStream::Clip(VorbisStream::new(vec![vec![1, 2, 3, 4, 5]]));
    let mut track = Track::new(clip, Some(7));
    assert_eq!(track.max_read(), 5);
    let mut buf = vec![0, 0, 0, 0, 0];
    track.read_add(&mut buf);
    assert_eq!(buf, vec![1, 2, 3, 4, 5]);
    assert!(track.is_eos());
    let tails = track.load().unwrap();
    assert_eq!(tails.len(), 0);
}

#[test]
fn splice_equal_to_length_never_peels() {
    let clip = InnerStream::Clip(VorbisStream::new(vec![vec![1, 2]]));
    let mut track = Track::new(clip, Some(2));
    let mut buf = vec![0, 0];
    track.read_add(&mut buf);
    assert_eq!(buf, vec![1, 2]);
    assert!(track.is_eos());
    let tails = track.load().unwrap();
    assert_eq!(tails.len(), 0);
}

#[test]
fn splice_zero_peels_the_whole_clip() {
    let clip = InnerStream::Clip(VorbisStream::new(vec![vec![8, 9]]));
    let mut track = Track::new(clip, Some(0));
    assert_eq!(track.max_read(), 0);
    assert!(track.is_eos());
    let mut tails = track.load().unwrap();
    assert_eq!(tails.len(), 1);
    assert_eq!(tails.pop().unwrap().max_read(), 2);
}

#[test]
fn unspliced_track_delegates_to_its_clip() {
    let clip = InnerStream::Clip(VorbisStream::new(vec![vec![3], vec![4]]));
    let mut track = Track::new(clip, None);
    assert_eq!(track.splice_point_as_usize(), None);
    let mut buf = vec![0];
    track.read_add(&mut buf);
    assert_eq!(buf, vec![3]);
    assert!(!track.is_eos());
    let tails = track.load().unwrap();
    assert_eq!(tails.len(), 0);
    let mut buf = vec![0];
    track.read_add(&mut buf);
    assert_eq!(buf, vec![4]);
    assert!(track.is_eos());
}

#[test]
fn empty_track_is_finished() {
    let track = Track::empty();
    assert!(track.is_eos());
    assert_eq!(track.max_read(), 0);
    assert_eq!(track.splice_point_as_usize(), None);
}

#[test]
fn splice_point_as_usize_reflects_the_countdown() {
    let track = Track::new(InnerStream::empty(), Some(41));
    assert_eq!(track.splice_point_as_usize(), Some(41));
}

#[test]
fn parse_u64_reads_plain_decimals() {
    assert_eq!(parse_u64("0").unwrap(), 0);
    assert_eq!(parse_u64("123").unwrap(), 123);
    assert_eq!(parse_u64("18446744073709551615").unwrap(), u64::MAX);
}

#[test]
fn parse_u64_rejects_what_is_not_a_decimal() {
    assert!(matches!(parse_u64(""), Err(Error::Parse(_))));
    assert!(matches!(parse_u64("12a"), Err(Error::Parse(_))));
    assert!(matches!(parse_u64("-3"), Err(Error::Parse(_))));
    assert!(matches!(parse_u64(" 3"), Err(Error::Parse(_))));
    // one past the largest representable value
    assert!(matches!(parse_u64("18446744073709551616"), Err(Error::Parse(_))));
}

#[test]
fn min_splice_point_takes_the_least_annotation() {
    assert_eq!(min_splice_point(&Vec::new()).unwrap(), None);
    let values = vec!["7".to_string(), "3".to_string(), "5".to_string()];
    assert_eq!(min_splice_point(&values).unwrap(), Some(3));
    let single = vec!["42".to_string()];
    assert_eq!(min_splice_point(&single).unwrap(), Some(42));
}

#[test]
fn min_splice_point_reports_the_offender() {
    let values = vec!["7".to_string(), "x".to_string()];
    let err = min_splice_point(&values).unwrap_err();
    match err {
        Error::Parse(text) => assert_eq!(text, "x".to_string()),
        _ => panic!("expected a parse failure"),
    }
}
