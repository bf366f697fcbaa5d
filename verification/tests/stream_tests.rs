use digraph123::stream::{EmptyStream, InnerStream, VorbisStream};

#[test]
fn empty_stream_is_finished_and_empty() {
    let mut empty = EmptyStream;
    assert!(empty.is_eos());
    assert_eq!(empty.max_read(), 0);
    let mut buf: Vec<i64> = Vec::new();
    empty.read_add(&mut buf);
    assert_eq!(buf.len(), 0);
    let tails = empty.load().unwrap();
    assert_eq!(tails.len(), 0);
}

#[test]
fn clip_stream_reads_accumulate_in_order() {
    let mut stream = VorbisStream::new(vec![vec![1, 2, 3], vec![4, 5]]);
    assert_eq!(stream.max_read(), 3);
    assert!(!stream.is_eos());

    let mut buf: Vec<i64> = vec![100, 200];
    stream.read_add(&mut buf);
    assert_eq!(buf, vec![101, 202]);
    assert_eq!(stream.max_read(), 1);

    let mut buf = vec![0];
    stream.read_add(&mut buf);
    assert_eq!(buf, vec![3]);
    assert_eq!(stream.max_read(), 0);
    assert!(!stream.is_eos());

    // load is what raises max_read again
    stream.load().unwrap();
    assert_eq!(stream.max_read(), 2);
    let mut buf = vec![0, 0];
    stream.read_add(&mut buf);
    assert_eq!(buf, vec![4, 5]);
    assert!(stream.is_eos());
}

#[test]
fn clip_stream_load_is_noop_while_readable() {
    let mut stream = VorbisStream::new(vec![vec![7, 8]]);
    assert_eq!(stream.max_read(), 2);
    stream.load().unwrap();
    assert_eq!(stream.max_read(), 2);
    let mut buf = vec![0, 0];
    stream.read_add(&mut buf);
    assert_eq!(buf, vec![7, 8]);
}

#[test]
fn clip_stream_drops_empty_packets() {
    let mut stream = VorbisStream::new(vec![vec![], vec![9], vec![], vec![10]]);
    assert_eq!(stream.max_read(), 1);
    let mut buf = vec![0];
    stream.read_add(&mut buf);
    assert_eq!(buf, vec![9]);
    stream.load().unwrap();
    let mut buf = vec![0];
    stream.read_add(&mut buf);
    assert_eq!(buf, vec![10]);
    assert!(stream.is_eos());
}

#[test]
fn clip_stream_of_nothing_is_finished() {
    let stream = VorbisStream::new(Vec::new());
    assert!(stream.is_eos());
    assert_eq!(stream.max_read(), 0);
    let silent = VorbisStream::new(vec![vec![], vec![]]);
    assert!(silent.is_eos());
}

#[test]
fn inner_stream_dispatches_to_its_variant() {
    let mut inert = InnerStream::empty();
    assert!(inert.is_eos());
    assert_eq!(inert.max_read(), 0);
    let tails = inert.load().unwrap();
    assert_eq!(tails.len(), 0);

    let mut clip = InnerStream::Clip(VorbisStream::new(vec![vec![5, 6]]));
    assert!(!clip.is_eos());
    assert_eq!(clip.max_read(), 2);
    let mut buf = vec![1, 1];
    clip.read_add(&mut buf);
    assert_eq!(buf, vec![6, 7]);
    assert!(clip.is_eos());
}
